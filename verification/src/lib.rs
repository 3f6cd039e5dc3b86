//! The logic of a gateway for language models: parsers of tool calls, the choice of parsers, the
//! history of a request, and the workers behind the gateway.

pub mod arguments;
pub mod chunked;
pub mod deepseek;
pub mod engine;
pub mod entities;
pub mod history;
pub mod json;
pub mod loader;
pub mod minimax;
pub mod monitor;
pub mod numbered;
pub mod params;
pub mod pattern;
pub mod plain;
pub mod reading;
pub mod schema;
pub mod selection;
pub mod several;
pub mod streamed;
pub mod table;
pub mod text;
pub mod tool;
pub mod workers;
pub mod written;
