# smg

The logic of a gateway for language models, with its behaviour stated as contracts that Verus
proves.

| module | what it holds |
| --- | --- |
| `text`, `json`, `table` | text as sequences of characters, JSON values, tables of values by name |
| `params`, `pattern`, `tool` | parameters of calls, the tags of the formats, what the parsers share |
| `schema`, `minimax` | the MiniMax M2 format: values guided by a schema, whole texts, streams |
| `deepseek` | the DeepSeek V3.2 format: whole texts, streams |
| `written`, `streamed`, `chunked`, `plain`, `numbered` | texts written in the two formats, and what the parsers make of them whole, as streams, and cut into chunks anywhere; the numbers that pieces of calls carry |
| `selection` | which parsers a request is served with, and whether its output is constrained |
| `history`, `loader` | the items that go before the input of a request, and loading them |
| `workers`, `engine`, `monitor` | requests to workers, their metrics, and their loads |

Functions named `law_...` state what holds of several functions together.

`app/` is the ordinary Rust around the library: HTTP, timers, storage and serialisation. `tests/`
runs the library.
