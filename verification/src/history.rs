//! The history that goes before the input of a request: the items of earlier responses, or of a
//! conversation, in the form in which they are sent on.

use vstd::prelude::*;
use vstd::string::*;

use crate::json::{compact_text, JsonValue};
#[allow(unused_imports)]
use crate::json::{compact, field, text_field};
use crate::text::{concat2, concat3, same_text, skip_text, starts_with};
#[allow(unused_imports)]
use crate::text::{hex_digit, optional_text, texts};

verus! {

// ---------------------------------------------------------------------------
// Items
// ---------------------------------------------------------------------------

/// A part of a message.
#[derive(Debug, PartialEq, Eq)]
pub enum ContentPart {
    InputText { text: String },
    /// Any other part, as its JSON text.
    Other { json: String },
}

/// What a [`ContentPart`] holds.
pub enum PartView {
    InputText(Seq<char>),
    Other(Seq<char>),
}

impl View for ContentPart {
    type V = PartView;

    open spec fn view(&self) -> PartView {
        match self {
            ContentPart::InputText { text } => PartView::InputText(text@),
            ContentPart::Other { json } => PartView::Other(json@),
        }
    }
}

impl Clone for ContentPart {
    fn clone(&self) -> (r: Self)
        ensures
            r@ == self@,
    {
        match self {
            ContentPart::InputText { text } => ContentPart::InputText { text: text.clone() },
            ContentPart::Other { json } => ContentPart::Other { json: json.clone() },
        }
    }
}

/// What parts hold.
pub open spec fn parts_view(parts: Seq<ContentPart>) -> Seq<PartView> {
    parts.map_values(|p: ContentPart| p@)
}

/// The content of a message in its short form.
#[derive(Debug, PartialEq, Eq)]
pub enum SimpleContent {
    Text(String),
    Parts(Vec<ContentPart>),
}

/// What a [`SimpleContent`] holds.
pub enum SimpleView {
    Text(Seq<char>),
    Parts(Seq<PartView>),
}

impl View for SimpleContent {
    type V = SimpleView;

    open spec fn view(&self) -> SimpleView {
        match self {
            SimpleContent::Text(text) => SimpleView::Text(text@),
            SimpleContent::Parts(parts) => SimpleView::Parts(parts_view(parts@)),
        }
    }
}

/// The parts of a message in its short form: its text is one part.
pub open spec fn simple_parts(content: SimpleView) -> Seq<PartView> {
    match content {
        SimpleView::Text(text) => seq![PartView::InputText(text)],
        SimpleView::Parts(parts) => parts,
    }
}

/// An item of the input or the output of a response.
#[derive(Debug, PartialEq, Eq)]
#[allow(inconsistent_fields)]
pub enum InputItem {
    Message { id: String, role: String, content: Vec<ContentPart>, status: Option<String> },
    /// A message in its short form.
    SimpleInputMessage { role: String, content: SimpleContent },
    FunctionToolCall {
        id: String,
        call_id: String,
        name: String,
        arguments: String,
        output: Option<String>,
        status: Option<String>,
    },
    FunctionCallOutput {
        id: Option<String>,
        call_id: String,
        output: String,
        status: Option<String>,
    },
    /// A request that a call be approved, as its JSON text.
    McpApprovalRequest { json: String },
    /// The answer to such a request, as its JSON text.
    McpApprovalResponse { json: String },
    /// Any other item, as its JSON text.
    Other { json: String },
}

/// What an [`InputItem`] holds.
#[allow(inconsistent_fields)]
pub enum ItemView {
    Message { id: Seq<char>, role: Seq<char>, content: Seq<PartView>, status: Option<Seq<char>> },
    Simple { role: Seq<char>, content: SimpleView },
    Call {
        id: Seq<char>,
        call_id: Seq<char>,
        name: Seq<char>,
        arguments: Seq<char>,
        output: Option<Seq<char>>,
        status: Option<Seq<char>>,
    },
    CallOutput {
        id: Option<Seq<char>>,
        call_id: Seq<char>,
        output: Seq<char>,
        status: Option<Seq<char>>,
    },
    ApprovalRequest(Seq<char>),
    ApprovalResponse(Seq<char>),
    Other(Seq<char>),
}

impl View for InputItem {
    type V = ItemView;

    open spec fn view(&self) -> ItemView {
        match self {
            InputItem::Message { id, role, content, status } => ItemView::Message {
                id: id@,
                role: role@,
                content: parts_view(content@),
                status: optional_text(*status),
            },
            InputItem::SimpleInputMessage { role, content } => ItemView::Simple {
                role: role@,
                content: content@,
            },
            InputItem::FunctionToolCall { id, call_id, name, arguments, output, status } =>
                ItemView::Call {
                id: id@,
                call_id: call_id@,
                name: name@,
                arguments: arguments@,
                output: optional_text(*output),
                status: optional_text(*status),
            },
            InputItem::FunctionCallOutput { id, call_id, output, status } => ItemView::CallOutput {
                id: optional_text(*id),
                call_id: call_id@,
                output: output@,
                status: optional_text(*status),
            },
            InputItem::McpApprovalRequest { json } => ItemView::ApprovalRequest(json@),
            InputItem::McpApprovalResponse { json } => ItemView::ApprovalResponse(json@),
            InputItem::Other { json } => ItemView::Other(json@),
        }
    }
}

/// What items hold.
pub open spec fn items_view(items: Seq<InputItem>) -> Seq<ItemView> {
    items.map_values(|i: InputItem| i@)
}

/// A copy of a text, where there is one.
pub(crate) fn copy_text(text: &Option<String>) -> (r: Option<String>)
    ensures
        optional_text(r) == optional_text(*text),
{
    match text {
        Some(t) => Some(t.clone()),
        None => None,
    }
}

/// A copy of parts.
pub(crate) fn copy_parts(parts: &Vec<ContentPart>) -> (r: Vec<ContentPart>)
    ensures
        parts_view(r@) == parts_view(parts@),
{
    let mut copy: Vec<ContentPart> = Vec::new();
    let mut i: usize = 0;
    while i < parts.len()
        invariant
            i <= parts@.len(),
            parts_view(copy@) == parts_view(parts@).take(i as int),
        decreases parts.len() - i,
    {
        let part: ContentPart = parts[i].clone();
        let ghost held = copy@;
        copy.push(part);
        assert(parts_view(copy@) =~= parts_view(held).push(part@));
        i = i + 1;
        assert(parts_view(copy@) =~= parts_view(parts@).take(i as int));
    }
    assert(parts_view(copy@) =~= parts_view(parts@));
    copy
}

impl Clone for SimpleContent {
    fn clone(&self) -> (r: Self)
        ensures
            r@ == self@,
    {
        match self {
            SimpleContent::Text(text) => SimpleContent::Text(text.clone()),
            SimpleContent::Parts(parts) => SimpleContent::Parts(copy_parts(parts)),
        }
    }
}

impl Clone for InputItem {
    fn clone(&self) -> (r: Self)
        ensures
            r@ == self@,
    {
        match self {
            InputItem::Message { id, role, content, status } => InputItem::Message {
                id: id.clone(),
                role: role.clone(),
                content: copy_parts(content),
                status: copy_text(status),
            },
            InputItem::SimpleInputMessage { role, content } => InputItem::SimpleInputMessage {
                role: role.clone(),
                content: content.clone(),
            },
            InputItem::FunctionToolCall { id, call_id, name, arguments, output, status } =>
                InputItem::FunctionToolCall {
                id: id.clone(),
                call_id: call_id.clone(),
                name: name.clone(),
                arguments: arguments.clone(),
                output: copy_text(output),
                status: copy_text(status),
            },
            InputItem::FunctionCallOutput { id, call_id, output, status } =>
                InputItem::FunctionCallOutput {
                id: copy_text(id),
                call_id: call_id.clone(),
                output: output.clone(),
                status: copy_text(status),
            },
            InputItem::McpApprovalRequest { json } => InputItem::McpApprovalRequest {
                json: json.clone(),
            },
            InputItem::McpApprovalResponse { json } => InputItem::McpApprovalResponse {
                json: json.clone(),
            },
            InputItem::Other { json } => InputItem::Other { json: json.clone() },
        }
    }
}

// ---------------------------------------------------------------------------
// Identifiers
// ---------------------------------------------------------------------------

/// How many random bytes an identifier holds.
pub const ID_BYTES: usize = 25;

/// The two hexadecimal digits of each byte.
pub open spec fn hex_text(bytes: Seq<u8>) -> Seq<char>
    decreases bytes.len(),
{
    if bytes.len() == 0 {
        Seq::empty()
    } else {
        hex_text(bytes.drop_last()).push(hex_digit(bytes.last() as int / 16)).push(
            hex_digit(bytes.last() as int % 16),
        )
    }
}

/// `id` is the prefix, an underscore, and the digits of random bytes.
pub open spec fn is_generated_id(prefix: Seq<char>, id: Seq<char>) -> bool {
    exists|bytes: Seq<u8>| bytes.len() == ID_BYTES && id == #[trigger] id_of_bytes(prefix, bytes)
}

/// The identifier that random bytes make.
pub open spec fn id_of_bytes(prefix: Seq<char>, bytes: Seq<u8>) -> Seq<char> {
    prefix + "_"@ + hex_text(bytes)
}

/// `rand::RngCore::fill_bytes` on the generator of the thread: `n` bytes. Which bytes they are
/// rests on chance, and nothing is said of it.
#[verifier::external_body]
fn random_bytes(n: usize) -> (r: Vec<u8>)
    ensures
        r@.len() == n,
{
    let mut bytes = vec![0u8; n];
    rand::RngCore::fill_bytes(&mut rand::rng(), &mut bytes);
    bytes
}

/// The hexadecimal digit of value `d`.
fn digit_of(d: u8) -> (r: char)
    requires
        d < 16,
    ensures
        r == hex_digit(d as int),
{
    if d < 10 {
        (d + 48) as char
    } else {
        (d + 87) as char
    }
}

/// The identifier that the bytes make.
pub fn id_from_bytes(prefix: &str, bytes: &Vec<u8>) -> (r: String)
    ensures
        r@ == id_of_bytes(prefix@, bytes@),
{
    let mut digits: String = String::new();
    let mut i: usize = 0;
    assert(digits@ =~= hex_text(bytes@.take(0)));
    while i < bytes.len()
        invariant
            i <= bytes@.len(),
            digits@ == hex_text(bytes@.take(i as int)),
        decreases bytes.len() - i,
    {
        assert(bytes@.take(i + 1).drop_last() =~= bytes@.take(i as int));
        let byte: u8 = bytes[i];
        digits.push(digit_of(byte / 16));
        digits.push(digit_of(byte % 16));
        i = i + 1;
    }
    assert(bytes@.take(i as int) =~= bytes@);
    concat3(prefix, "_", digits.as_str())
}

/// A new identifier.
pub fn generate_id(prefix: &str) -> (r: String)
    ensures
        is_generated_id(prefix@, r@),
{
    let bytes: Vec<u8> = random_bytes(ID_BYTES);
    id_from_bytes(prefix, &bytes)
}

// ---------------------------------------------------------------------------
// Normal form
// ---------------------------------------------------------------------------

/// The normal form of an item: a message in its short form becomes a whole one, with the
/// identifier `id`; any other item is kept.
pub open spec fn normalized(item: ItemView, id: Seq<char>) -> ItemView {
    match item {
        ItemView::Simple { role, content } => ItemView::Message {
            id,
            role,
            content: simple_parts(content),
            status: Some("completed"@),
        },
        _ => item,
    }
}

/// `form` is a normal form of `item`: with a new identifier, where the item needs one.
pub open spec fn is_normal_form(form: ItemView, item: ItemView) -> bool {
    match item {
        ItemView::Simple { role, content } => {
            &&& form matches ItemView::Message { id, .. }
            &&& is_generated_id("msg"@, id)
            &&& form == normalized(item, id)
        },
        _ => form == item,
    }
}

/// `forms` are normal forms of `items`, one for one.
pub open spec fn are_normal_forms(forms: Seq<ItemView>, items: Seq<ItemView>) -> bool {
    &&& forms.len() == items.len()
    &&& forall|i: int| 0 <= i < items.len() ==> is_normal_form(#[trigger] forms[i], items[i])
}

/// The normal form of an item, with the identifier `id` where it needs one.
pub fn normalize_with_id(item: &InputItem, id: String) -> (r: InputItem)
    ensures
        r@ == normalized(item@, id@),
{
    match item {
        InputItem::SimpleInputMessage { role, content } => {
            let parts: Vec<ContentPart> = match content {
                SimpleContent::Text(text) => {
                    let mut parts: Vec<ContentPart> = Vec::new();
                    let part: ContentPart = ContentPart::InputText { text: text.clone() };
                    parts.push(part);
                    assert(parts_view(parts@) =~= seq![part@]);
                    parts
                },
                SimpleContent::Parts(parts) => copy_parts(parts),
            };
            InputItem::Message {
                id,
                role: role.clone(),
                content: parts,
                status: Some("completed".to_owned()),
            }
        },
        _ => item.clone(),
    }
}

/// The normal form of an item.
pub fn normalize_input_item(item: &InputItem) -> (r: InputItem)
    ensures
        is_normal_form(r@, item@),
{
    normalize_with_id(item, generate_id("msg"))
}

// ---------------------------------------------------------------------------
// The input of a request
// ---------------------------------------------------------------------------

/// The input of a request.
#[derive(Debug, PartialEq, Eq)]
pub enum ResponseInput {
    Text(String),
    Items(Vec<InputItem>),
}

/// What a [`ResponseInput`] holds.
pub enum InputView {
    Text(Seq<char>),
    Items(Seq<ItemView>),
}

impl View for ResponseInput {
    type V = InputView;

    open spec fn view(&self) -> InputView {
        match self {
            ResponseInput::Text(text) => InputView::Text(text@),
            ResponseInput::Items(items) => InputView::Items(items_view(items@)),
        }
    }
}

/// The item is about the approval of a call.
pub open spec fn is_approval(item: ItemView) -> bool {
    item is ApprovalRequest || item is ApprovalResponse
}

/// No item is about the approval of a call.
pub open spec fn no_approvals(items: Seq<ItemView>) -> bool {
    forall|i: int| 0 <= i < items.len() ==> !is_approval(#[trigger] items[i])
}

/// The items that are sent on: all but those about approvals, in their order.
pub open spec fn sent_on(items: Seq<ItemView>) -> Seq<ItemView> {
    items.filter(|i: ItemView| !is_approval(i))
}

/// The message that the user's text makes.
pub open spec fn text_message(id: Seq<char>, text: Seq<char>) -> ItemView {
    ItemView::Message {
        id,
        role: "user"@,
        content: seq![PartView::InputText(text)],
        status: Some("completed"@),
    }
}

/// `after` is `before` with the input of the request behind it: its items in their normal form,
/// or a message with its text.
pub open spec fn input_appended(
    before: Seq<ItemView>,
    input: InputView,
    suffix: Seq<char>,
    after: Seq<ItemView>,
) -> bool {
    match input {
        InputView::Text(text) => after == before.push(text_message("msg_u_"@ + suffix, text)),
        InputView::Items(items) => {
            &&& after.len() == before.len() + items.len()
            &&& after.take(before.len() as int) == before
            &&& are_normal_forms(after.skip(before.len() as int), items)
        },
    }
}

/// Whether the item is about the approval of a call.
fn about_approval(item: &InputItem) -> (r: bool)
    ensures
        r == is_approval(item@),
{
    match item {
        InputItem::McpApprovalRequest { .. } => true,
        InputItem::McpApprovalResponse { .. } => true,
        _ => false,
    }
}

/// One more normal form.
proof fn lemma_more_forms(forms: Seq<ItemView>, items: Seq<ItemView>, form: ItemView, item: ItemView)
    requires
        are_normal_forms(forms, items),
        is_normal_form(form, item),
    ensures
        are_normal_forms(forms.push(form), items.push(item)),
{
    assert forall|i: int| 0 <= i < items.push(item).len() implies is_normal_form(
        #[trigger] forms.push(form)[i],
        items.push(item)[i],
    ) by {
        if i < items.len() {
            assert(is_normal_form(forms[i], items[i]));
        }
    }
}

/// Normal forms behind normal forms.
pub proof fn lemma_forms_concat(
    forms: Seq<ItemView>,
    items: Seq<ItemView>,
    more_forms: Seq<ItemView>,
    more: Seq<ItemView>,
)
    requires
        are_normal_forms(forms, items),
        are_normal_forms(more_forms, more),
    ensures
        are_normal_forms(forms + more_forms, items + more),
{
    assert forall|i: int| 0 <= i < (items + more).len() implies is_normal_form(
        #[trigger] (forms + more_forms)[i],
        (items + more)[i],
    ) by {
        if i < items.len() {
            assert(is_normal_form(forms[i], items[i]));
        } else {
            assert(is_normal_form(more_forms[i - forms.len()], more[i - items.len()]));
        }
    }
}

/// The input as it is sent on: a text as it is; of items those that are not about approvals, in
/// their order and their normal form.
pub fn sanitize_input_for_upstream(input: &ResponseInput) -> (r: ResponseInput)
    ensures
        match input@ {
            InputView::Text(text) => r@ == InputView::Text(text),
            InputView::Items(items) => r@ matches InputView::Items(kept) && are_normal_forms(
                kept,
                sent_on(items),
            ),
        },
{
    match input {
        ResponseInput::Text(text) => ResponseInput::Text(text.clone()),
        ResponseInput::Items(items) => {
            let mut kept: Vec<InputItem> = Vec::new();
            let mut i: usize = 0;
            let ghost all = items_view(items@);
            let ghost keep = |i: ItemView| !is_approval(i);
            assert(items_view(kept@) =~= Seq::empty());
            proof {
                reveal(Seq::filter);
                assert(all.take(0).filter(keep) =~= Seq::empty());
            }
            while i < items.len()
                invariant
                    all == items_view(items@),
                    keep == (|i: ItemView| !is_approval(i)),
                    i <= items@.len(),
                    are_normal_forms(items_view(kept@), all.take(i as int).filter(keep)),
                decreases items.len() - i,
            {
                assert(all.take(i + 1).drop_last() =~= all.take(i as int));
                assert(all.take(i + 1).last() == items@[i as int]@);
                proof {
                    reveal(Seq::filter);
                }
                let form: InputItem = normalize_input_item(&items[i]);
                if !about_approval(&form) {
                    let ghost held = kept@;
                    proof {
                        lemma_more_forms(
                            items_view(kept@),
                            all.take(i as int).filter(keep),
                            form@,
                            items@[i as int]@,
                        );
                    }
                    kept.push(form);
                    assert(items_view(kept@) =~= items_view(held).push(form@));
                }
                i = i + 1;
            }
            assert(all.take(i as int) =~= all);
            ResponseInput::Items(kept)
        },
    }
}

/// The message that the user's text makes.
fn message_of_text(id: String, text: &str) -> (r: InputItem)
    ensures
        r@ == text_message(id@, text@),
{
    let mut content: Vec<ContentPart> = Vec::new();
    let part: ContentPart = ContentPart::InputText { text: text.to_owned() };
    content.push(part);
    assert(parts_view(content@) =~= seq![part@]);
    InputItem::Message {
        id,
        role: "user".to_owned(),
        content,
        status: Some("completed".to_owned()),
    }
}

/// Puts the input of the request behind the items.
pub fn append_current_input(items: &mut Vec<InputItem>, input: &ResponseInput, id_suffix: &str)
    ensures
        input_appended(items_view(old(items)@), input@, id_suffix@, items_view(final(items)@)),
{
    let ghost before = items_view(items@);
    match input {
        ResponseInput::Text(text) => {
            let id: String = concat2("msg_u_", id_suffix);
            let message: InputItem = message_of_text(id, text.as_str());
            let ghost held = items@;
            items.push(message);
            assert(items_view(items@) =~= items_view(held).push(message@));
        },
        ResponseInput::Items(current) => {
            let mut i: usize = 0;
            let ghost all = items_view(current@);
            assert(items_view(items@).skip(before.len() as int) =~= Seq::empty());
            assert(items_view(items@).take(before.len() as int) =~= before);
            while i < current.len()
                invariant
                    all == items_view(current@),
                    i <= current@.len(),
                    items@.len() == before.len() + i,
                    items_view(items@).take(before.len() as int) == before,
                    are_normal_forms(items_view(items@).skip(before.len() as int), all.take(i as int)),
                decreases current.len() - i,
            {
                let form: InputItem = normalize_input_item(&current[i]);
                let ghost held = items@;
                proof {
                    lemma_more_forms(
                        items_view(items@).skip(before.len() as int),
                        all.take(i as int),
                        form@,
                        current@[i as int]@,
                    );
                }
                items.push(form);
                assert(items_view(items@) =~= items_view(held).push(form@));
                assert(items_view(items@).skip(before.len() as int) =~= items_view(held).skip(
                    before.len() as int,
                ).push(form@));
                assert(items_view(items@).take(before.len() as int) =~= items_view(held).take(
                    before.len() as int,
                ));
                assert(all.take(i + 1) =~= all.take(i as int).push(current@[i as int]@));
                i = i + 1;
            }
            assert(all.take(i as int) =~= all);
        },
    }
}

// ---------------------------------------------------------------------------
// Calls of MCP tools
// ---------------------------------------------------------------------------

/// `s` without `prefix` before it, where it begins so.
pub open spec fn without_prefix(s: Seq<char>, prefix: Seq<char>) -> Option<Seq<char>> {
    if prefix.is_prefix_of(s) {
        Some(s.skip(prefix.len() as int))
    } else {
        None
    }
}

/// The identifier of an item with its own prefix, if it has one, in place of which `prefix`
/// stands.
pub open spec fn prefixed_id(item_id: Seq<char>, prefix: Seq<char>) -> Seq<char> {
    match (without_prefix(item_id, "mcp_"@), without_prefix(item_id, "mcpr_"@)) {
        (Some(rest), _) => prefix + rest,
        (None, Some(rest)) => prefix + rest,
        (None, None) => prefix + item_id,
    }
}

/// The identifier of the call that a request for approval is about.
pub open spec fn approved_call_id(request_id: Seq<char>) -> Seq<char> {
    match without_prefix(request_id, "mcpr_"@) {
        Some(rest) => "call_"@ + rest,
        None => prefixed_id(request_id, "call_"@),
    }
}

/// `s` without `prefix` before it, where it begins so.
fn strip_prefix(s: &str, prefix: &str) -> (r: Option<String>)
    ensures
        optional_text(r) == without_prefix(s@, prefix@),
{
    if starts_with(s, prefix) {
        let n: usize = prefix.unicode_len();
        Some(skip_text(s, n))
    } else {
        None
    }
}

/// The identifier of an item, under another prefix.
pub fn mcp_item_id_to_prefixed_id(item_id: &str, prefix: &str) -> (r: String)
    ensures
        r@ == prefixed_id(item_id@, prefix@),
{
    if let Some(rest) = strip_prefix(item_id, "mcp_") {
        concat2(prefix, rest.as_str())
    } else if let Some(rest) = strip_prefix(item_id, "mcpr_") {
        concat2(prefix, rest.as_str())
    } else {
        concat2(prefix, item_id)
    }
}

/// The identifier of the call that a request for approval is about.
pub fn approval_request_to_call_id(approval_request_id: &str) -> (r: String)
    ensures
        r@ == approved_call_id(approval_request_id@),
{
    if let Some(rest) = strip_prefix(approval_request_id, "mcpr_") {
        concat2("call_", rest.as_str())
    } else {
        mcp_item_id_to_prefixed_id(approval_request_id, "call_")
    }
}

/// The output of a call as text: a text as it is, any other value as JSON, and `null` where there
/// is none.
pub open spec fn output_text(item: JsonValue) -> Seq<char> {
    match (text_field(item, "output"@), field(item, "output"@)) {
        (Some(text), _) => text,
        (None, Some(value)) => compact(value),
        (None, None) => "null"@,
    }
}

/// The identifier of the call that the item is of.
pub open spec fn call_id_of(item: JsonValue) -> Seq<char> {
    match text_field(item, "approval_request_id"@) {
        Some(request) => approved_call_id(request),
        None => prefixed_id(text_field(item, "id"@)->0, "call_"@),
    }
}

/// What is sent on of a call of an MCP tool: a call of a function and its output, with one
/// identifier; nothing where its own identifier, its name or its arguments are missing.
pub open spec fn mcp_call_items(item: JsonValue) -> Seq<ItemView> {
    match (text_field(item, "id"@), text_field(item, "name"@), text_field(item, "arguments"@)) {
        (Some(id), Some(name), Some(arguments)) => seq![
            ItemView::Call {
                id: prefixed_id(id, "fc_"@),
                call_id: call_id_of(item),
                name,
                arguments,
                output: None,
                status: Some("completed"@),
            },
            ItemView::CallOutput {
                id: None,
                call_id: call_id_of(item),
                output: output_text(item),
                status: Some("completed"@),
            },
        ],
        _ => Seq::empty(),
    }
}

/// What is sent on of a call of an MCP tool.
pub fn mcp_call_output_to_upstream_items(item: &JsonValue) -> (r: Vec<InputItem>)
    ensures
        items_view(r@) == mcp_call_items(*item),
{
    let mut items: Vec<InputItem> = Vec::new();
    assert(items_view(items@) =~= Seq::empty());
    let (id, name, arguments): (String, String, String) = match (
        item.get_text("id"),
        item.get_text("name"),
        item.get_text("arguments"),
    ) {
        (Some(id), Some(name), Some(arguments)) => (id, name, arguments),
        _ => {
            return items;
        },
    };
    let output: String = match item.get_text("output") {
        Some(text) => text,
        None => match item.get("output") {
            Some(value) => compact_text(value),
            None => "null".to_owned(),
        },
    };
    let call_id: String = match item.get_text("approval_request_id") {
        Some(request) => approval_request_to_call_id(request.as_str()),
        None => mcp_item_id_to_prefixed_id(id.as_str(), "call_"),
    };
    let call: InputItem = InputItem::FunctionToolCall {
        id: mcp_item_id_to_prefixed_id(id.as_str(), "fc_"),
        call_id: call_id.clone(),
        name,
        arguments,
        output: None,
        status: Some("completed".to_owned()),
    };
    let result: InputItem = InputItem::FunctionCallOutput {
        id: None,
        call_id,
        output,
        status: Some("completed".to_owned()),
    };
    items.push(call);
    items.push(result);
    assert(items_view(items@) =~= seq![call@, result@]);
    items
}

// ---------------------------------------------------------------------------
// Stored items
// ---------------------------------------------------------------------------

/// An item as it is stored, and the item that it parses to, if it parses.
#[derive(Debug)]
pub struct RawItem {
    pub value: JsonValue,
    pub parsed: Option<InputItem>,
}

/// The input or the output of a response as it is stored.
#[derive(Debug)]
pub enum RawItems {
    Text(String),
    Array(Vec<RawItem>),
    /// Any other value, or none.
    Other,
}

/// What an array holds; nothing where it is no array.
pub open spec fn raw_array(items: RawItems) -> Seq<RawItem> {
    match items {
        RawItems::Array(array) => array@,
        _ => Seq::empty(),
    }
}

/// The type that an item names.
pub open spec fn item_type(item: RawItem) -> Option<Seq<char>> {
    text_field(item.value, "type"@)
}

/// What is sent on of an item of an input: the item that it parses to, unless that is about an
/// approval.
pub open spec fn input_source(item: RawItem) -> Seq<ItemView> {
    match item.parsed {
        Some(parsed) => if is_approval(parsed@) {
            Seq::empty()
        } else {
            seq![parsed@]
        },
        None => Seq::empty(),
    }
}

/// What is sent on of an item of an output: nothing of a list of tools or of a request for
/// approval; a call of an MCP tool as a call of a function; any other item as an item of an
/// input.
pub open spec fn output_source(item: RawItem) -> Seq<ItemView> {
    match item_type(item) {
        Some(t) => if t == "mcp_list_tools"@ || t == "mcp_approval_request"@ {
            Seq::empty()
        } else if t == "mcp_call"@ {
            mcp_call_items(item.value)
        } else {
            input_source(item)
        },
        None => input_source(item),
    }
}

/// What is sent on of the items of an input.
pub open spec fn input_array_sources(items: Seq<RawItem>) -> Seq<ItemView>
    decreases items.len(),
{
    if items.len() == 0 {
        Seq::empty()
    } else {
        input_array_sources(items.drop_last()) + input_source(items.last())
    }
}

/// What is sent on of the items of an output.
pub open spec fn output_array_sources(items: Seq<RawItem>) -> Seq<ItemView>
    decreases items.len(),
{
    if items.len() == 0 {
        Seq::empty()
    } else {
        output_array_sources(items.drop_last()) + output_source(items.last())
    }
}

/// What is sent on of an input: a text as a message of the user.
pub open spec fn input_sources(input: RawItems) -> Seq<ItemView> {
    match input {
        RawItems::Text(text) => seq![
            ItemView::Simple { role: "user"@, content: SimpleView::Text(text@) },
        ],
        RawItems::Array(items) => input_array_sources(items@),
        RawItems::Other => Seq::empty(),
    }
}

/// What is sent on of an output.
pub open spec fn output_sources(output: RawItems) -> Seq<ItemView> {
    output_array_sources(raw_array(output))
}

/// The labels of the servers whose tools an output lists.
pub open spec fn listed_labels(items: Seq<RawItem>) -> Seq<Seq<char>>
    decreases items.len(),
{
    if items.len() == 0 {
        Seq::empty()
    } else {
        let before = listed_labels(items.drop_last());
        let label = text_field(items.last().value, "server_label"@);
        if item_type(items.last()) == Some("mcp_list_tools"@) && label is Some {
            before.push(label->0)
        } else {
            before
        }
    }
}

/// The requests for approval in an output, as far as they parse.
pub open spec fn approval_requests(items: Seq<RawItem>) -> Seq<ItemView>
    decreases items.len(),
{
    if items.len() == 0 {
        Seq::empty()
    } else {
        let before = approval_requests(items.drop_last());
        if item_type(items.last()) == Some("mcp_approval_request"@) && items.last().parsed is Some {
            before.push(items.last().parsed->0@)
        } else {
            before
        }
    }
}

/// Whether the item names the type `name`.
fn is_of_type(item: &RawItem, name: &str) -> (r: bool)
    ensures
        r == (item_type(*item) == Some(name@)),
{
    match item.value.get_text("type") {
        Some(t) => same_text(t.as_str(), name),
        None => false,
    }
}

/// What is sent on of an item of an input, in its normal form.
pub fn upstream_input_items_from_value(item: &RawItem) -> (r: Vec<InputItem>)
    ensures
        are_normal_forms(items_view(r@), input_source(*item)),
{
    let mut items: Vec<InputItem> = Vec::new();
    if let Some(parsed) = &item.parsed {
        let form: InputItem = normalize_input_item(parsed);
        if !about_approval(&form) {
            items.push(form);
            assert(items_view(items@) =~= seq![form@]);
        }
    }
    items
}

/// What is sent on of an item of an output, in its normal form.
pub fn upstream_output_items_from_value(item: &RawItem) -> (r: Vec<InputItem>)
    ensures
        are_normal_forms(items_view(r@), output_source(*item)),
{
    if is_of_type(item, "mcp_list_tools") || is_of_type(item, "mcp_approval_request") {
        Vec::new()
    } else if is_of_type(item, "mcp_call") {
        mcp_call_output_to_upstream_items(&item.value)
    } else {
        upstream_input_items_from_value(item)
    }
}

/// What is sent on of an input, in its normal form.
pub fn deserialize_upstream_input_items(input: &RawItems) -> (r: Vec<InputItem>)
    ensures
        are_normal_forms(items_view(r@), input_sources(*input)),
{
    let mut result: Vec<InputItem> = Vec::new();
    match input {
        RawItems::Text(text) => {
            let message: InputItem = message_of_text(generate_id("msg"), text.as_str());
            result.push(message);
            assert(items_view(result@) =~= seq![message@]);
        },
        RawItems::Array(items) => {
            let mut i: usize = 0;
            let ghost all = items@;
            while i < items.len()
                invariant
                    all == items@,
                    i <= items@.len(),
                    are_normal_forms(items_view(result@), input_array_sources(all.take(i as int))),
                decreases items.len() - i,
            {
                let mut more: Vec<InputItem> = upstream_input_items_from_value(&items[i]);
                assert(all.take(i + 1).drop_last() =~= all.take(i as int));
                let ghost held = result@;
                let ghost fresh = more@;
                result.append(&mut more);
                assert(items_view(result@) =~= items_view(held) + items_view(fresh));
                proof {
                    lemma_forms_concat(
                        items_view(held),
                        input_array_sources(all.take(i as int)),
                        items_view(fresh),
                        input_source(all[i as int]),
                    );
                }
                i = i + 1;
            }
            assert(all.take(i as int) =~= all);
        },
        RawItems::Other => {},
    }
    result
}

/// What is sent on of an output, in its normal form.
pub fn deserialize_upstream_output_items_from_array(array: &RawItems) -> (r: Vec<InputItem>)
    ensures
        are_normal_forms(items_view(r@), output_sources(*array)),
{
    let mut result: Vec<InputItem> = Vec::new();
    if let RawItems::Array(items) = array {
        let mut i: usize = 0;
        let ghost all = items@;
        while i < items.len()
            invariant
                all == items@,
                i <= items@.len(),
                are_normal_forms(items_view(result@), output_array_sources(all.take(i as int))),
            decreases items.len() - i,
        {
            let mut more: Vec<InputItem> = upstream_output_items_from_value(&items[i]);
            assert(all.take(i + 1).drop_last() =~= all.take(i as int));
            let ghost held = result@;
            let ghost fresh = more@;
            result.append(&mut more);
            assert(items_view(result@) =~= items_view(held) + items_view(fresh));
            proof {
                lemma_forms_concat(
                    items_view(held),
                    output_array_sources(all.take(i as int)),
                    items_view(fresh),
                    output_source(all[i as int]),
                );
            }
            i = i + 1;
        }
        assert(all.take(i as int) =~= all);
    }
    result
}

/// The labels of the servers whose tools an output lists.
pub fn extract_mcp_list_tools_labels(array: &RawItems) -> (r: Vec<String>)
    ensures
        texts(r@) == listed_labels(raw_array(*array)),
{
    let mut labels: Vec<String> = Vec::new();
    assert(texts(labels@) =~= Seq::empty());
    if let RawItems::Array(items) = array {
        let mut i: usize = 0;
        let ghost all = items@;
        while i < items.len()
            invariant
                all == items@,
                i <= items@.len(),
                texts(labels@) == listed_labels(all.take(i as int)),
            decreases items.len() - i,
        {
            assert(all.take(i + 1).drop_last() =~= all.take(i as int));
            if is_of_type(&items[i], "mcp_list_tools") {
                if let Some(label) = items[i].value.get_text("server_label") {
                    let ghost held = labels@;
                    let ghost known = label@;
                    labels.push(label);
                    assert(texts(labels@) =~= texts(held).push(known));
                }
            }
            i = i + 1;
        }
        assert(all.take(i as int) =~= all);
    }
    labels
}

/// The requests for approval in an output, as far as they parse.
pub fn extract_mcp_approval_requests_from_array(array: &RawItems) -> (r: Vec<InputItem>)
    ensures
        items_view(r@) == approval_requests(raw_array(*array)),
{
    let mut requests: Vec<InputItem> = Vec::new();
    assert(items_view(requests@) =~= Seq::empty());
    if let RawItems::Array(items) = array {
        let mut i: usize = 0;
        let ghost all = items@;
        while i < items.len()
            invariant
                all == items@,
                i <= items@.len(),
                items_view(requests@) == approval_requests(all.take(i as int)),
            decreases items.len() - i,
        {
            assert(all.take(i + 1).drop_last() =~= all.take(i as int));
            if is_of_type(&items[i], "mcp_approval_request") {
                if let Some(parsed) = &items[i].parsed {
                    let request: InputItem = parsed.clone();
                    let ghost held = requests@;
                    requests.push(request);
                    assert(items_view(requests@) =~= items_view(held).push(request@));
                }
            }
            i = i + 1;
        }
        assert(all.take(i as int) =~= all);
    }
    requests
}

// ---------------------------------------------------------------------------
// Laws
// ---------------------------------------------------------------------------

/// A normal form has itself for its only normal form.
pub proof fn law_normal_form_stable(item: ItemView, form: ItemView, again: ItemView)
    requires
        is_normal_form(form, item),
        is_normal_form(again, form),
    ensures
        again == form,
{
}

/// The items that are sent on are those that are not about an approval: each of them is one of
/// the items, none is about an approval, and every item that is not about an approval is there.
pub proof fn law_sent_on(items: Seq<ItemView>)
    ensures
        forall|item: ItemView|
            #[trigger] sent_on(items).contains(item) <==> items.contains(item) && !is_approval(item),
        sent_on(items).len() <= items.len(),
        no_approvals(items) ==> sent_on(items) == items,
{
    let keep = |i: ItemView| !is_approval(i);
    assert(sent_on(items) == items.filter(keep));
    items.lemma_filter_len(keep);
    assert forall|item: ItemView|
        #[trigger] sent_on(items).contains(item) <==> items.contains(item) && !is_approval(item) by {
        if sent_on(items).contains(item) {
            let k = choose|k: int| 0 <= k < items.filter(keep).len() && items.filter(keep)[k] == item;
            items.lemma_filter_pred(keep, k);
            items.lemma_filter_contains_rev(keep, item);
        }
        if items.contains(item) && !is_approval(item) {
            let k = choose|k: int| 0 <= k < items.len() && items[k] == item;
            items.lemma_filter_contains(keep, k);
        }
    }
    if no_approvals(items) {
        lemma_all_sent_on(items);
    }
}

/// Where no item is about an approval, all are sent on.
proof fn lemma_all_sent_on(items: Seq<ItemView>)
    requires
        no_approvals(items),
    ensures
        sent_on(items) == items,
    decreases items.len(),
{
    reveal(Seq::filter);
    if items.len() > 0 {
        lemma_all_sent_on(items.drop_last());
        assert(!is_approval(items[items.len() - 1]));
        assert(items.drop_last().push(items.last()) =~= items);
    } else {
        assert(sent_on(items) =~= items);
    }
}

/// Items are sent on one by one, each where it stands: two rows as the one and then the other, an
/// item about an approval as nothing, and any other as itself.
pub proof fn law_sent_on_in_order(first: Seq<ItemView>, second: Seq<ItemView>, item: ItemView)
    ensures
        sent_on(first + second) == sent_on(first) + sent_on(second),
        item is ApprovalRequest || item is ApprovalResponse ==> sent_on(seq![item]).len() == 0,
        !(item is ApprovalRequest) && !(item is ApprovalResponse) ==> sent_on(seq![item]) == seq![item],
    decreases second.len(),
{
    reveal(Seq::filter);
    let one = seq![item];
    assert(one.drop_last() =~= Seq::empty());
    assert(sent_on(one.drop_last()) =~= Seq::empty());
    assert(one.drop_last().push(item) =~= one);
    if second.len() == 0 {
        assert(first + second =~= first);
        assert(sent_on(second) =~= Seq::empty());
        assert(sent_on(first) + Seq::<ItemView>::empty() =~= sent_on(first));
    } else {
        law_sent_on_in_order(first, second.drop_last(), item);
        assert((first + second).drop_last() =~= first + second.drop_last());
        assert(sent_on(first + second) =~= sent_on(first) + sent_on(second));
    }
}

/// What goes before the input of a request stays as it is, and stays before it.
pub proof fn law_history_kept(
    before: Seq<ItemView>,
    input: InputView,
    suffix: Seq<char>,
    after: Seq<ItemView>,
)
    requires
        input_appended(before, input, suffix, after),
    ensures
        before.is_prefix_of(after),
        after.len() == before.len() + (match input {
            InputView::Text(_) => 1,
            InputView::Items(items) => items.len(),
        }),
{
    match input {
        InputView::Text(text) => {
            assert(before =~= after.take(before.len() as int));
        },
        InputView::Items(items) => {},
    }
}

/// A call of an MCP tool gives nothing, or a call and its output under one identifier, both
/// completed, and neither about an approval.
pub proof fn law_mcp_call_pair(item: JsonValue)
    ensures
        mcp_call_items(item).len() == 0 || {
            &&& mcp_call_items(item).len() == 2
            &&& mcp_call_items(item)[0] matches ItemView::Call { call_id, status, .. } && call_id
                == call_id_of(item) && status == Some("completed"@)
            &&& mcp_call_items(item)[1] matches ItemView::CallOutput { call_id, status, .. } && call_id
                == call_id_of(item) && status == Some("completed"@)
        },
        no_approvals(mcp_call_items(item)),
{
}

/// A call and the request for its approval, which share what stands behind their prefixes, lead
/// to the same call identifier.
pub proof fn law_approval_names_call(rest: Seq<char>)
    ensures
        approved_call_id("mcpr_"@ + rest) == "call_"@ + rest,
        prefixed_id("mcp_"@ + rest, "call_"@) == "call_"@ + rest,
        prefixed_id("mcpr_"@ + rest, "call_"@) == "call_"@ + rest,
{
    reveal_strlit("mcp_");
    reveal_strlit("mcpr_");
    let a = "mcpr_"@ + rest;
    let b = "mcp_"@ + rest;
    assert("mcpr_"@.is_prefix_of(a));
    assert(a.skip(5) =~= rest);
    assert("mcp_"@.is_prefix_of(b));
    assert(b.skip(4) =~= rest);
    assert(!"mcp_"@.is_prefix_of(a)) by {
        assert(a[3] == 'r');
        assert("mcp_"@[3] == '_');
    }
}

/// Items without approvals behind items without approvals.
pub proof fn lemma_no_approvals_concat(first: Seq<ItemView>, second: Seq<ItemView>)
    requires
        no_approvals(first),
        no_approvals(second),
    ensures
        no_approvals(first + second),
{
    assert forall|i: int| 0 <= i < (first + second).len() implies !is_approval(
        #[trigger] (first + second)[i],
    ) by {
        if i < first.len() {
            assert(!is_approval(first[i]));
        } else {
            assert(!is_approval(second[i - first.len()]));
        }
    }
}

/// Nothing about an approval is sent on of an input.
proof fn lemma_input_no_approval(items: Seq<RawItem>)
    ensures
        no_approvals(input_array_sources(items)),
    decreases items.len(),
{
    if items.len() > 0 {
        lemma_input_no_approval(items.drop_last());
        lemma_no_approvals_concat(input_array_sources(items.drop_last()), input_source(items.last()));
    }
}

/// Nothing about an approval is sent on of an output.
proof fn lemma_output_no_approval(items: Seq<RawItem>)
    ensures
        no_approvals(output_array_sources(items)),
    decreases items.len(),
{
    if items.len() > 0 {
        lemma_output_no_approval(items.drop_last());
        law_mcp_call_pair(items.last().value);
        assert(no_approvals(input_source(items.last())));
        lemma_no_approvals_concat(output_array_sources(items.drop_last()), output_source(items.last()));
    }
}

/// Nothing about an approval is sent on of a stored response.
pub proof fn law_no_approval_sent_on(input: RawItems, output: RawItems)
    ensures
        no_approvals(input_sources(input)),
        no_approvals(output_sources(output)),
{
    lemma_input_no_approval(raw_array(input));
    lemma_output_no_approval(raw_array(output));
}

/// What is sent on of two rows of stored items is what is sent on of the first, and then what is
/// sent on of the second.
pub proof fn law_items_in_order(first: Seq<RawItem>, second: Seq<RawItem>)
    ensures
        input_array_sources(first + second) == input_array_sources(first) + input_array_sources(second),
        output_array_sources(first + second) == output_array_sources(first) + output_array_sources(
            second,
        ),
        listed_labels(first + second) == listed_labels(first) + listed_labels(second),
        approval_requests(first + second) == approval_requests(first) + approval_requests(second),
    decreases second.len(),
{
    if second.len() == 0 {
        assert(first + second =~= first);
        assert(input_array_sources(second) =~= Seq::empty());
    } else {
        law_items_in_order(first, second.drop_last());
        assert((first + second).drop_last() =~= first + second.drop_last());
        assert((first + second).last() == second.last());
        assert(listed_labels(first + second) =~= listed_labels(first) + listed_labels(second));
        assert(approval_requests(first + second) =~= approval_requests(first) + approval_requests(
            second,
        ));
    }
}

/// One item in a row of stored items.
proof fn lemma_item_between(before: Seq<RawItem>, item: RawItem, after: Seq<RawItem>)
    ensures
        input_array_sources(before + seq![item] + after) == input_array_sources(before) + input_source(
            item,
        ) + input_array_sources(after),
        output_array_sources(before + seq![item] + after) == output_array_sources(before)
            + output_source(item) + output_array_sources(after),
        listed_labels(before + seq![item] + after) == listed_labels(before) + listed_labels(seq![item])
            + listed_labels(after),
        approval_requests(before + seq![item] + after) == approval_requests(before)
            + approval_requests(seq![item]) + approval_requests(after),
{
    law_items_in_order(before + seq![item], after);
    law_items_in_order(before, seq![item]);
    let one = seq![item];
    assert(one.drop_last() =~= Seq::empty());
    assert(input_array_sources(one) =~= input_source(item)) by {
        assert(input_array_sources(one.drop_last()) =~= Seq::empty());
    }
    assert(output_array_sources(one) =~= output_source(item)) by {
        assert(output_array_sources(one.drop_last()) =~= Seq::empty());
    }
}

/// Every item of a stored output that parses, that is not about an approval, and whose type is
/// neither that of a list of tools, nor of a request for approval, nor of a call of an MCP tool,
/// is sent on as it parses, where it stands: a message of the assistant as any other.
pub proof fn law_output_item_sent_on(
    before: Seq<RawItem>,
    item: RawItem,
    parsed: InputItem,
    after: Seq<RawItem>,
)
    requires
        item.parsed == Some(parsed),
        !(parsed is McpApprovalRequest) && !(parsed is McpApprovalResponse),
        text_field(item.value, "type"@) != Some("mcp_list_tools"@),
        text_field(item.value, "type"@) != Some("mcp_approval_request"@),
        text_field(item.value, "type"@) != Some("mcp_call"@),
    ensures
        output_array_sources(before + seq![item] + after) == output_array_sources(before) + seq![parsed@]
            + output_array_sources(after),
{
    lemma_item_between(before, item, after);
}

/// Nothing is sent on of a list of tools or of a request for approval, whatever it parses to; nor
/// of an item that does not parse, unless it is a call of an MCP tool.
pub proof fn law_output_item_left_out(before: Seq<RawItem>, item: RawItem, after: Seq<RawItem>)
    requires
        text_field(item.value, "type"@) == Some("mcp_list_tools"@) || text_field(item.value, "type"@)
            == Some("mcp_approval_request"@) || (text_field(item.value, "type"@) != Some("mcp_call"@)
            && item.parsed is None),
    ensures
        output_array_sources(before + seq![item] + after) == output_array_sources(before + after),
{
    lemma_item_between(before, item, after);
    law_items_in_order(before, after);
    reveal_strlit("mcp_list_tools");
    reveal_strlit("mcp_approval_request");
    reveal_strlit("mcp_call");
    assert("mcp_list_tools"@.len() == 14 && "mcp_approval_request"@.len() == 20 && "mcp_call"@.len() == 8);
    assert(output_source(item) =~= Seq::empty());
    assert(output_array_sources(before) + Seq::empty() =~= output_array_sources(before));
}

/// Every item of a stored input that parses and that is not about an approval is sent on as it
/// parses, where it stands, whatever its type; of any other nothing is.
pub proof fn law_input_item_sent_on(before: Seq<RawItem>, item: RawItem, after: Seq<RawItem>)
    ensures
        item.parsed matches Some(parsed) && !(parsed is McpApprovalRequest) && !(
        parsed is McpApprovalResponse) ==> input_array_sources(before + seq![item] + after)
            == input_array_sources(before) + seq![item.parsed->0@] + input_array_sources(after),
        item.parsed is None || item.parsed->0 is McpApprovalRequest
            || item.parsed->0 is McpApprovalResponse ==> input_array_sources(
            before + seq![item] + after,
        ) == input_array_sources(before + after),
{
    lemma_item_between(before, item, after);
    law_items_in_order(before, after);
    assert(input_array_sources(before) + Seq::empty() =~= input_array_sources(before));
}

/// A call of an MCP tool with an identifier, a name and arguments is sent on, where it stands, as
/// a call of a function with that name and those arguments, and with its output behind it, both
/// under the identifier of the call; whether it parses does not matter.
pub proof fn law_mcp_call_sent_on(
    before: Seq<RawItem>,
    item: RawItem,
    after: Seq<RawItem>,
    rest: Seq<char>,
    name: Seq<char>,
    arguments: Seq<char>,
)
    requires
        text_field(item.value, "type"@) == Some("mcp_call"@),
        text_field(item.value, "id"@) == Some("mcp_"@ + rest),
        text_field(item.value, "name"@) == Some(name),
        text_field(item.value, "arguments"@) == Some(arguments),
    ensures
        ({
            let sent = output_array_sources(before + seq![item] + after);
            let at = output_array_sources(before).len() as int;
            let call = "call_"@ + rest;
            &&& sent.len() == at + 2 + output_array_sources(after).len()
            &&& sent.take(at) == output_array_sources(before)
            &&& sent.skip(at + 2) == output_array_sources(after)
            &&& sent[at] matches ItemView::Call { id, call_id, name: n, arguments: a, output, status } && {
                &&& id == "fc_"@ + rest
                &&& n == name
                &&& a == arguments
                &&& output is None
                &&& status == Some("completed"@)
                &&& text_field(item.value, "approval_request_id"@) is None ==> call_id == call
            }
            &&& sent[at + 1] matches ItemView::CallOutput { id, call_id, output, status } && {
                &&& id is None
                &&& status == Some("completed"@)
                &&& call_id == sent[at]->Call_call_id
                &&& text_field(item.value, "output"@) is Some ==> output == text_field(
                    item.value,
                    "output"@,
                )->0
                &&& field(item.value, "output"@) is None ==> output == "null"@
                &&& field(item.value, "output"@) is Some && text_field(item.value, "output"@) is None
                    ==> output == compact(field(item.value, "output"@)->0)
            }
        }),
        forall|r: Seq<char>|
            #![trigger "mcpr_"@ + r]
            text_field(item.value, "approval_request_id"@) == Some("mcpr_"@ + r) ==> output_array_sources(
                before + seq![item] + after,
            )[output_array_sources(before).len() as int]->Call_call_id == "call_"@ + r,
{
    lemma_item_between(before, item, after);
    reveal_strlit("mcp_list_tools");
    reveal_strlit("mcp_approval_request");
    reveal_strlit("mcp_call");
    assert("mcp_list_tools"@.len() == 14 && "mcp_approval_request"@.len() == 20 && "mcp_call"@.len() == 8);
    let sent = output_array_sources(before + seq![item] + after);
    let at = output_array_sources(before).len() as int;
    let pair = mcp_call_items(item.value);
    assert(output_source(item) == pair);
    assert(pair.len() == 2);
    assert(sent.take(at) =~= output_array_sources(before));
    assert(sent.skip(at + 2) =~= output_array_sources(after));
    assert(sent[at] == pair[0] && sent[at + 1] == pair[1]);
    law_identifiers_renamed(rest, "fc_"@);
    law_identifiers_renamed(rest, "call_"@);
    assert forall|r: Seq<char>|
        #![trigger "mcpr_"@ + r]
        text_field(item.value, "approval_request_id"@) == Some("mcpr_"@ + r) implies pair[0]->Call_call_id
        == "call_"@ + r by {
        law_approval_names_call(r);
    }
}

/// A call of an MCP tool without an identifier, a name or arguments is left out.
pub proof fn law_mcp_call_incomplete(before: Seq<RawItem>, item: RawItem, after: Seq<RawItem>)
    requires
        text_field(item.value, "type"@) == Some("mcp_call"@),
        text_field(item.value, "id"@) is None || text_field(item.value, "name"@) is None || text_field(
            item.value,
            "arguments"@,
        ) is None,
    ensures
        output_array_sources(before + seq![item] + after) == output_array_sources(before + after),
{
    lemma_item_between(before, item, after);
    law_items_in_order(before, after);
    reveal_strlit("mcp_list_tools");
    reveal_strlit("mcp_approval_request");
    reveal_strlit("mcp_call");
    assert("mcp_list_tools"@.len() == 14 && "mcp_approval_request"@.len() == 20 && "mcp_call"@.len() == 8);
    assert(output_source(item) =~= Seq::empty());
    assert(output_array_sources(before) + Seq::empty() =~= output_array_sources(before));
}

/// The prefix of an identifier is replaced by the one that is asked for, and what stands behind
/// it is kept; an identifier without one of these prefixes is kept whole behind it. So different
/// items with one prefix have different identifiers.
pub proof fn law_identifiers_renamed(rest: Seq<char>, prefix: Seq<char>)
    ensures
        prefixed_id("mcp_"@ + rest, prefix) == prefix + rest,
        prefixed_id("mcpr_"@ + rest, prefix) == prefix + rest,
        !"mcp_"@.is_prefix_of(rest) && !"mcpr_"@.is_prefix_of(rest) ==> prefixed_id(rest, prefix)
            == prefix + rest && approved_call_id(rest) == "call_"@ + rest,
        approved_call_id("mcp_"@ + rest) == "call_"@ + rest,
{
    law_approval_names_call(rest);
    reveal_strlit("mcp_");
    reveal_strlit("mcpr_");
    let a = "mcpr_"@ + rest;
    let b = "mcp_"@ + rest;
    assert(a.skip(5) =~= rest);
    assert(b.skip(4) =~= rest);
    assert("mcpr_"@.is_prefix_of(a));
    assert("mcp_"@.is_prefix_of(b));
    assert(!"mcp_"@.is_prefix_of(a)) by {
        assert(a[3] == 'r');
        assert("mcp_"@[3] == '_');
    }
    assert(!"mcpr_"@.is_prefix_of(b)) by {
        assert(b[3] == '_');
        assert("mcpr_"@[3] == 'r');
    }
}

/// A stored input that is a text is sent on as one message of the user with that text; one that
/// is an array item by item; any other gives nothing. An output that is no array gives nothing.
pub proof fn law_stored_text(text: String, form: ItemView)
    requires
        input_sources(RawItems::Text(text)).len() == 1 ==> is_normal_form(
            form,
            input_sources(RawItems::Text(text))[0],
        ),
    ensures
        input_sources(RawItems::Text(text)).len() == 1,
        form matches ItemView::Message { id, role, content, status } && {
            &&& is_generated_id("msg"@, id)
            &&& role == "user"@
            &&& content == seq![PartView::InputText(text@)]
            &&& status == Some("completed"@)
        },
        output_sources(RawItems::Text(text)).len() == 0,
        input_sources(RawItems::Other).len() == 0,
        output_sources(RawItems::Other).len() == 0,
{
}

/// A label is taken of each list of tools that names its server, and of no other item; a request
/// for approval is taken of each item of that type that parses, and of no other.
pub proof fn law_labels_and_requests(before: Seq<RawItem>, item: RawItem, after: Seq<RawItem>)
    ensures
        text_field(item.value, "type"@) == Some("mcp_list_tools"@) && text_field(
            item.value,
            "server_label"@,
        ) is Some ==> listed_labels(before + seq![item] + after) == listed_labels(before) + seq![
            text_field(item.value, "server_label"@)->0,
        ] + listed_labels(after),
        text_field(item.value, "type"@) != Some("mcp_list_tools"@) || text_field(
            item.value,
            "server_label"@,
        ) is None ==> listed_labels(before + seq![item] + after) == listed_labels(before + after),
        text_field(item.value, "type"@) == Some("mcp_approval_request"@) && item.parsed is Some
            ==> approval_requests(before + seq![item] + after) == approval_requests(before) + seq![
            item.parsed->0@,
        ] + approval_requests(after),
        text_field(item.value, "type"@) != Some("mcp_approval_request"@) || item.parsed is None
            ==> approval_requests(before + seq![item] + after) == approval_requests(before + after),
{
    lemma_item_between(before, item, after);
    law_items_in_order(before, after);
    let one = seq![item];
    assert(one.drop_last() =~= Seq::empty());
    assert(listed_labels(one.drop_last()) =~= Seq::empty());
    assert(approval_requests(one.drop_last()) =~= Seq::empty());
    assert(listed_labels(before) + Seq::empty() =~= listed_labels(before));
    assert(approval_requests(before) + Seq::empty() =~= approval_requests(before));
    if text_field(item.value, "type"@) == Some("mcp_list_tools"@) && text_field(
        item.value,
        "server_label"@,
    ) is Some {
        assert(listed_labels(one) =~= seq![text_field(item.value, "server_label"@)->0]);
    }
    if text_field(item.value, "type"@) == Some("mcp_approval_request"@) && item.parsed is Some {
        assert(approval_requests(one) =~= seq![item.parsed->0@]);
    }
}

/// A message in its short form becomes a completed message with its role and its content, under a
/// new identifier: a text is one part, and parts are kept. Every other item is kept as it is.
pub proof fn law_normal_form(form: ItemView, item: ItemView)
    requires
        is_normal_form(form, item),
    ensures
        item matches ItemView::Simple { role, content } ==> {
            &&& form matches ItemView::Message { id, role: r, content: c, status } && {
                &&& is_generated_id("msg"@, id)
                &&& r == role
                &&& status == Some("completed"@)
                &&& content matches SimpleView::Text(text) ==> c == seq![PartView::InputText(text)]
                &&& content matches SimpleView::Parts(parts) ==> c == parts
            }
        },
        !(item is Simple) ==> form == item,
{
}

/// A new identifier is the prefix, an underscore and two lower-case hexadecimal digits for each of
/// its bytes; different bytes make different identifiers.
pub proof fn law_generated_id(prefix: Seq<char>, bytes: Seq<u8>, other: Seq<u8>)
    ensures
        id_of_bytes(prefix, bytes).len() == prefix.len() + 1 + 2 * bytes.len(),
        prefix.is_prefix_of(id_of_bytes(prefix, bytes)),
        id_of_bytes(prefix, bytes)[prefix.len() as int] == '_',
        forall|i: int|
            prefix.len() < i < id_of_bytes(prefix, bytes).len() ==> {
                let c = #[trigger] id_of_bytes(prefix, bytes)[i];
                '0' <= c <= '9' || 'a' <= c <= 'f'
            },
        bytes.len() == other.len() && id_of_bytes(prefix, bytes) == id_of_bytes(prefix, other) ==> bytes
            == other,
        is_generated_id(prefix, id_of_bytes(prefix, bytes)) <== bytes.len() == 25,
        forall|id: Seq<char>| is_generated_id(prefix, id) ==> id.len() == prefix.len() + 51,
{
    reveal_strlit("_");
    lemma_hex_text(bytes);
    let id = id_of_bytes(prefix, bytes);
    assert(id.take(prefix.len() as int) =~= prefix);
    assert(id =~= prefix + ("_"@ + hex_text(bytes)));
    assert forall|i: int| prefix.len() < i < id.len() implies {
        let c = #[trigger] id[i];
        '0' <= c <= '9' || 'a' <= c <= 'f'
    } by {
        assert(id[i] == hex_text(bytes)[i - prefix.len() - 1]);
    }
    if bytes.len() == other.len() && id == id_of_bytes(prefix, other) {
        let n = prefix.len() + 1;
        assert(id.skip(n as int) =~= hex_text(bytes));
        assert(id_of_bytes(prefix, other).skip(n as int) =~= hex_text(other));
        lemma_hex_apart(bytes, other);
    }
    assert forall|id: Seq<char>| is_generated_id(prefix, id) implies id.len() == prefix.len() + 51 by {
        let b = choose|b: Seq<u8>| b.len() == ID_BYTES && id == #[trigger] id_of_bytes(prefix, b);
        lemma_hex_text(b);
    }
}

/// Each byte gives two hexadecimal digits.
proof fn lemma_hex_text(bytes: Seq<u8>)
    ensures
        hex_text(bytes).len() == 2 * bytes.len(),
        forall|i: int|
            0 <= i < hex_text(bytes).len() ==> {
                let c = #[trigger] hex_text(bytes)[i];
                '0' <= c <= '9' || 'a' <= c <= 'f'
            },
    decreases bytes.len(),
{
    if bytes.len() > 0 {
        lemma_hex_text(bytes.drop_last());
    }
}

/// The digits of different bytes differ.
proof fn lemma_hex_apart(bytes: Seq<u8>, other: Seq<u8>)
    requires
        bytes.len() == other.len(),
        hex_text(bytes) == hex_text(other),
    ensures
        bytes == other,
    decreases bytes.len(),
{
    if bytes.len() > 0 {
        let a = hex_text(bytes);
        let b = hex_text(other);
        let n = a.len();
        assert(a[n - 1] == hex_digit(bytes.last() as int % 16));
        assert(a[n - 2] == hex_digit(bytes.last() as int / 16));
        assert(b[n - 1] == hex_digit(other.last() as int % 16));
        assert(b[n - 2] == hex_digit(other.last() as int / 16));
        assert(a.take(n - 2) =~= hex_text(bytes.drop_last()));
        assert(b.take(n - 2) =~= hex_text(other.drop_last()));
        lemma_hex_apart(bytes.drop_last(), other.drop_last());
        assert(bytes =~= bytes.drop_last().push(bytes.last()));
        assert(other =~= other.drop_last().push(other.last()));
    } else {
        assert(bytes =~= other);
    }
}

/// The input of a request that is a text stands behind the history as one completed message of
/// the user with that text, under an identifier that ends in the suffix; items stand there one by
/// one: each as it is, or a message in its short form as a completed one.
pub proof fn law_input_behind_history(
    before: Seq<ItemView>,
    input: InputView,
    suffix: Seq<char>,
    after: Seq<ItemView>,
)
    requires
        input_appended(before, input, suffix, after),
    ensures
        forall|i: int| 0 <= i < before.len() ==> after[i] == before[i],
        input matches InputView::Text(text) ==> {
            &&& after.len() == before.len() + 1
            &&& after.last() matches ItemView::Message { id, role, content, status } && {
                &&& id == "msg_u_"@ + suffix
                &&& role == "user"@
                &&& content == seq![PartView::InputText(text)]
                &&& status == Some("completed"@)
            }
        },
        input matches InputView::Items(items) ==> {
            &&& after.len() == before.len() + items.len()
            &&& forall|i: int|
                0 <= i < items.len() ==> is_normal_form(#[trigger] after[before.len() + i], items[i])
            &&& forall|i: int|
                0 <= i < items.len() && !(items[i] is Simple) ==> #[trigger] after[before.len() + i]
                    == items[i]
        },
{
    match input {
        InputView::Text(text) => {},
        InputView::Items(items) => {
            let tail = after.skip(before.len() as int);
            assert forall|i: int| 0 <= i < before.len() implies after[i] == before[i] by {
                assert(after.take(before.len() as int)[i] == after[i]);
            }
            assert forall|i: int| 0 <= i < items.len() implies is_normal_form(
                #[trigger] after[before.len() + i],
                items[i],
            ) by {
                assert(tail[i] == after[before.len() + i]);
                assert(is_normal_form(tail[i], items[i]));
            }
        },
    }
}

} // verus!
