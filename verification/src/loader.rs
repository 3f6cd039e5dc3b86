//! Loading the history of a request.
//!
//! The storage is asked in turn for the chain of earlier responses, for the conversation and for
//! its items, as far as the request names them. [`InputHistoryLoader`] says what to ask for, and
//! takes the answers.

use vstd::prelude::*;
use vstd::string::*;

use crate::history::{
    append_current_input, copy_parts, copy_text, deserialize_upstream_input_items,
    deserialize_upstream_output_items_from_array, extract_mcp_approval_requests_from_array,
    extract_mcp_list_tools_labels, ContentPart, InputItem, RawItems, ResponseInput,
};
#[allow(unused_imports)]
use crate::history::{
    approval_requests, are_normal_forms, input_appended, input_array_sources, input_sources, items_view,
    law_history_kept, law_input_behind_history, law_input_item_sent_on, law_no_approval_sent_on,
    law_output_item_sent_on, lemma_forms_concat, lemma_no_approvals_concat, listed_labels, no_approvals,
    output_array_sources, output_sources, parts_view, raw_array, text_message, InputView, ItemView,
    PartView, RawItem,
};
#[allow(unused_imports)]
use crate::json::text_field;
use crate::text::{concat2, concat3, same_text};
#[allow(unused_imports)]
use crate::text::{contains, occurs_at, optional_text, texts};

verus! {

/// How many items of a conversation are loaded, from the first on.
pub const MAX_CONVERSATION_HISTORY_ITEMS: usize = 100;

// ---------------------------------------------------------------------------
// What the storage holds
// ---------------------------------------------------------------------------

/// A response of a chain, as it is stored.
#[derive(Debug)]
pub struct StoredResponse {
    pub input: RawItems,
    pub output: RawItems,
}

/// An item of a conversation, as it is stored: its content as the parts of a message and as an
/// item of its own, as far as it parses.
#[derive(Debug)]
pub struct StoredItem {
    pub item_type: String,
    pub id: String,
    pub role: Option<String>,
    pub status: Option<String>,
    pub parts: Option<Vec<ContentPart>>,
    pub item: Option<InputItem>,
}

/// What is sent on of the responses of a chain: of each its input, and then its output.
pub open spec fn chain_sources(responses: Seq<StoredResponse>) -> Seq<ItemView>
    decreases responses.len(),
{
    if responses.len() == 0 {
        Seq::empty()
    } else {
        chain_sources(responses.drop_last()) + (input_sources(responses.last().input) + output_sources(
            responses.last().output,
        ))
    }
}

/// The requests for approval in the responses of a chain.
pub open spec fn chain_requests(responses: Seq<StoredResponse>) -> Seq<ItemView>
    decreases responses.len(),
{
    if responses.len() == 0 {
        Seq::empty()
    } else {
        chain_requests(responses.drop_last()) + approval_requests(raw_array(responses.last().output))
    }
}

/// The labels of the servers whose tools the responses of a chain list.
pub open spec fn chain_labels(responses: Seq<StoredResponse>) -> Seq<Seq<char>>
    decreases responses.len(),
{
    if responses.len() == 0 {
        Seq::empty()
    } else {
        chain_labels(responses.drop_last()) + listed_labels(raw_array(responses.last().output))
    }
}

/// The item of a conversation that is sent on: a message whose content parses, by the user where
/// no role is stored; a call of a function or its output, where it parses; no other.
pub open spec fn stored_source(item: StoredItem) -> Option<ItemView> {
    if item.item_type@ == "message"@ {
        match item.parts {
            Some(parts) => Some(
                ItemView::Message {
                    id: item.id@,
                    role: match item.role {
                        Some(role) => role@,
                        None => "user"@,
                    },
                    content: parts_view(parts@),
                    status: optional_text(item.status),
                },
            ),
            None => None,
        }
    } else if item.item_type@ == "function_call"@ || item.item_type@ == "function_call_output"@ {
        match item.item {
            Some(parsed) => Some(parsed@),
            None => None,
        }
    } else {
        None
    }
}

/// The items of a conversation that are sent on.
pub open spec fn stored_sources(items: Seq<StoredItem>) -> Seq<ItemView>
    decreases items.len(),
{
    if items.len() == 0 {
        Seq::empty()
    } else {
        match stored_source(items.last()) {
            Some(source) => stored_sources(items.drop_last()).push(source),
            None => stored_sources(items.drop_last()),
        }
    }
}

// ---------------------------------------------------------------------------
// What is asked for, and what is answered
// ---------------------------------------------------------------------------

/// Why a history cannot be loaded: the HTTP status, the code and the message of the reply.
#[derive(Debug, PartialEq, Eq)]
pub struct HistoryError {
    pub status: u16,
    pub code: String,
    pub message: String,
}

/// What a [`HistoryError`] holds.
pub struct ErrorView {
    pub status: int,
    pub code: Seq<char>,
    pub message: Seq<char>,
}

impl View for HistoryError {
    type V = ErrorView;

    open spec fn view(&self) -> ErrorView {
        ErrorView { status: self.status as int, code: self.code@, message: self.message@ }
    }
}

/// There is no response of that identifier.
pub open spec fn response_not_found(id: Seq<char>) -> ErrorView {
    ErrorView {
        status: 400,
        code: "previous_response_not_found"@,
        message: "Previous response with id '"@ + id + "' not found."@,
    }
}

/// The chain of that response could not be loaded.
pub open spec fn chain_failed(id: Seq<char>, cause: Seq<char>) -> ErrorView {
    ErrorView {
        status: 500,
        code: "load_previous_response_chain_failed"@,
        message: "Failed to load previous response chain for "@ + id + ": "@ + cause,
    }
}

/// There is no conversation of that identifier.
pub open spec fn conversation_not_found(id: Seq<char>) -> ErrorView {
    ErrorView {
        status: 404,
        code: "not_found"@,
        message: "No conversation found with id '"@ + id + "'"@,
    }
}

/// What is to be done next.
#[derive(Debug, PartialEq, Eq)]
pub enum HistoryAction {
    /// Load the chain of responses up to this one.
    LoadChain { response_id: String },
    /// Look for this conversation.
    GetConversation { conversation_id: String },
    /// List the first items of this conversation, in the order in which they came.
    ListItems { conversation_id: String, limit: usize },
    /// All is loaded.
    Finish,
    /// Reply with an error.
    Fail(HistoryError),
}

/// What a [`HistoryAction`] holds.
pub enum ActionView {
    LoadChain(Seq<char>),
    GetConversation(Seq<char>),
    ListItems(Seq<char>, nat),
    Finish,
    Fail(ErrorView),
}

impl View for HistoryAction {
    type V = ActionView;

    open spec fn view(&self) -> ActionView {
        match self {
            HistoryAction::LoadChain { response_id } => ActionView::LoadChain(response_id@),
            HistoryAction::GetConversation { conversation_id } => ActionView::GetConversation(
                conversation_id@,
            ),
            HistoryAction::ListItems { conversation_id, limit } => ActionView::ListItems(
                conversation_id@,
                *limit as nat,
            ),
            HistoryAction::Finish => ActionView::Finish,
            HistoryAction::Fail(error) => ActionView::Fail(error@),
        }
    }
}

/// The answer of the storage of responses.
#[derive(Debug)]
pub enum ChainReply {
    Found(Vec<StoredResponse>),
    NotFound,
    Failed(String),
}

/// The answer of the storage of conversations.
#[derive(Debug, Clone, Copy, PartialEq, Eq, Structural)]
pub enum ConversationReply {
    Found,
    NotFound,
    Failed,
}

/// What was loaded beside the input.
#[derive(Debug)]
pub struct LoadedInputHistory {
    pub previous_response_id: Option<String>,
    pub existing_mcp_list_tools_labels: Vec<String>,
    pub prior_mcp_approval_requests: Vec<InputItem>,
}

// ---------------------------------------------------------------------------
// The loader
// ---------------------------------------------------------------------------

/// A history that is being loaded.
#[derive(Debug)]
pub struct InputHistoryLoader {
    pub(crate) previous_response_id: Option<String>,
    pub(crate) conversation: Option<String>,
    pub(crate) input: ResponseInput,
    pub(crate) labels: Vec<String>,
    pub(crate) requests: Vec<InputItem>,
    pub(crate) chain_items: Option<Vec<InputItem>>,
}

/// What an [`InputHistoryLoader`] holds.
pub struct LoaderView {
    pub previous_response_id: Option<Seq<char>>,
    pub conversation: Option<Seq<char>>,
    pub input: InputView,
    pub labels: Seq<Seq<char>>,
    pub requests: Seq<ItemView>,
    pub chain_items: Option<Seq<ItemView>>,
}

impl View for InputHistoryLoader {
    type V = LoaderView;

    closed spec fn view(&self) -> LoaderView {
        LoaderView {
            previous_response_id: optional_text(self.previous_response_id),
            conversation: optional_text(self.conversation),
            input: self.input@,
            labels: texts(self.labels@),
            requests: items_view(self.requests@),
            chain_items: match self.chain_items {
                Some(items) => Some(items_view(items@)),
                None => None,
            },
        }
    }
}

/// The loader before anything was asked for. An empty identifier names no response.
pub open spec fn started(
    previous_response_id: Option<Seq<char>>,
    conversation: Option<Seq<char>>,
    input: InputView,
) -> LoaderView {
    LoaderView {
        previous_response_id: match previous_response_id {
            Some(id) => if id.len() > 0 {
                Some(id)
            } else {
                None
            },
            None => None,
        },
        conversation,
        input,
        labels: Seq::empty(),
        requests: Seq::empty(),
        chain_items: None,
    }
}

/// What is to be done when the chain of responses is dealt with.
pub open spec fn after_chain(loader: LoaderView) -> ActionView {
    match loader.conversation {
        Some(id) => ActionView::GetConversation(id),
        None => ActionView::Finish,
    }
}

/// What is to be done first.
pub open spec fn first_action(loader: LoaderView) -> ActionView {
    match loader.previous_response_id {
        Some(id) => ActionView::LoadChain(id),
        None => after_chain(loader),
    }
}

/// `after` is `before` with the chain of responses taken in: what is sent on of it, in its
/// normal form; its requests for approval; and the labels in it, none twice.
pub open spec fn chain_taken(
    before: LoaderView,
    responses: Seq<StoredResponse>,
    after: LoaderView,
) -> bool {
    &&& after.chain_items matches Some(items) && are_normal_forms(items, chain_sources(responses))
    &&& after.requests == chain_requests(responses)
    &&& after.labels.no_duplicates()
    &&& after.labels.to_set() == chain_labels(responses).to_set()
    &&& after.previous_response_id == before.previous_response_id
    &&& after.conversation == before.conversation
    &&& after.input == before.input
}

/// The end of the identifier of a message that the text of the request makes.
pub open spec fn id_suffix(loader: LoaderView) -> Seq<char> {
    match loader.previous_response_id {
        Some(id) => id,
        None => "new"@,
    }
}

/// Adds a label where it is not there.
fn add_label(labels: &mut Vec<String>, label: String)
    requires
        texts(old(labels)@).no_duplicates(),
    ensures
        texts(final(labels)@).no_duplicates(),
        texts(final(labels)@).to_set() == texts(old(labels)@).to_set().insert(label@),
{
    let ghost before = labels@;
    let mut i: usize = 0;
    while i < labels.len()
        invariant
            labels@ == before,
            texts(before).no_duplicates(),
            i <= labels@.len(),
            forall|j: int| 0 <= j < i ==> texts(before)[j] != label@,
        decreases labels.len() - i,
    {
        assert(texts(before)[i as int] == before[i as int]@);
        if same_text(labels[i].as_str(), label.as_str()) {
            assert(texts(before).contains(label@));
            assert(texts(before).to_set().insert(label@) =~= texts(before).to_set());
            return;
        }
        i = i + 1;
    }
    let ghost added = label@;
    labels.push(label);
    assert(texts(labels@) =~= texts(before).push(added));
    assert(texts(labels@).to_set() =~= texts(before).to_set().insert(added)) by {
        let all = texts(before).push(added);
        assert(all[all.len() - 1] == added);
        assert forall|x: Seq<char>| texts(before).contains(x) implies all.contains(x) by {
            let j = choose|j: int| 0 <= j < texts(before).len() && texts(before)[j] == x;
            assert(all[j] == x);
        }
    }
}

/// Adds the labels that are not there.
fn add_labels(labels: &mut Vec<String>, more: Vec<String>)
    requires
        texts(old(labels)@).no_duplicates(),
    ensures
        texts(final(labels)@).no_duplicates(),
        texts(final(labels)@).to_set() == texts(old(labels)@).to_set().union(texts(more@).to_set()),
{
    let ghost before = texts(labels@).to_set();
    let ghost all = texts(more@);
    let mut i: usize = 0;
    assert(all.take(0).to_set() =~= Set::empty());
    assert(before.union(Set::empty()) =~= before);
    while i < more.len()
        invariant
            all == texts(more@),
            i <= more@.len(),
            texts(labels@).no_duplicates(),
            texts(labels@).to_set() == before.union(all.take(i as int).to_set()),
        decreases more.len() - i,
    {
        add_label(labels, more[i].clone());
        proof {
            lemma_take_set(all, i as int);
            assert(before.union(all.take(i as int).to_set()).insert(all[i as int]) =~= before.union(
                all.take(i + 1).to_set(),
            ));
        }
        i = i + 1;
    }
    assert(all.take(i as int) =~= all);
}

/// One label more in a row is one more in the set of its labels.
proof fn lemma_take_set(all: Seq<Seq<char>>, i: int)
    requires
        0 <= i < all.len(),
    ensures
        all.take(i + 1).to_set() == all.take(i).to_set().insert(all[i]),
{
    let shorter = all.take(i);
    let longer = all.take(i + 1);
    assert(longer =~= shorter.push(all[i]));
    assert(longer[i] == all[i]);
    assert forall|x: Seq<char>| shorter.contains(x) implies longer.contains(x) by {
        let j = choose|j: int| 0 <= j < shorter.len() && shorter[j] == x;
        assert(longer[j] == x);
    }
    assert(longer.to_set() =~= shorter.to_set().insert(all[i]));
}

/// The labels of two rows.
proof fn lemma_concat_set(first: Seq<Seq<char>>, second: Seq<Seq<char>>)
    ensures
        (first + second).to_set() == first.to_set().union(second.to_set()),
{
    let all = first + second;
    assert forall|x: Seq<char>| first.contains(x) implies all.contains(x) by {
        let j = choose|j: int| 0 <= j < first.len() && first[j] == x;
        assert(all[j] == x);
    }
    assert forall|x: Seq<char>| second.contains(x) implies all.contains(x) by {
        let j = choose|j: int| 0 <= j < second.len() && second[j] == x;
        assert(all[first.len() + j] == x);
    }
    assert(all.to_set() =~= first.to_set().union(second.to_set()));
}

/// The labels of the servers whose tools the responses of a chain list, none twice.
fn labels_of_chain(responses: &Vec<StoredResponse>) -> (r: Vec<String>)
    ensures
        texts(r@).no_duplicates(),
        texts(r@).to_set() == chain_labels(responses@).to_set(),
{
    let mut labels: Vec<String> = Vec::new();
    let mut i: usize = 0;
    let ghost all = responses@;
    assert(texts(labels@) =~= chain_labels(all.take(0)));
    while i < responses.len()
        invariant
            all == responses@,
            i <= responses@.len(),
            texts(labels@).no_duplicates(),
            texts(labels@).to_set() == chain_labels(all.take(i as int)).to_set(),
        decreases responses.len() - i,
    {
        assert(all.take(i + 1).drop_last() =~= all.take(i as int));
        let more: Vec<String> = extract_mcp_list_tools_labels(&responses[i].output);
        proof {
            lemma_concat_set(chain_labels(all.take(i as int)), texts(more@));
        }
        add_labels(&mut labels, more);
        i = i + 1;
    }
    assert(all.take(i as int) =~= all);
    labels
}

/// The requests for approval in the responses of a chain.
fn requests_of_chain(responses: &Vec<StoredResponse>) -> (r: Vec<InputItem>)
    ensures
        items_view(r@) == chain_requests(responses@),
{
    let mut requests: Vec<InputItem> = Vec::new();
    let mut i: usize = 0;
    let ghost all = responses@;
    assert(items_view(requests@) =~= chain_requests(all.take(0)));
    while i < responses.len()
        invariant
            all == responses@,
            i <= responses@.len(),
            items_view(requests@) == chain_requests(all.take(i as int)),
        decreases responses.len() - i,
    {
        assert(all.take(i + 1).drop_last() =~= all.take(i as int));
        let mut more: Vec<InputItem> = extract_mcp_approval_requests_from_array(&responses[i].output);
        let ghost held = requests@;
        let ghost fresh = more@;
        requests.append(&mut more);
        assert(items_view(requests@) =~= items_view(held) + items_view(fresh));
        i = i + 1;
    }
    assert(all.take(i as int) =~= all);
    requests
}

/// What is sent on of the responses of a chain, in its normal form.
fn items_of_chain(responses: &Vec<StoredResponse>) -> (r: Vec<InputItem>)
    ensures
        are_normal_forms(items_view(r@), chain_sources(responses@)),
{
    let mut items: Vec<InputItem> = Vec::new();
    let mut i: usize = 0;
    let ghost all = responses@;
    assert(items_view(items@) =~= chain_sources(all.take(0)));
    while i < responses.len()
        invariant
            all == responses@,
            i <= responses@.len(),
            are_normal_forms(items_view(items@), chain_sources(all.take(i as int))),
        decreases responses.len() - i,
    {
        assert(all.take(i + 1).drop_last() =~= all.take(i as int));
        let mut inputs: Vec<InputItem> = deserialize_upstream_input_items(&responses[i].input);
        let mut outputs: Vec<InputItem> = deserialize_upstream_output_items_from_array(
            &responses[i].output,
        );
        let ghost held = items@;
        let ghost first = inputs@;
        let ghost second = outputs@;
        proof {
            let ins = input_sources(all[i as int].input);
            let outs = output_sources(all[i as int].output);
            lemma_forms_concat(items_view(first), ins, items_view(second), outs);
            lemma_forms_concat(
                items_view(held),
                chain_sources(all.take(i as int)),
                items_view(first) + items_view(second),
                ins + outs,
            );
        }
        items.append(&mut inputs);
        items.append(&mut outputs);
        assert(items_view(items@) =~= items_view(held) + (items_view(first) + items_view(second)));
        i = i + 1;
    }
    assert(all.take(i as int) =~= all);
    items
}

/// The items of a conversation that are sent on.
pub fn conversation_items(items: Vec<StoredItem>) -> (r: Vec<InputItem>)
    ensures
        items_view(r@) == stored_sources(items@),
{
    let mut result: Vec<InputItem> = Vec::new();
    let mut i: usize = 0;
    let ghost all = items@;
    assert(items_view(result@) =~= stored_sources(all.take(0)));
    while i < items.len()
        invariant
            all == items@,
            i <= items@.len(),
            items_view(result@) == stored_sources(all.take(i as int)),
        decreases items.len() - i,
    {
        assert(all.take(i + 1).drop_last() =~= all.take(i as int));
        if let Some(item) = conversation_item(&items[i]) {
            let ghost held = result@;
            result.push(item);
            assert(items_view(result@) =~= items_view(held).push(item@));
        }
        i = i + 1;
    }
    assert(all.take(i as int) =~= all);
    result
}

/// The item of a conversation that is sent on.
fn conversation_item(item: &StoredItem) -> (r: Option<InputItem>)
    ensures
        r is Some <==> stored_source(*item) is Some,
        r matches Some(i) ==> stored_source(*item) == Some(i@),
{
    if same_text(item.item_type.as_str(), "message") {
        match &item.parts {
            Some(parts) => Some(
                InputItem::Message {
                    id: item.id.clone(),
                    role: match &item.role {
                        Some(role) => role.clone(),
                        None => "user".to_owned(),
                    },
                    content: copy_parts(parts),
                    status: copy_text(&item.status),
                },
            ),
            None => None,
        }
    } else if same_text(item.item_type.as_str(), "function_call") || same_text(
        item.item_type.as_str(),
        "function_call_output",
    ) {
        match &item.item {
            Some(parsed) => Some(parsed.clone()),
            None => None,
        }
    } else {
        None
    }
}

impl InputHistoryLoader {
    /// The loader of the history of a request.
    pub fn new(previous_response_id: Option<String>, conversation: Option<String>, input: ResponseInput) -> (r:
        Self)
        ensures
            r@ == started(optional_text(previous_response_id), optional_text(conversation), input@),
    {
        let named: Option<String> = match previous_response_id {
            Some(id) => if id.as_str().unicode_len() > 0 {
                Some(id)
            } else {
                None
            },
            None => None,
        };
        let loader: InputHistoryLoader = InputHistoryLoader {
            previous_response_id: named,
            conversation,
            input,
            labels: Vec::new(),
            requests: Vec::new(),
            chain_items: None,
        };
        assert(loader@.labels =~= Seq::empty());
        assert(loader@.requests =~= Seq::empty());
        loader
    }

    /// What is to be done when the chain of responses is dealt with.
    fn action_after_chain(&self) -> (r: HistoryAction)
        ensures
            r@ == after_chain(self@),
    {
        match &self.conversation {
            Some(id) => HistoryAction::GetConversation { conversation_id: id.clone() },
            None => HistoryAction::Finish,
        }
    }

    /// What is to be done first.
    pub fn first(&self) -> (r: HistoryAction)
        ensures
            r@ == first_action(self@),
    {
        match &self.previous_response_id {
            Some(id) => HistoryAction::LoadChain { response_id: id.clone() },
            None => self.action_after_chain(),
        }
    }

    /// Takes the answer on the chain of responses. A chain with no response in it is as good as
    /// none.
    pub fn on_chain(&mut self, reply: ChainReply) -> (r: HistoryAction)
        requires
            old(self)@.previous_response_id is Some,
        ensures
            match reply {
                ChainReply::Found(responses) => if responses@.len() > 0 {
                    r@ == after_chain(old(self)@) && chain_taken(old(self)@, responses@, final(self)@)
                } else {
                    r@ == ActionView::Fail(response_not_found(old(self)@.previous_response_id->0))
                        && final(self)@ == old(self)@
                },
                ChainReply::NotFound => r@ == ActionView::Fail(
                    response_not_found(old(self)@.previous_response_id->0),
                ) && final(self)@ == old(self)@,
                ChainReply::Failed(cause) => r@ == ActionView::Fail(
                    chain_failed(old(self)@.previous_response_id->0, cause@),
                ) && final(self)@ == old(self)@,
            },
    {
        let id: String = match &self.previous_response_id {
            Some(id) => id.clone(),
            None => String::new(),
        };
        match reply {
            ChainReply::Found(responses) => {
                if responses.len() > 0 {
                    self.labels = labels_of_chain(&responses);
                    self.requests = requests_of_chain(&responses);
                    self.chain_items = Some(items_of_chain(&responses));
                    self.action_after_chain()
                } else {
                    HistoryAction::Fail(not_found_error(id.as_str()))
                }
            },
            ChainReply::NotFound => HistoryAction::Fail(not_found_error(id.as_str())),
            ChainReply::Failed(cause) => {
                let head: String = concat3(
                    "Failed to load previous response chain for ",
                    id.as_str(),
                    ": ",
                );
                HistoryAction::Fail(
                    HistoryError {
                        status: 500,
                        code: "load_previous_response_chain_failed".to_owned(),
                        message: concat2(head.as_str(), cause.as_str()),
                    },
                )
            },
        }
    }

    /// Takes the answer on the conversation. Only where it is known that there is none, that is
    /// an error.
    pub fn on_conversation(&self, reply: ConversationReply) -> (r: HistoryAction)
        requires
            self@.conversation is Some,
        ensures
            r@ == (if reply == ConversationReply::NotFound {
                ActionView::Fail(conversation_not_found(self@.conversation->0))
            } else {
                ActionView::ListItems(
                    self@.conversation->0,
                    MAX_CONVERSATION_HISTORY_ITEMS as nat,
                )
            }),
    {
        let id: String = match &self.conversation {
            Some(id) => id.clone(),
            None => String::new(),
        };
        match reply {
            ConversationReply::NotFound => HistoryAction::Fail(
                HistoryError {
                    status: 404,
                    code: "not_found".to_owned(),
                    message: concat3("No conversation found with id '", id.as_str(), "'"),
                },
            ),
            _ => HistoryAction::ListItems {
                conversation_id: id,
                limit: MAX_CONVERSATION_HISTORY_ITEMS,
            },
        }
    }

    /// Takes the items of the conversation: they go before the input. Where they could not be
    /// listed, the input stays as it is.
    pub fn on_items(&mut self, reply: Option<Vec<StoredItem>>) -> (r: HistoryAction)
        requires
            old(self)@.conversation is Some,
        ensures
            r@ == ActionView::Finish,
            match reply {
                Some(items) => {
                    &&& final(self)@.input matches InputView::Items(after) && input_appended(
                        stored_sources(items@),
                        old(self)@.input,
                        old(self)@.conversation->0,
                        after,
                    )
                    &&& final(self)@ == (LoaderView { input: final(self)@.input, ..old(self)@ })
                },
                None => final(self)@ == old(self)@,
            },
    {
        if let Some(stored) = reply {
            let id: String = match &self.conversation {
                Some(id) => id.clone(),
                None => String::new(),
            };
            let mut items: Vec<InputItem> = conversation_items(stored);
            append_current_input(&mut items, &self.input, id.as_str());
            self.input = ResponseInput::Items(items);
        }
        HistoryAction::Finish
    }

    /// The input as it was, where the history cannot be had.
    pub fn into_input(self) -> (r: ResponseInput)
        ensures
            r@ == self@.input,
    {
        self.input
    }

    /// What was loaded, and the input with the responses of the chain before it.
    pub fn finish(self) -> (r: (LoadedInputHistory, ResponseInput))
        ensures
            optional_text(r.0.previous_response_id) == self@.previous_response_id,
            texts(r.0.existing_mcp_list_tools_labels@) == self@.labels,
            items_view(r.0.prior_mcp_approval_requests@) == self@.requests,
            match self@.chain_items {
                Some(items) => r.1@ matches InputView::Items(after) && input_appended(
                    items,
                    self@.input,
                    id_suffix(self@),
                    after,
                ),
                None => r.1@ == self@.input,
            },
    {
        let InputHistoryLoader {
            previous_response_id,
            conversation: _,
            input,
            labels,
            requests,
            chain_items,
        } = self;
        let loaded: ResponseInput = match chain_items {
            Some(chain) => {
                let mut items: Vec<InputItem> = chain;
                let suffix: String = match &previous_response_id {
                    Some(id) => id.clone(),
                    None => "new".to_owned(),
                };
                append_current_input(&mut items, &input, suffix.as_str());
                ResponseInput::Items(items)
            },
            None => input,
        };
        (
            LoadedInputHistory {
                previous_response_id,
                existing_mcp_list_tools_labels: labels,
                prior_mcp_approval_requests: requests,
            },
            loaded,
        )
    }
}

/// There is no response of that identifier.
fn not_found_error(id: &str) -> (r: HistoryError)
    ensures
        r@ == response_not_found(id@),
{
    HistoryError {
        status: 400,
        code: "previous_response_not_found".to_owned(),
        message: concat3("Previous response with id '", id, "' not found."),
    }
}

// ---------------------------------------------------------------------------
// Laws
// ---------------------------------------------------------------------------

/// A request that names neither an earlier response nor a conversation has nothing loaded; an
/// empty identifier names no response.
pub proof fn law_nothing_to_load(input: InputView)
    ensures
        first_action(started(None, None, input)) == ActionView::Finish,
        first_action(started(Some(Seq::empty()), None, input)) == ActionView::Finish,
        started(Some(Seq::empty()), None, input) == started(None, None, input),
{
}

/// The responses of a chain go in their order.
pub proof fn law_chain_in_order(first: Seq<StoredResponse>, second: Seq<StoredResponse>)
    ensures
        chain_sources(first + second) == chain_sources(first) + chain_sources(second),
    decreases second.len(),
{
    if second.len() == 0 {
        assert(first + second =~= first);
        assert(chain_sources(first) + Seq::<ItemView>::empty() =~= chain_sources(first));
    } else {
        law_chain_in_order(first, second.drop_last());
        assert((first + second).drop_last() =~= first + second.drop_last());
        assert(chain_sources(first + second) =~= chain_sources(first) + chain_sources(second));
    }
}

/// Nothing about an approval is sent on of a chain.
pub proof fn law_chain_without_approvals(responses: Seq<StoredResponse>)
    ensures
        no_approvals(chain_sources(responses)),
    decreases responses.len(),
{
    if responses.len() > 0 {
        let last = responses.last();
        law_chain_without_approvals(responses.drop_last());
        law_no_approval_sent_on(last.input, last.output);
        lemma_no_approvals_concat(input_sources(last.input), output_sources(last.output));
        lemma_no_approvals_concat(
            chain_sources(responses.drop_last()),
            input_sources(last.input) + output_sources(last.output),
        );
    }
}

/// The rows of a chain are taken in its order: labels and requests for approval as well.
proof fn lemma_chain_rows(first: Seq<StoredResponse>, second: Seq<StoredResponse>)
    ensures
        chain_labels(first + second) == chain_labels(first) + chain_labels(second),
        chain_requests(first + second) == chain_requests(first) + chain_requests(second),
    decreases second.len(),
{
    if second.len() == 0 {
        assert(first + second =~= first);
        assert(chain_labels(first) + Seq::<Seq<char>>::empty() =~= chain_labels(first));
        assert(chain_requests(first) + Seq::<ItemView>::empty() =~= chain_requests(first));
    } else {
        lemma_chain_rows(first, second.drop_last());
        assert((first + second).drop_last() =~= first + second.drop_last());
        assert(chain_labels(first + second) =~= chain_labels(first) + chain_labels(second));
        assert(chain_requests(first + second) =~= chain_requests(first) + chain_requests(second));
    }
}

/// One response in a chain: its input is sent on where it stands, and its output right behind it;
/// its labels and its requests for approval are taken of its output.
pub proof fn law_response_in_chain(
    before: Seq<StoredResponse>,
    response: StoredResponse,
    after: Seq<StoredResponse>,
)
    ensures
        chain_sources(before + seq![response] + after) == chain_sources(before) + input_sources(
            response.input,
        ) + output_sources(response.output) + chain_sources(after),
        chain_labels(before + seq![response] + after) == chain_labels(before) + listed_labels(
            raw_array(response.output),
        ) + chain_labels(after),
        chain_requests(before + seq![response] + after) == chain_requests(before) + approval_requests(
            raw_array(response.output),
        ) + chain_requests(after),
{
    let one = seq![response];
    assert(one.drop_last() =~= Seq::empty());
    law_chain_in_order(before + one, after);
    law_chain_in_order(before, one);
    lemma_chain_rows(before + one, after);
    lemma_chain_rows(before, one);
    assert(chain_sources(one.drop_last()) =~= Seq::empty());
    assert(chain_labels(one.drop_last()) =~= Seq::empty());
    assert(chain_requests(one.drop_last()) =~= Seq::empty());
    assert(chain_sources(one) =~= input_sources(response.input) + output_sources(response.output));
    assert(chain_labels(one) =~= listed_labels(raw_array(response.output)));
    assert(chain_requests(one) =~= approval_requests(raw_array(response.output)));
    assert(chain_sources(before) + (input_sources(response.input) + output_sources(response.output))
        =~= chain_sources(before) + input_sources(response.input) + output_sources(response.output));
}

/// An item between what stands before it and what stands behind it.
proof fn lemma_place(head: Seq<ItemView>, item: ItemView, tail: Seq<ItemView>)
    ensures
        ({
            let all = head + seq![item] + tail;
            let at = head.len() as int;
            all.len() > at && all[at] == item && all.take(at) == head && all.skip(at + 1) == tail
        }),
{
    let all = head + seq![item] + tail;
    let at = head.len() as int;
    assert(all.take(at) =~= head);
    assert(all.skip(at + 1) =~= tail);
}

/// An item in one of the rows of a chain.
proof fn lemma_rows(
    first: Seq<ItemView>,
    before: Seq<ItemView>,
    item: ItemView,
    after: Seq<ItemView>,
    last: Seq<ItemView>,
)
    ensures
        first + (before + seq![item] + after) + last == first + before + seq![item] + (after + last),
{
    assert(first + (before + seq![item] + after) + last =~= first + before + seq![item] + (after + last));
}

/// Every item of a stored output that parses, that is not about an approval, and whose type is
/// neither that of a list of tools, nor of a request for approval, nor of a call of an MCP tool,
/// stands in what is sent on of the chain as it parses, behind what comes before it in the chain
/// and before what comes behind it.
pub proof fn law_chain_keeps_output(
    before: Seq<StoredResponse>,
    response: StoredResponse,
    after: Seq<StoredResponse>,
    items: Vec<RawItem>,
    k: int,
    parsed: InputItem,
)
    requires
        response.output == RawItems::Array(items),
        0 <= k < items@.len(),
        items@[k].parsed == Some(parsed),
        !(parsed is McpApprovalRequest) && !(parsed is McpApprovalResponse),
        text_field(items@[k].value, "type"@) != Some("mcp_list_tools"@),
        text_field(items@[k].value, "type"@) != Some("mcp_approval_request"@),
        text_field(items@[k].value, "type"@) != Some("mcp_call"@),
    ensures
        ({
            let at = chain_sources(before).len() + input_sources(response.input).len()
                + output_array_sources(items@.take(k)).len();
            let sent = chain_sources(before + seq![response] + after);
            &&& at < sent.len()
            &&& sent[at as int] == parsed@
            &&& sent.take(at as int) == chain_sources(before) + input_sources(response.input)
                + output_array_sources(items@.take(k))
            &&& sent.skip(at as int + 1) == output_array_sources(items@.skip(k + 1)) + chain_sources(after)
        }),
{
    law_response_in_chain(before, response, after);
    law_output_item_sent_on(items@.take(k), items@[k], parsed, items@.skip(k + 1));
    assert(items@ =~= items@.take(k) + seq![items@[k]] + items@.skip(k + 1));
    let head = chain_sources(before) + input_sources(response.input) + output_array_sources(items@.take(k));
    let tail = output_array_sources(items@.skip(k + 1)) + chain_sources(after);
    lemma_rows(
        chain_sources(before) + input_sources(response.input),
        output_array_sources(items@.take(k)),
        parsed@,
        output_array_sources(items@.skip(k + 1)),
        chain_sources(after),
    );
    lemma_place(head, parsed@, tail);
}

/// Every item of a stored input that parses and that is not about an approval stands in what is
/// sent on of the chain as it parses, in its place.
pub proof fn law_chain_keeps_input(
    before: Seq<StoredResponse>,
    response: StoredResponse,
    after: Seq<StoredResponse>,
    items: Vec<RawItem>,
    k: int,
    parsed: InputItem,
)
    requires
        response.input == RawItems::Array(items),
        0 <= k < items@.len(),
        items@[k].parsed == Some(parsed),
        !(parsed is McpApprovalRequest) && !(parsed is McpApprovalResponse),
    ensures
        ({
            let at = chain_sources(before).len() + input_array_sources(items@.take(k)).len();
            let sent = chain_sources(before + seq![response] + after);
            &&& at < sent.len()
            &&& sent[at as int] == parsed@
            &&& sent.take(at as int) == chain_sources(before) + input_array_sources(items@.take(k))
            &&& sent.skip(at as int + 1) == input_array_sources(items@.skip(k + 1)) + output_sources(
                response.output,
            ) + chain_sources(after)
        }),
{
    law_response_in_chain(before, response, after);
    law_input_item_sent_on(items@.take(k), items@[k], items@.skip(k + 1));
    assert(items@ =~= items@.take(k) + seq![items@[k]] + items@.skip(k + 1));
    let head = chain_sources(before) + input_array_sources(items@.take(k));
    let last = input_array_sources(items@.skip(k + 1));
    let out = output_sources(response.output);
    lemma_rows(chain_sources(before), input_array_sources(items@.take(k)), parsed@, last, out + chain_sources(after));
    assert(head + seq![parsed@] + (last + (out + chain_sources(after))) =~= head + seq![parsed@] + (last + out
        + chain_sources(after)));
    assert(chain_sources(before) + input_array_sources(items@) + (out + chain_sources(after)) =~= chain_sources(
        before,
    ) + input_array_sources(items@) + out + chain_sources(after));
    lemma_place(head, parsed@, last + out + chain_sources(after));
}

/// A request whose chain was found is handed on with the chain before it, and its own input
/// behind that, item by item; the identifier of a message that its text makes ends in the
/// identifier of the response that it continues.
pub proof fn law_chain_before_input(
    before: LoaderView,
    responses: Seq<StoredResponse>,
    loaded: LoaderView,
    items: Seq<ItemView>,
)
    requires
        chain_taken(before, responses, loaded),
        input_appended(loaded.chain_items->0, loaded.input, id_suffix(loaded), items),
    ensures
        are_normal_forms(items.take(chain_sources(responses).len() as int), chain_sources(responses)),
        before.input matches InputView::Text(text) ==> {
            &&& items.len() == chain_sources(responses).len() + 1
            &&& items.last() matches ItemView::Message { id, role, content, status } && {
                &&& before.previous_response_id is Some ==> id == "msg_u_"@
                    + before.previous_response_id->0
                &&& before.previous_response_id is None ==> id == "msg_u_"@ + "new"@
                &&& role == "user"@
                &&& content == seq![PartView::InputText(text)]
                &&& status == Some("completed"@)
            }
        },
        before.input matches InputView::Items(own) ==> are_normal_forms(
            items.skip(chain_sources(responses).len() as int),
            own,
        ),
        loaded.conversation == before.conversation,
        loaded.previous_response_id == before.previous_response_id,
        loaded.requests == chain_requests(responses),
        forall|label: Seq<char>|
            loaded.labels.contains(label) <==> #[trigger] chain_labels(responses).contains(label),
        loaded.labels.no_duplicates(),
{
    let chain = loaded.chain_items->0;
    law_input_behind_history(chain, loaded.input, id_suffix(loaded), items);
    assert(items.take(chain.len() as int) =~= chain);
    assert forall|label: Seq<char>|
        loaded.labels.contains(label) <==> #[trigger] chain_labels(responses).contains(label) by {
        assert(loaded.labels.to_set().contains(label) <==> chain_labels(responses).to_set().contains(
            label,
        ));
    }
}

/// A stored message whose content parses is sent on with its identifier, its content and its
/// status, and with the role that is stored with it; it is the user's only where none is stored.
pub proof fn law_stored_message(item: StoredItem, parts: Vec<ContentPart>)
    requires
        item.item_type@ == "message"@,
        item.parts == Some(parts),
    ensures
        stored_source(item) matches Some(ItemView::Message { id, role, content, status }) && {
            &&& item.role matches Some(stored) ==> role == stored@
            &&& item.role is None ==> role == "user"@
            &&& id == item.id@
            &&& content == parts_view(parts@)
            &&& item.status matches Some(stored) ==> status == Some(stored@)
            &&& item.status is None ==> status is None
        },
{
}

/// A stored call of a function and a stored output of one are sent on as they parse; what does
/// not parse is left out, and so is every item of another type.
pub proof fn law_stored_item(item: StoredItem)
    ensures
        item.item_type@ == "function_call"@ || item.item_type@ == "function_call_output"@ ==> (
        item.item matches Some(parsed) ==> stored_source(item) == Some(parsed@)),
        item.item_type@ == "function_call"@ || item.item_type@ == "function_call_output"@ ==> (
        item.item is None ==> stored_source(item) is None),
        item.item_type@ == "message"@ && item.parts is None ==> stored_source(item) is None,
        item.item_type@ != "message"@ && item.item_type@ != "function_call"@ && item.item_type@
            != "function_call_output"@ ==> stored_source(item) is None,
{
    reveal_strlit("message");
    reveal_strlit("function_call");
    reveal_strlit("function_call_output");
    assert("message"@.len() == 7 && "function_call"@.len() == 13 && "function_call_output"@.len() == 20);
}

/// The items of a conversation are sent on one by one, each where it stands.
pub proof fn law_conversation_in_order(first: Seq<StoredItem>, second: Seq<StoredItem>, item: StoredItem)
    ensures
        stored_sources(first + second) == stored_sources(first) + stored_sources(second),
        stored_source(item) matches Some(sent) ==> stored_sources(seq![item]) == seq![sent],
        stored_source(item) is None ==> stored_sources(seq![item]).len() == 0,
    decreases second.len(),
{
    let one = seq![item];
    assert(one.drop_last() =~= Seq::empty());
    assert(stored_sources(one.drop_last()) =~= Seq::empty());
    if second.len() == 0 {
        assert(first + second =~= first);
        assert(stored_sources(first) + Seq::<ItemView>::empty() =~= stored_sources(first));
    } else {
        law_conversation_in_order(first, second.drop_last(), item);
        assert((first + second).drop_last() =~= first + second.drop_last());
        assert(stored_sources(first + second) =~= stored_sources(first) + stored_sources(second));
    }
}

/// A message of a stored conversation whose content parses stands in what is handed on, in its
/// place, under the role that is stored with it; and the input of the request behind all of them.
pub proof fn law_conversation_keeps_message(
    before: Seq<StoredItem>,
    item: StoredItem,
    after: Seq<StoredItem>,
    parts: Vec<ContentPart>,
    input: InputView,
    conversation: Seq<char>,
    items: Seq<ItemView>,
)
    requires
        item.item_type@ == "message"@,
        item.parts == Some(parts),
        input_appended(stored_sources(before + seq![item] + after), input, conversation, items),
    ensures
        ({
            let at = stored_sources(before).len() as int;
            &&& at < items.len()
            &&& items.take(at) == stored_sources(before)
            &&& items[at] matches ItemView::Message { id, role, content, status } && {
                &&& item.role matches Some(stored) ==> role == stored@
                &&& item.role is None ==> role == "user"@
                &&& id == item.id@
                &&& content == parts_view(parts@)
            }
            &&& items.subrange(at + 1, at + 1 + stored_sources(after).len()) == stored_sources(after)
            &&& input matches InputView::Text(text) ==> {
                &&& items.len() == at + 2 + stored_sources(after).len()
                &&& items.last() == text_message("msg_u_"@ + conversation, text)
            }
            &&& input matches InputView::Items(own) ==> are_normal_forms(
                items.skip(at + 1 + stored_sources(after).len()),
                own,
            )
        }),
{
    let one = seq![item];
    law_conversation_in_order(before + one, after, item);
    law_conversation_in_order(before, one, item);
    law_stored_message(item, parts);
    let all = stored_sources(before + one + after);
    let at = stored_sources(before).len() as int;
    assert(all =~= stored_sources(before) + seq![stored_source(item)->0] + stored_sources(after));
    law_input_behind_history(all, input, conversation, items);
    law_history_kept(all, input, conversation, items);
    assert(items.take(at) =~= stored_sources(before));
    assert(items.subrange(at + 1, at + 1 + stored_sources(after).len()) =~= stored_sources(after));
}

/// An identifier of an earlier response that is not empty has its chain loaded first, and the
/// conversation is looked for after that; without one the conversation comes first.
pub proof fn law_order_of_loading(id: Seq<char>, conversation: Seq<char>, input: InputView)
    requires
        id.len() > 0,
    ensures
        forall|c: Option<Seq<char>>|
            first_action(#[trigger] started(Some(id), c, input)) == ActionView::LoadChain(id),
        first_action(started(None, Some(conversation), input)) == ActionView::GetConversation(
            conversation,
        ),
        first_action(started(Some(Seq::empty()), Some(conversation), input))
            == ActionView::GetConversation(conversation),
        after_chain(started(Some(id), Some(conversation), input)) == ActionView::GetConversation(
            conversation,
        ),
        after_chain(started(Some(id), None, input)) == ActionView::Finish,
        started(Some(id), Some(conversation), input).input == input,
        started(Some(id), Some(conversation), input).previous_response_id == Some(id),
        started(Some(id), Some(conversation), input).chain_items is None,
        started(Some(id), Some(conversation), input).labels.len() == 0,
        started(Some(id), Some(conversation), input).requests.len() == 0,
{
}

/// A refusal names what was asked for: its message holds the identifier, and after a failure the
/// cause; what was not found is the fault of the request, and a failure is that of the server. Each
/// has a code of its own.
pub proof fn law_refusals(id: Seq<char>, cause: Seq<char>)
    ensures
        contains(response_not_found(id).message, id),
        contains(conversation_not_found(id).message, id),
        contains(chain_failed(id, cause).message, id),
        cause.len() <= chain_failed(id, cause).message.len(),
        chain_failed(id, cause).message.skip(chain_failed(id, cause).message.len() - cause.len()) == cause,
        response_not_found(id).status == 400,
        conversation_not_found(id).status == 404,
        chain_failed(id, cause).status == 500,
        response_not_found(id).code == "previous_response_not_found"@,
        conversation_not_found(id).code == "not_found"@,
        chain_failed(id, cause).code == "load_previous_response_chain_failed"@,
        MAX_CONVERSATION_HISTORY_ITEMS == 100,
{
    let first = response_not_found(id).message;
    let second = conversation_not_found(id).message;
    let third = chain_failed(id, cause).message;
    assert(occurs_at(first, id, "Previous response with id '"@.len() as int)) by {
        let at = "Previous response with id '"@.len() as int;
        assert(first.subrange(at, at + id.len()) =~= id);
    }
    assert(occurs_at(second, id, "No conversation found with id '"@.len() as int)) by {
        let at = "No conversation found with id '"@.len() as int;
        assert(second.subrange(at, at + id.len()) =~= id);
    }
    assert(occurs_at(third, id, "Failed to load previous response chain for "@.len() as int)) by {
        let at = "Failed to load previous response chain for "@.len() as int;
        assert(third.subrange(at, at + id.len()) =~= id);
    }
    assert(third.skip(third.len() - cause.len()) =~= cause);
}

} // verus!
