//! Workers: what is asked of them, and what their answers come to.

use std::sync::Arc;

use vstd::prelude::*;
use vstd::string::*;

use crate::text::{concat2, concat3, decimal_text};
#[allow(unused_imports)]
use crate::text::{contains, decimal, occurs_at, optional_text, texts};

verus! {

/// How many seconds a worker has to answer.
pub const REQUEST_TIMEOUT_SECS: u64 = 5;

/// How many requests go out at a time.
pub const MAX_CONCURRENT: usize = 32;

// ---------------------------------------------------------------------------
// Workers
// ---------------------------------------------------------------------------

/// What a worker does for a request.
#[derive(Debug, Clone, Copy, PartialEq, Eq, Structural)]
pub enum WorkerType {
    Regular,
    Prefill,
    Decode,
}

/// How a worker is reached.
#[derive(Debug, Clone, Copy, PartialEq, Eq, Structural)]
pub enum ConnectionMode {
    Http,
    Grpc,
}

/// A worker.
#[derive(Debug)]
pub struct WorkerInfo {
    pub url: String,
    pub api_key: Option<String>,
    pub model_id: String,
    pub worker_type: WorkerType,
    pub connection_mode: ConnectionMode,
}

/// The workers that there are.
#[derive(Debug)]
pub struct WorkerRegistry {
    pub workers: Vec<WorkerInfo>,
}

/// The URLs of workers.
pub open spec fn worker_urls(workers: Seq<WorkerInfo>) -> Seq<Seq<char>> {
    workers.map_values(|w: WorkerInfo| w.url@)
}

/// The workers that are reached by HTTP, in their order.
pub open spec fn http_workers(workers: Seq<WorkerInfo>) -> Seq<WorkerInfo>
    decreases workers.len(),
{
    if workers.len() == 0 {
        Seq::empty()
    } else if workers.last().connection_mode == ConnectionMode::Http {
        http_workers(workers.drop_last()).push(workers.last())
    } else {
        http_workers(workers.drop_last())
    }
}

/// Some worker is reached by gRPC.
pub open spec fn has_grpc(workers: Seq<WorkerInfo>) -> bool {
    exists|i: int|
        0 <= i < workers.len() && (#[trigger] workers[i]).connection_mode == ConnectionMode::Grpc
}

// ---------------------------------------------------------------------------
// Requests
// ---------------------------------------------------------------------------

/// The method of a request.
#[derive(Debug, Clone, Copy, PartialEq, Eq, Structural)]
pub enum Method {
    Get,
    Post,
}

/// A request to a worker: the URL of the worker, that of the request, and the key that it is
/// sent with, if there is one.
#[derive(Debug, PartialEq, Eq)]
pub struct WorkerRequest {
    pub url: String,
    pub full_url: String,
    pub api_key: Option<String>,
    pub method: Method,
}

/// What a [`WorkerRequest`] holds.
pub struct RequestView {
    pub url: Seq<char>,
    pub full_url: Seq<char>,
    pub api_key: Option<Seq<char>>,
    pub method: Method,
}

impl View for WorkerRequest {
    type V = RequestView;

    open spec fn view(&self) -> RequestView {
        RequestView {
            url: self.url@,
            full_url: self.full_url@,
            api_key: optional_text(self.api_key),
            method: self.method,
        }
    }
}

/// What requests hold.
pub open spec fn requests_view(requests: Seq<WorkerRequest>) -> Seq<RequestView> {
    requests.map_values(|r: WorkerRequest| r@)
}

/// The request to a worker at one of its endpoints.
pub open spec fn request_to(worker: WorkerInfo, endpoint: Seq<char>, method: Method) -> RequestView {
    RequestView {
        url: worker.url@,
        full_url: worker.url@ + "/"@ + endpoint,
        api_key: optional_text(worker.api_key),
        method,
    }
}

/// The requests to workers at an endpoint.
pub open spec fn requests_to(workers: Seq<WorkerInfo>, endpoint: Seq<char>, method: Method) -> Seq<
    RequestView,
> {
    workers.map_values(|w: WorkerInfo| request_to(w, endpoint, method))
}

/// The request to a worker at one of its endpoints.
fn request_for(worker: &WorkerInfo, endpoint: &str, method: Method) -> (r: WorkerRequest)
    ensures
        r@ == request_to(*worker, endpoint@, method),
{
    WorkerRequest {
        url: worker.url.clone(),
        full_url: concat3(worker.url.as_str(), "/", endpoint),
        api_key: match &worker.api_key {
            Some(key) => Some(key.clone()),
            None => None,
        },
        method,
    }
}

/// The requests to the workers that are reached by HTTP, at an endpoint.
pub fn fan_out(workers: &Vec<WorkerInfo>, endpoint: &str, method: Method) -> (r: Vec<WorkerRequest>)
    ensures
        requests_view(r@) == requests_to(http_workers(workers@), endpoint@, method),
{
    let mut requests: Vec<WorkerRequest> = Vec::new();
    let mut i: usize = 0;
    let ghost all = workers@;
    assert(requests_view(requests@) =~= requests_to(http_workers(all.take(0)), endpoint@, method));
    while i < workers.len()
        invariant
            all == workers@,
            i <= workers@.len(),
            requests_view(requests@) == requests_to(
                http_workers(all.take(i as int)),
                endpoint@,
                method,
            ),
        decreases workers.len() - i,
    {
        assert(all.take(i + 1).drop_last() =~= all.take(i as int));
        if workers[i].connection_mode == ConnectionMode::Http {
            let request: WorkerRequest = request_for(&workers[i], endpoint, method);
            let ghost held = requests@;
            requests.push(request);
            assert(requests_view(requests@) =~= requests_view(held).push(request@));
            assert(requests_to(http_workers(all.take(i + 1)), endpoint@, method) =~= requests_to(
                http_workers(all.take(i as int)),
                endpoint@,
                method,
            ).push(request@));
        }
        i = i + 1;
    }
    assert(all.take(i as int) =~= all);
    requests
}

// ---------------------------------------------------------------------------
// Statuses
// ---------------------------------------------------------------------------

/// The status says that all went well.
pub open spec fn is_success(status: u16) -> bool {
    200 <= status < 300
}

/// The phrase that goes with a status, if the status has one.
pub uninterp spec fn canonical_reason(status: u16) -> Option<Seq<char>>;

/// `http::StatusCode::canonical_reason`: the phrase that goes with a status, a function of the
/// status alone; nothing for a number that is no status. Which phrase it is, is left to the name.
#[verifier::external_body]
fn reason_phrase(status: u16) -> (r: Option<String>)
    ensures
        optional_text(r) == canonical_reason(status),
{
    let code = http::StatusCode::from_u16(status).ok();
    code.and_then(|c| c.canonical_reason()).map(|p| p.to_string())
}

/// A status as it is written: the number and its phrase.
pub open spec fn status_line(status: u16, reason: Option<Seq<char>>) -> Seq<char> {
    decimal(status as nat) + " "@ + match reason {
        Some(phrase) => phrase,
        None => "<unknown status code>"@,
    }
}

/// A status as it is written, given its phrase.
pub fn status_text(status: u16, reason: Option<String>) -> (r: String)
    ensures
        r@ == status_line(status, optional_text(reason)),
{
    let number: String = decimal_text(status as u64);
    match reason {
        Some(phrase) => concat3(number.as_str(), " ", phrase.as_str()),
        None => concat3(number.as_str(), " ", "<unknown status code>"),
    }
}

// ---------------------------------------------------------------------------
// Flushing caches
// ---------------------------------------------------------------------------

/// The answer of a worker: the status, or why there is none.
#[derive(Debug)]
pub struct WorkerResponse {
    pub url: String,
    pub result: Result<u16, String>,
}

/// The caches that were flushed, and those that were not, with the reason.
#[derive(Debug, PartialEq, Eq)]
pub struct FlushCacheResult {
    pub successful: Vec<String>,
    pub failed: Vec<(String, String)>,
    pub total_workers: usize,
    pub http_workers: usize,
    pub message: String,
}

/// The worker did what it was asked.
pub open spec fn succeeded(response: WorkerResponse) -> bool {
    response.result matches Ok(status) && is_success(status)
}

/// Why the worker did not do what it was asked.
pub open spec fn failure_text(response: WorkerResponse) -> Seq<char> {
    match response.result {
        Ok(status) => "HTTP "@ + status_line(status, canonical_reason(status)),
        Err(cause) => cause@,
    }
}

/// The workers that did what they were asked, in the order of their answers.
pub open spec fn successes(responses: Seq<WorkerResponse>) -> Seq<Seq<char>>
    decreases responses.len(),
{
    if responses.len() == 0 {
        Seq::empty()
    } else if succeeded(responses.last()) {
        successes(responses.drop_last()).push(responses.last().url@)
    } else {
        successes(responses.drop_last())
    }
}

/// The workers that did not do what they were asked, in the order of their answers, and why.
pub open spec fn failures(responses: Seq<WorkerResponse>) -> Seq<(Seq<char>, Seq<char>)>
    decreases responses.len(),
{
    if responses.len() == 0 {
        Seq::empty()
    } else if succeeded(responses.last()) {
        failures(responses.drop_last())
    } else {
        failures(responses.drop_last()).push((responses.last().url@, failure_text(responses.last())))
    }
}

/// Pairs of texts.
pub open spec fn text_pairs(pairs: Seq<(String, String)>) -> Seq<(Seq<char>, Seq<char>)> {
    pairs.map_values(|p: (String, String)| (p.0@, p.1@))
}

/// What is said of the caches that were flushed.
pub open spec fn flush_message(flushed: nat, not_flushed: nat) -> Seq<char> {
    if not_flushed == 0 {
        "Successfully flushed cache on all "@ + decimal(flushed) + " HTTP workers"@
    } else {
        "Cache flush: "@ + decimal(flushed) + " succeeded, "@ + decimal(not_flushed) + " failed"@
    }
}

/// What is said of the caches that were flushed.
fn message_of_flush(flushed: usize, not_flushed: usize) -> (r: String)
    ensures
        r@ == flush_message(flushed as nat, not_flushed as nat),
{
    let number: String = decimal_text(flushed as u64);
    if not_flushed == 0 {
        concat3("Successfully flushed cache on all ", number.as_str(), " HTTP workers")
    } else {
        let other: String = decimal_text(not_flushed as u64);
        let head: String = concat3("Cache flush: ", number.as_str(), " succeeded, ");
        concat3(head.as_str(), other.as_str(), " failed")
    }
}

/// Operations on the workers.
#[derive(Debug)]
pub struct WorkerManager;

impl WorkerManager {
    /// The URLs of all workers.
    pub fn get_worker_urls(registry: &Arc<WorkerRegistry>) -> (r: Vec<String>)
        ensures
            texts(r@) == worker_urls(registry.workers@),
    {
        let mut urls: Vec<String> = Vec::new();
        let mut i: usize = 0;
        while i < registry.workers.len()
            invariant
                i <= registry.workers@.len(),
                texts(urls@) == worker_urls(registry.workers@).take(i as int),
            decreases registry.workers.len() - i,
        {
            let url: String = registry.workers[i].url.clone();
            let ghost held = urls@;
            let ghost known = url@;
            urls.push(url);
            assert(texts(urls@) =~= texts(held).push(known));
            i = i + 1;
            assert(texts(urls@) =~= worker_urls(registry.workers@).take(i as int));
        }
        assert(texts(urls@) =~= worker_urls(registry.workers@));
        urls
    }

    /// The requests that flush the caches of the workers that are reached by HTTP.
    pub fn flush_requests(worker_registry: &WorkerRegistry) -> (r: Vec<WorkerRequest>)
        ensures
            requests_view(r@) == requests_to(
                http_workers(worker_registry.workers@),
                "flush_cache"@,
                Method::Post,
            ),
    {
        fan_out(&worker_registry.workers, "flush_cache", Method::Post)
    }

    /// What the answers to [`WorkerManager::flush_requests`] come to.
    pub fn flush_cache_all(worker_registry: &WorkerRegistry, responses: Vec<WorkerResponse>) -> (r:
        FlushCacheResult)
        ensures
            r.total_workers == worker_registry.workers@.len(),
            r.http_workers == http_workers(worker_registry.workers@).len(),
            r.http_workers == 0 ==> {
                &&& r.successful@.len() == 0
                &&& r.failed@.len() == 0
                &&& r.message@ == "No HTTP workers available for cache flush"@
            },
            r.http_workers > 0 ==> {
                &&& texts(r.successful@) == successes(responses@)
                &&& text_pairs(r.failed@) == failures(responses@)
                &&& r.message@ == flush_message(
                    successes(responses@).len(),
                    failures(responses@).len(),
                )
            },
    {
        let total_workers: usize = worker_registry.workers.len();
        let http_count: usize = Self::count_http(&worker_registry.workers);
        let mut successful: Vec<String> = Vec::new();
        let mut failed: Vec<(String, String)> = Vec::new();
        if http_count == 0 {
            return FlushCacheResult {
                successful,
                failed,
                total_workers,
                http_workers: 0,
                message: "No HTTP workers available for cache flush".to_owned(),
            };
        }
        let mut i: usize = 0;
        let ghost all = responses@;
        assert(texts(successful@) =~= successes(all.take(0)));
        assert(text_pairs(failed@) =~= failures(all.take(0)));
        while i < responses.len()
            invariant
                all == responses@,
                i <= responses@.len(),
                texts(successful@) == successes(all.take(i as int)),
                text_pairs(failed@) == failures(all.take(i as int)),
            decreases responses.len() - i,
        {
            assert(all.take(i + 1).drop_last() =~= all.take(i as int));
            let url: String = responses[i].url.clone();
            let ghost known = url@;
            let ghost held = successful@;
            let ghost missed = failed@;
            match &responses[i].result {
                Ok(status) => {
                    if *status >= 200 && *status < 300 {
                        successful.push(url);
                        assert(texts(successful@) =~= texts(held).push(known));
                    } else {
                        let reason: Option<String> = reason_phrase(*status);
                        let line: String = status_text(*status, reason);
                        let text: String = concat2("HTTP ", line.as_str());
                        let ghost why = text@;
                        failed.push((url, text));
                        assert(text_pairs(failed@) =~= text_pairs(missed).push((known, why)));
                    }
                },
                Err(cause) => {
                    let text: String = cause.clone();
                    let ghost why = text@;
                    failed.push((url, text));
                    assert(text_pairs(failed@) =~= text_pairs(missed).push((known, why)));
                },
            }
            i = i + 1;
        }
        assert(all.take(i as int) =~= all);
        assert(successes(all).len() == successful@.len());
        assert(failures(all).len() == failed@.len());
        let message: String = message_of_flush(successful.len(), failed.len());
        FlushCacheResult { successful, failed, total_workers, http_workers: http_count, message }
    }

    /// How many workers are reached by HTTP.
    fn count_http(workers: &Vec<WorkerInfo>) -> (r: usize)
        ensures
            r == http_workers(workers@).len(),
    {
        let mut n: usize = 0;
        let mut i: usize = 0;
        assert(workers@.take(0) =~= Seq::empty());
        while i < workers.len()
            invariant
                i <= workers@.len(),
                n <= i,
                n == http_workers(workers@.take(i as int)).len(),
            decreases workers.len() - i,
        {
            assert(workers@.take(i + 1).drop_last() =~= workers@.take(i as int));
            if workers[i].connection_mode == ConnectionMode::Http {
                n = n + 1;
            }
            i = i + 1;
        }
        assert(workers@.take(i as int) =~= workers@);
        n
    }
}

// ---------------------------------------------------------------------------
// Loads
// ---------------------------------------------------------------------------

/// The load of one data-parallel rank of a worker.
#[derive(Debug, Clone, Copy, PartialEq, Eq, Structural)]
pub struct RankLoad {
    pub dp_rank: i32,
    pub num_used_tokens: i32,
}

/// The load of a worker, rank by rank.
#[derive(Debug, PartialEq, Eq)]
pub struct WorkerLoadResponse {
    pub loads: Vec<RankLoad>,
}

/// The tokens in use on all ranks.
pub open spec fn used_tokens(loads: Seq<RankLoad>) -> int
    decreases loads.len(),
{
    if loads.len() == 0 {
        0
    } else {
        used_tokens(loads.drop_last()) + loads.last().num_used_tokens
    }
}

/// The load of a worker among those of all: -1 where it is not known.
#[derive(Debug, PartialEq, Eq)]
pub struct WorkerLoadInfo {
    pub worker: String,
    pub worker_type: Option<String>,
    pub load: i64,
    pub details: Option<WorkerLoadResponse>,
}

/// The loads of all workers.
#[derive(Debug, PartialEq, Eq)]
pub struct WorkerLoadsResult {
    pub loads: Vec<WorkerLoadInfo>,
    pub total_workers: usize,
    pub successful: usize,
    pub failed: usize,
}

/// The word for what a worker does, where it does not do all.
pub open spec fn type_word(worker_type: WorkerType) -> Option<Seq<char>> {
    match worker_type {
        WorkerType::Regular => None,
        WorkerType::Prefill => Some("prefill"@),
        WorkerType::Decode => Some("decode"@),
    }
}

/// The load of a worker whose answer is `details`.
pub open spec fn load_of(details: Option<WorkerLoadResponse>) -> int {
    match details {
        Some(response) => used_tokens(response.loads@),
        None => -1,
    }
}

/// `info` says what `worker` answered.
pub open spec fn tells(info: WorkerLoadInfo, worker: WorkerInfo, details: Option<WorkerLoadResponse>) -> bool {
    &&& info.worker@ == worker.url@
    &&& optional_text(info.worker_type) == type_word(worker.worker_type)
    &&& info.load == load_of(details)
    &&& info.details == details
}

/// How many of the loads are known, which none below zero is.
pub open spec fn known_loads(loads: Seq<WorkerLoadInfo>) -> nat
    decreases loads.len(),
{
    if loads.len() == 0 {
        0
    } else {
        known_loads(loads.drop_last()) + if loads.last().load >= 0 {
            1nat
        } else {
            0nat
        }
    }
}

/// A load that a worker gave is taken where it has at least one rank.
pub open spec fn accepted_load(load: Option<WorkerLoadResponse>) -> Option<WorkerLoadResponse> {
    match load {
        Some(response) => if response.loads@.len() > 0 {
            Some(response)
        } else {
            None
        },
        None => None,
    }
}

impl WorkerLoadResponse {
    /// The tokens in use on all ranks.
    pub fn total_used_tokens(&self) -> (r: i64)
        requires
            i64::MIN <= used_tokens(self.loads@) <= i64::MAX,
        ensures
            r == used_tokens(self.loads@),
    {
        let n: usize = self.loads.len();
        let mut total: i128 = 0;
        let mut i: usize = 0;
        assert(self.loads@.take(0) =~= Seq::empty());
        while i < n
            invariant
                n == self.loads@.len(),
                i <= n,
                total == used_tokens(self.loads@.take(i as int)),
                -0x8000_0000 * i <= total <= 0x8000_0000 * i,
            decreases n - i,
        {
            assert(self.loads@.take(i + 1).drop_last() =~= self.loads@.take(i as int));
            total = total + self.loads[i].num_used_tokens as i128;
            i = i + 1;
        }
        assert(self.loads@.take(i as int) =~= self.loads@);
        total as i64
    }
}

impl WorkerManager {
    /// The load of a worker among those of all.
    fn load_info(worker: &WorkerInfo, details: Option<WorkerLoadResponse>) -> (r: WorkerLoadInfo)
        requires
            i64::MIN <= load_of(details) <= i64::MAX,
        ensures
            tells(r, *worker, details),
    {
        let load: i64 = match &details {
            Some(response) => response.total_used_tokens(),
            None => -1,
        };
        let worker_type: Option<String> = match worker.worker_type {
            WorkerType::Regular => None,
            WorkerType::Prefill => Some("prefill".to_owned()),
            WorkerType::Decode => Some("decode".to_owned()),
        };
        WorkerLoadInfo { worker: worker.url.clone(), worker_type, load, details }
    }

    /// The loads of all workers, where `details` are their answers, one for each worker and in
    /// the same order.
    pub fn get_all_worker_loads(
        worker_registry: &WorkerRegistry,
        details: Vec<Option<WorkerLoadResponse>>,
    ) -> (r: WorkerLoadsResult)
        requires
            details@.len() == worker_registry.workers@.len(),
            forall|i: int|
                0 <= i < details@.len() ==> i64::MIN <= load_of(#[trigger] details@[i]) <= i64::MAX,
        ensures
            r.loads@.len() == worker_registry.workers@.len(),
            forall|i: int|
                0 <= i < r.loads@.len() ==> tells(
                    #[trigger] r.loads@[i],
                    worker_registry.workers@[i],
                    details@[i],
                ),
            r.total_workers == worker_registry.workers@.len(),
            r.successful == known_loads(r.loads@),
            r.failed == r.loads@.len() - known_loads(r.loads@),
    {
        let total_workers: usize = worker_registry.workers.len();
        let mut loads: Vec<WorkerLoadInfo> = Vec::new();
        let mut successful: usize = 0;
        let mut failed: usize = 0;
        let ghost answers = details@;
        for detail in it: details
            invariant
                it.seq() == answers,
                answers.len() == worker_registry.workers@.len(),
                total_workers == worker_registry.workers@.len(),
                forall|i: int|
                    0 <= i < answers.len() ==> i64::MIN <= load_of(#[trigger] answers[i]) <= i64::MAX,
                loads@.len() == it.index(),
                forall|i: int|
                    0 <= i < loads@.len() ==> tells(
                        #[trigger] loads@[i],
                        worker_registry.workers@[i],
                        answers[i],
                    ),
                successful == known_loads(loads@),
                successful + failed == loads@.len(),
        {
            assert(detail == answers[it.index() as int]);
            let at: usize = loads.len();
            let info: WorkerLoadInfo = Self::load_info(&worker_registry.workers[at], detail);
            if info.load >= 0 {
                successful = successful + 1;
            } else {
                failed = failed + 1;
            }
            let ghost held = loads@;
            loads.push(info);
            assert(loads@.drop_last() =~= held);
        }
        WorkerLoadsResult { loads, total_workers, successful, failed }
    }

    /// The request for the load of a worker that is reached by HTTP.
    pub fn load_request(worker: &WorkerInfo) -> (r: WorkerRequest)
        ensures
            r@ == request_to(*worker, "v1/loads?include=core"@, Method::Get),
    {
        request_for(worker, "v1/loads?include=core", Method::Get)
    }

    /// The load that a worker gave by HTTP: its status, and the load in its body as far as that
    /// parses; nothing where there was no answer.
    pub fn fetch_http_load(reply: Option<(u16, Option<WorkerLoadResponse>)>) -> (r: Option<
        WorkerLoadResponse,
    >)
        ensures
            r == (match reply {
                Some((status, body)) => if is_success(status) {
                    accepted_load(body)
                } else {
                    None
                },
                None => None,
            }),
    {
        match reply {
            Some((status, body)) => if 200 <= status && status < 300 {
                Self::fetch_grpc_load(body)
            } else {
                None
            },
            None => None,
        }
    }

    /// The load that a worker gave by gRPC; nothing where there is no client or no answer.
    pub fn fetch_grpc_load(load: Option<WorkerLoadResponse>) -> (r: Option<WorkerLoadResponse>)
        ensures
            r == accepted_load(load),
    {
        match load {
            Some(response) => if response.loads.len() > 0 {
                Some(response)
            } else {
                None
            },
            None => None,
        }
    }
}

// ---------------------------------------------------------------------------
// Laws
// ---------------------------------------------------------------------------

/// Every answer counts once: as a success or as a failure.
pub proof fn law_answers_counted(responses: Seq<WorkerResponse>)
    ensures
        successes(responses).len() + failures(responses).len() == responses.len(),
    decreases responses.len(),
{
    if responses.len() > 0 {
        law_answers_counted(responses.drop_last());
    }
}

/// Where every worker did what it was asked, none is said to have failed, and the workers that
/// answered are given in the order of their answers.
pub proof fn law_all_succeeded(responses: Seq<WorkerResponse>)
    requires
        forall|i: int| 0 <= i < responses.len() ==> succeeded(#[trigger] responses[i]),
    ensures
        failures(responses).len() == 0,
        successes(responses) == responses.map_values(|r: WorkerResponse| r.url@),
    decreases responses.len(),
{
    if responses.len() > 0 {
        let rest = responses.drop_last();
        assert forall|i: int| 0 <= i < rest.len() implies succeeded(#[trigger] rest[i]) by {
            assert(succeeded(responses[i]));
        }
        law_all_succeeded(rest);
        assert(succeeded(responses[responses.len() - 1]));
        assert(successes(responses) =~= responses.map_values(|r: WorkerResponse| r.url@));
    } else {
        assert(successes(responses) =~= responses.map_values(|r: WorkerResponse| r.url@));
    }
}

/// A worker is asked by HTTP just where it is there and is reached by HTTP.
pub proof fn law_http_workers(workers: Seq<WorkerInfo>, worker: WorkerInfo)
    ensures
        http_workers(workers).contains(worker) <==> workers.contains(worker) && worker.connection_mode
            == ConnectionMode::Http,
        http_workers(workers).len() <= workers.len(),
    decreases workers.len(),
{
    if workers.len() > 0 {
        let rest = workers.drop_last();
        let last = workers.last();
        law_http_workers(rest, worker);
        assert(workers =~= rest.push(last));
        lemma_contains_push(rest, last, worker);
        lemma_contains_push(http_workers(rest), last, worker);
    }
}

/// What a row holds with one more behind it.
pub proof fn lemma_contains_push(workers: Seq<WorkerInfo>, last: WorkerInfo, worker: WorkerInfo)
    ensures
        workers.push(last).contains(worker) <==> workers.contains(worker) || worker == last,
{
    let all = workers.push(last);
    if workers.contains(worker) {
        let i = choose|i: int| 0 <= i < workers.len() && workers[i] == worker;
        assert(all[i] == worker);
    }
    if all.contains(worker) {
        let i = choose|i: int| 0 <= i < all.len() && all[i] == worker;
        if i < workers.len() {
            assert(workers[i] == worker);
        }
    }
    assert(all[workers.len() as int] == last);
}

/// Workers and their answers are dealt with one by one, in their order: those of two rows are those
/// of the first, and then those of the second.
pub proof fn law_answers_in_order(first: Seq<WorkerResponse>, second: Seq<WorkerResponse>)
    ensures
        successes(first + second) == successes(first) + successes(second),
        failures(first + second) == failures(first) + failures(second),
    decreases second.len(),
{
    if second.len() == 0 {
        assert(first + second =~= first);
        assert(successes(first) + Seq::<Seq<char>>::empty() =~= successes(first));
        assert(failures(first) + Seq::<(Seq<char>, Seq<char>)>::empty() =~= failures(first));
    } else {
        law_answers_in_order(first, second.drop_last());
        assert((first + second).drop_last() =~= first + second.drop_last());
        assert((first + second).last() == second.last());
        assert(successes(first + second) =~= successes(first) + successes(second));
        assert(failures(first + second) =~= failures(first) + failures(second));
    }
}

/// An answer with a status from 200 to 299 is a success of the worker that gave it; any other is a
/// failure of it, with the status and its number, or with the cause where there is no status.
pub proof fn law_answer(response: WorkerResponse)
    ensures
        ({
            let well = response.result matches Ok(status) && 200 <= status <= 299;
            let one = seq![response];
            &&& well ==> successes(one) == seq![response.url@] && failures(one).len() == 0
            &&& !well ==> successes(one).len() == 0 && failures(one).len() == 1 && failures(one)[0].0
                == response.url@
        }),
        response.result matches Err(cause) ==> failures(seq![response])[0].1 == cause@,
        response.result matches Ok(status) ==> (!(200 <= status <= 299) ==> ("HTTP "@ + decimal(
            status as nat,
        ) + " "@).is_prefix_of(failures(seq![response])[0].1)),
{
    let one = seq![response];
    assert(one.drop_last() =~= Seq::empty());
    assert(successes(one.drop_last()) =~= Seq::empty());
    assert(failures(one.drop_last()) =~= Seq::empty());
    assert(one.last() == response);
    if succeeded(response) {
        assert(successes(one) =~= seq![response.url@]);
    } else {
        assert(failures(one) =~= seq![(response.url@, failure_text(response))]);
        if let Ok(status) = response.result {
            let head = "HTTP "@ + decimal(status as nat) + " "@;
            let text = failure_text(response);
            assert(text.subrange(0, head.len() as int) =~= head);
        }
    }
}

/// What is said of a flush names how many caches were flushed, and where some were not, how many
/// these are.
pub proof fn law_flush_message(flushed: nat, not_flushed: nat)
    ensures
        contains(flush_message(flushed, not_flushed), decimal(flushed)),
        not_flushed > 0 ==> contains(flush_message(flushed, not_flushed), decimal(not_flushed)),
        not_flushed > 0 ==> contains(flush_message(flushed, not_flushed), " failed"@),
        not_flushed == 0 ==> "Successfully flushed"@.is_prefix_of(flush_message(flushed, not_flushed)),
{
    let text = flush_message(flushed, not_flushed);
    let a = decimal(flushed);
    let b = decimal(not_flushed);
    if not_flushed == 0 {
        reveal_strlit("Successfully flushed");
        reveal_strlit("Successfully flushed cache on all ");
        let n = "Successfully flushed cache on all "@.len() as int;
        assert(text.subrange(n, n + a.len()) =~= a);
        assert(occurs_at(text, a, n));
        assert(text.subrange(0, "Successfully flushed"@.len() as int) =~= "Successfully flushed"@);
    } else {
        let n = "Cache flush: "@.len() as int;
        let m = n + a.len() + " succeeded, "@.len();
        assert(text.subrange(n, n + a.len()) =~= a);
        assert(occurs_at(text, a, n));
        assert(text.subrange(m, m + b.len()) =~= b);
        assert(occurs_at(text, b, m));
        let e = m + b.len();
        assert(text.subrange(e, e + " failed"@.len()) =~= " failed"@);
        assert(occurs_at(text, " failed"@, e));
    }
}

/// Each worker that is reached by HTTP is asked once, in its place among the others, at its own URL
/// and with its own key; the others are not asked.
pub proof fn law_requests_in_order(
    first: Seq<WorkerInfo>,
    worker: WorkerInfo,
    second: Seq<WorkerInfo>,
    endpoint: Seq<char>,
    method: Method,
)
    ensures
        worker.connection_mode == ConnectionMode::Grpc ==> http_workers(first + seq![worker] + second)
            == http_workers(first) + http_workers(second),
        worker.connection_mode == ConnectionMode::Http ==> ({
            let asked = requests_to(http_workers(first + seq![worker] + second), endpoint, method);
            let n = http_workers(first).len() as int;
            &&& asked.len() == n + 1 + http_workers(second).len()
            &&& asked.take(n) == requests_to(http_workers(first), endpoint, method)
            &&& asked.skip(n + 1) == requests_to(http_workers(second), endpoint, method)
            &&& asked[n].url == worker.url@
            &&& asked[n].full_url == worker.url@ + seq!['/'] + endpoint
            &&& worker.api_key matches Some(key) ==> asked[n].api_key == Some(key@)
            &&& worker.api_key is None ==> asked[n].api_key is None
            &&& asked[n].method == method
        }),
{
    reveal_strlit("/");
    assert("/"@ =~= seq!['/']);
    let one = seq![worker];
    lemma_http_concat(first + one, second);
    lemma_http_concat(first, one);
    assert(one.drop_last() =~= Seq::empty());
    assert(http_workers(one.drop_last()) =~= Seq::empty());
    if worker.connection_mode == ConnectionMode::Http {
        assert(http_workers(one) =~= one);
        let all = http_workers(first + one + second);
        let n = http_workers(first).len() as int;
        let asked = requests_to(all, endpoint, method);
        assert(all[n] == worker);
        assert(asked.take(n) =~= requests_to(http_workers(first), endpoint, method));
        assert(asked.skip(n + 1) =~= requests_to(http_workers(second), endpoint, method));
    } else {
        assert(http_workers(one) =~= Seq::empty());
        assert(http_workers(first) + Seq::empty() =~= http_workers(first));
    }
}

/// The workers of two rows that are reached by HTTP.
proof fn lemma_http_concat(first: Seq<WorkerInfo>, second: Seq<WorkerInfo>)
    ensures
        http_workers(first + second) == http_workers(first) + http_workers(second),
    decreases second.len(),
{
    if second.len() == 0 {
        assert(first + second =~= first);
        assert(http_workers(first) + Seq::<WorkerInfo>::empty() =~= http_workers(first));
    } else {
        lemma_http_concat(first, second.drop_last());
        assert((first + second).drop_last() =~= first + second.drop_last());
        assert(http_workers(first + second) =~= http_workers(first) + http_workers(second));
    }
}

/// The tokens in use on the ranks add up; none are in use on no ranks, and those of one rank are
/// its own.
pub proof fn law_tokens_add_up(first: Seq<RankLoad>, second: Seq<RankLoad>, rank: RankLoad)
    ensures
        used_tokens(first + second) == used_tokens(first) + used_tokens(second),
        used_tokens(seq![rank]) == rank.num_used_tokens,
        used_tokens(Seq::empty()) == 0,
    decreases second.len(),
{
    let one = seq![rank];
    assert(one.drop_last() =~= Seq::empty());
    assert(used_tokens(one.drop_last()) == 0);
    if second.len() == 0 {
        assert(first + second =~= first);
    } else {
        law_tokens_add_up(first, second.drop_last(), rank);
        assert((first + second).drop_last() =~= first + second.drop_last());
    }
}

/// A worker that did not answer has the load -1, and is not among those whose load is known; one
/// that answered, with no rank below zero, is.
pub proof fn law_known_loads(
    before: Seq<WorkerLoadInfo>,
    info: WorkerLoadInfo,
    worker: WorkerInfo,
    details: Option<WorkerLoadResponse>,
)
    requires
        tells(info, worker, details),
    ensures
        info.worker@ == worker.url@,
        details is None ==> info.load == -1 && known_loads(before.push(info)) == known_loads(before),
        details matches Some(response) ==> info.load == used_tokens(response.loads@),
        details matches Some(response) ==> ((forall|i: int|
            0 <= i < response.loads@.len() ==> (#[trigger] response.loads@[i]).num_used_tokens >= 0)
            ==> known_loads(before.push(info)) == known_loads(before) + 1),
        known_loads(Seq::empty()) == 0,
        worker.worker_type == WorkerType::Regular ==> info.worker_type is None,
        worker.worker_type == WorkerType::Prefill ==> optional_text(info.worker_type) == Some("prefill"@),
        worker.worker_type == WorkerType::Decode ==> optional_text(info.worker_type) == Some("decode"@),
{
    assert(before.push(info).drop_last() =~= before);
    if let Some(response) = details {
        if forall|i: int| 0 <= i < response.loads@.len() ==> (#[trigger] response.loads@[i]).num_used_tokens >= 0 {
            lemma_tokens_up(response.loads@);
        }
    }
}

/// Where no rank is below zero, neither are all of them.
proof fn lemma_tokens_up(loads: Seq<RankLoad>)
    requires
        forall|i: int| 0 <= i < loads.len() ==> (#[trigger] loads[i]).num_used_tokens >= 0,
    ensures
        used_tokens(loads) >= 0,
    decreases loads.len(),
{
    if loads.len() > 0 {
        assert(loads[loads.len() - 1].num_used_tokens >= 0);
        assert forall|i: int| 0 <= i < loads.drop_last().len() implies (#[trigger] loads.drop_last()[i]).num_used_tokens
            >= 0 by {
            assert(loads[i].num_used_tokens >= 0);
        }
        lemma_tokens_up(loads.drop_last());
    }
}

/// A load with at least one rank is taken as it is given; one without ranks is as good as none.
pub proof fn law_accepted_load(response: WorkerLoadResponse)
    ensures
        response.loads@.len() > 0 ==> accepted_load(Some(response)) == Some(response),
        response.loads@.len() == 0 ==> accepted_load(Some(response)) is None,
        accepted_load(None) is None,
{
}

/// A status is written as its number and its phrase, or as its number and a note that it has none.
pub proof fn law_status_line(status: u16, phrase: Seq<char>)
    ensures
        status_line(status, Some(phrase)) == decimal(status as nat) + seq![' '] + phrase,
        status_line(status, None) == decimal(status as nat) + seq![' '] + "<unknown status code>"@,
{
    reveal_strlit(" ");
    assert(" "@ =~= seq![' ']);
}

/// The URLs of all workers are given, in their order.
pub proof fn law_worker_urls(workers: Seq<WorkerInfo>, i: int)
    requires
        0 <= i < workers.len(),
    ensures
        worker_urls(workers).len() == workers.len(),
        worker_urls(workers)[i] == workers[i].url@,
{
}

/// Some worker is reached by gRPC just where not all are reached by HTTP.
pub proof fn law_has_grpc(workers: Seq<WorkerInfo>)
    ensures
        has_grpc(workers) <==> http_workers(workers).len() < workers.len(),
        http_workers(workers).len() <= workers.len(),
    decreases workers.len(),
{
    if workers.len() > 0 {
        let rest = workers.drop_last();
        law_has_grpc(rest);
        if has_grpc(rest) {
            let i = choose|i: int|
                0 <= i < rest.len() && (#[trigger] rest[i]).connection_mode == ConnectionMode::Grpc;
            assert(workers[i].connection_mode == ConnectionMode::Grpc);
        }
        if has_grpc(workers) {
            let i = choose|i: int|
                0 <= i < workers.len() && (#[trigger] workers[i]).connection_mode == ConnectionMode::Grpc;
            if i < rest.len() {
                assert(rest[i].connection_mode == ConnectionMode::Grpc);
            }
        }
        assert(workers[workers.len() - 1] == workers.last());
    }
}

/// A worker has five seconds to answer, and thirty-two requests go out at a time.
pub proof fn law_request_limits()
    ensures
        REQUEST_TIMEOUT_SECS == 5,
        MAX_CONCURRENT == 32,
{
}

} // verus!
