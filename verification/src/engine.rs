//! The metrics of the engines behind the workers, and the text in which they are served.

use vstd::prelude::*;
use vstd::string::*;

use crate::text::{concat2, concat3};
#[allow(unused_imports)]
use crate::text::{contains, occurs_at};
use crate::workers::{
    fan_out, ConnectionMode, Method, WorkerManager, WorkerRegistry, WorkerRequest,
};
#[allow(unused_imports)]
use crate::workers::{has_grpc, http_workers, is_success, requests_to, requests_view, text_pairs};

verus! {

/// How many WebSocket connections the metrics endpoint has at a time, where nothing else is
/// configured.
pub const DEFAULT_MAX_WS_CONNECTIONS: usize = 32;

/// The type of the content that the metrics endpoint serves.
pub const METRICS_CONTENT_TYPE: &'static str = "text/plain; version=0.0.4; charset=utf-8";

/// The metrics of the engines, or why there are none.
#[derive(Debug, PartialEq, Eq)]
pub enum EngineMetricsResult {
    Metrics(String),
    Failure(String),
}

/// What an [`EngineMetricsResult`] holds.
pub enum MetricsView {
    Metrics(Seq<char>),
    Failure(Seq<char>),
}

impl View for EngineMetricsResult {
    type V = MetricsView;

    open spec fn view(&self) -> MetricsView {
        match self {
            EngineMetricsResult::Metrics(text) => MetricsView::Metrics(text@),
            EngineMetricsResult::Failure(message) => MetricsView::Failure(message@),
        }
    }
}

/// The metrics that were had from one place, and the labels that they get.
#[derive(Debug, PartialEq, Eq)]
pub struct MetricPack {
    pub labels: Vec<(String, String)>,
    pub metrics_text: String,
}

/// What a [`MetricPack`] holds.
pub struct PackView {
    pub labels: Seq<(Seq<char>, Seq<char>)>,
    pub metrics_text: Seq<char>,
}

impl View for MetricPack {
    type V = PackView;

    open spec fn view(&self) -> PackView {
        PackView { labels: text_pairs(self.labels@), metrics_text: self.metrics_text@ }
    }
}

/// What packs hold.
pub open spec fn packs_view(packs: Seq<MetricPack>) -> Seq<PackView> {
    packs.map_values(|p: MetricPack| p@)
}

/// The answer of a worker that was asked for its metrics: its status, if there was an answer,
/// and the text of it, if it could be read.
#[derive(Debug)]
pub struct MetricsReply {
    pub url: String,
    pub status: Option<u16>,
    pub text: Option<String>,
}

/// What is to be asked for: the metrics of the workers that are reached by HTTP, and those that
/// the workers that are reached by gRPC leave with the gateway.
#[derive(Debug, PartialEq, Eq)]
pub struct MetricsPlan {
    pub requests: Vec<WorkerRequest>,
    pub grpc: bool,
}

/// The metrics in an answer, under the address of the worker.
pub open spec fn pack_of(reply: MetricsReply) -> Option<PackView> {
    match (reply.status, reply.text) {
        (Some(status), Some(text)) => if is_success(status) {
            Some(PackView { labels: seq![("worker_addr"@, reply.url@)], metrics_text: text@ })
        } else {
            None
        },
        _ => None,
    }
}

/// The metrics in the answers.
pub open spec fn packs_of(replies: Seq<MetricsReply>) -> Seq<PackView>
    decreases replies.len(),
{
    if replies.len() == 0 {
        Seq::empty()
    } else {
        match pack_of(replies.last()) {
            Some(pack) => packs_of(replies.drop_last()).push(pack),
            None => packs_of(replies.drop_last()),
        }
    }
}

/// All metrics: those in the answers, and behind them those of the workers that are reached by
/// gRPC, without labels, where they were asked for and had.
pub open spec fn all_packs(replies: Seq<MetricsReply>, grpc: Option<Result<String, String>>) -> Seq<PackView> {
    match grpc {
        Some(Ok(text)) => packs_of(replies).push(
            PackView { labels: Seq::empty(), metrics_text: text@ },
        ),
        _ => packs_of(replies),
    }
}

/// What is served, where `aggregated` is what the packs were made into, if there were any.
pub open spec fn engine_result(workers: nat, aggregated: Option<Result<String, String>>) -> MetricsView {
    if workers == 0 {
        MetricsView::Failure("No available workers"@)
    } else {
        match aggregated {
            None => MetricsView::Failure("All backend requests failed"@),
            Some(Ok(text)) => MetricsView::Metrics(text@),
            Some(Err(cause)) => MetricsView::Failure("Failed to aggregate metrics: "@ + cause@),
        }
    }
}

/// The status of a reply.
pub open spec fn status_of(result: MetricsView) -> u16 {
    match result {
        MetricsView::Metrics(_) => 200,
        MetricsView::Failure(_) => 500,
    }
}

/// The body of a reply.
pub open spec fn body_of(result: MetricsView) -> Seq<char> {
    match result {
        MetricsView::Metrics(text) => text,
        MetricsView::Failure(message) => message,
    }
}

/// What the metrics endpoint serves: the metrics of the gateway, and behind them those of the
/// engines, if there are any.
pub open spec fn metrics_text(own: Seq<char>, engines: Option<MetricsView>) -> Seq<char> {
    own + "\n"@ + match engines {
        Some(MetricsView::Metrics(text)) => text,
        _ => ""@,
    }
}

impl EngineMetricsResult {
    /// The status and the body of the reply.
    pub fn into_response(self) -> (r: (u16, String))
        ensures
            r.0 == status_of(self@),
            r.1@ == body_of(self@),
    {
        match self {
            EngineMetricsResult::Metrics(text) => (200, text),
            EngineMetricsResult::Failure(message) => (500, message),
        }
    }
}

/// What the metrics endpoint serves.
pub fn metrics_body(own: &str, engines: Option<EngineMetricsResult>) -> (r: String)
    ensures
        r@ == metrics_text(
            own@,
            match engines {
                Some(result) => Some(result@),
                None => None,
            },
        ),
{
    match engines {
        Some(EngineMetricsResult::Metrics(text)) => concat3(own, "\n", text.as_str()),
        _ => concat3(own, "\n", ""),
    }
}

impl WorkerManager {
    /// What is to be asked for, where there are workers.
    pub fn metrics_plan(worker_registry: &WorkerRegistry) -> (r: Option<MetricsPlan>)
        ensures
            r is Some <==> worker_registry.workers@.len() > 0,
            r matches Some(plan) ==> {
                &&& requests_view(plan.requests@) == requests_to(
                    http_workers(worker_registry.workers@),
                    "metrics"@,
                    Method::Get,
                )
                &&& plan.grpc == has_grpc(worker_registry.workers@)
            },
    {
        let n: usize = worker_registry.workers.len();
        if n == 0 {
            return None;
        }
        let requests: Vec<WorkerRequest> = fan_out(&worker_registry.workers, "metrics", Method::Get);
        let mut grpc: bool = false;
        let mut i: usize = 0;
        while i < n
            invariant
                n == worker_registry.workers@.len(),
                i <= n,
                grpc <==> exists|j: int|
                    0 <= j < i && (#[trigger] worker_registry.workers@[j]).connection_mode
                        == ConnectionMode::Grpc,
            decreases n - i,
        {
            if worker_registry.workers[i].connection_mode == ConnectionMode::Grpc {
                grpc = true;
            }
            i = i + 1;
        }
        Some(MetricsPlan { requests, grpc })
    }

    /// All metrics that were had; nothing where there are none.
    pub fn collect_packs(replies: Vec<MetricsReply>, grpc: Option<Result<String, String>>) -> (r: Option<
        Vec<MetricPack>,
    >)
        ensures
            r is Some <==> all_packs(replies@, grpc).len() > 0,
            r matches Some(packs) ==> packs_view(packs@) == all_packs(replies@, grpc),
    {
        let mut packs: Vec<MetricPack> = Vec::new();
        let mut i: usize = 0;
        let ghost all = replies@;
        assert(packs_view(packs@) =~= packs_of(all.take(0)));
        while i < replies.len()
            invariant
                all == replies@,
                i <= replies@.len(),
                packs_view(packs@) == packs_of(all.take(i as int)),
            decreases replies.len() - i,
        {
            assert(all.take(i + 1).drop_last() =~= all.take(i as int));
            if let (Some(status), Some(text)) = (replies[i].status, &replies[i].text) {
                if 200 <= status && status < 300 {
                    let mut labels: Vec<(String, String)> = Vec::new();
                    labels.push(("worker_addr".to_owned(), replies[i].url.clone()));
                    assert(text_pairs(labels@) =~= seq![("worker_addr"@, replies@[i as int].url@)]);
                    let pack: MetricPack = MetricPack { labels, metrics_text: text.clone() };
                    let ghost held = packs@;
                    packs.push(pack);
                    assert(packs_view(packs@) =~= packs_view(held).push(pack@));
                }
            }
            i = i + 1;
        }
        assert(all.take(i as int) =~= all);
        if let Some(Ok(text)) = grpc {
            let pack: MetricPack = MetricPack { labels: Vec::new(), metrics_text: text };
            assert(text_pairs(pack.labels@) =~= Seq::empty());
            let ghost held = packs@;
            packs.push(pack);
            assert(packs_view(packs@) =~= packs_view(held).push(pack@));
        }
        if packs.len() > 0 {
            Some(packs)
        } else {
            None
        }
    }

    /// The metrics of the engines, where `aggregated` is what the packs were made into, if there
    /// were any.
    pub fn get_engine_metrics(
        worker_registry: &WorkerRegistry,
        aggregated: Option<Result<String, String>>,
    ) -> (r: EngineMetricsResult)
        ensures
            r@ == engine_result(worker_registry.workers@.len(), aggregated),
    {
        if worker_registry.workers.len() == 0 {
            return EngineMetricsResult::Failure("No available workers".to_owned());
        }
        match aggregated {
            None => EngineMetricsResult::Failure("All backend requests failed".to_owned()),
            Some(Ok(text)) => EngineMetricsResult::Metrics(text),
            Some(Err(cause)) => EngineMetricsResult::Failure(
                concat2("Failed to aggregate metrics: ", cause.as_str()),
            ),
        }
    }
}

// ---------------------------------------------------------------------------
// Laws
// ---------------------------------------------------------------------------

/// The metrics of the gateway are served in any case, and first; engines that give none, for
/// whatever reason, leave nothing behind them but the end of the line.
pub proof fn law_own_metrics_served(own: Seq<char>, engines: Option<MetricsView>)
    ensures
        (own + "\n"@).is_prefix_of(metrics_text(own, engines)),
        !(engines matches Some(MetricsView::Metrics(_))) ==> metrics_text(own, engines) == own + "\n"@,
{
    reveal_strlit("");
    assert(own + "\n"@ + ""@ =~= own + "\n"@);
}

/// Metrics that could not be had of some workers do not keep those of the others back: what each
/// answer gives stands among all that is had, whatever the other answers are.
pub proof fn law_pack_kept(
    replies: Seq<MetricsReply>,
    i: int,
    grpc: Option<Result<String, String>>,
)
    requires
        0 <= i < replies.len(),
        pack_of(replies[i]) is Some,
    ensures
        all_packs(replies, grpc).contains(pack_of(replies[i])->0),
        all_packs(replies, grpc).len() > 0,
{
    lemma_pack_kept(replies, i);
    let pack = pack_of(replies[i])->0;
    let k = choose|k: int| 0 <= k < packs_of(replies).len() && packs_of(replies)[k] == pack;
    assert(all_packs(replies, grpc)[k] == pack);
}

proof fn lemma_pack_kept(replies: Seq<MetricsReply>, i: int)
    requires
        0 <= i < replies.len(),
        pack_of(replies[i]) is Some,
    ensures
        packs_of(replies).contains(pack_of(replies[i])->0),
    decreases replies.len(),
{
    let pack = pack_of(replies[i])->0;
    let rest = replies.drop_last();
    if i == replies.len() - 1 {
        assert(packs_of(replies)[packs_of(rest).len() as int] == pack);
    } else {
        lemma_pack_kept(rest, i);
        let k = choose|k: int| 0 <= k < packs_of(rest).len() && packs_of(rest)[k] == pack;
        assert(packs_of(replies)[k] == pack);
    }
}

/// The answers are dealt with one by one, in their order.
pub proof fn law_packs_in_order(first: Seq<MetricsReply>, second: Seq<MetricsReply>)
    ensures
        packs_of(first + second) == packs_of(first) + packs_of(second),
    decreases second.len(),
{
    if second.len() == 0 {
        assert(first + second =~= first);
        assert(packs_of(first) + Seq::<PackView>::empty() =~= packs_of(first));
    } else {
        law_packs_in_order(first, second.drop_last());
        assert((first + second).drop_last() =~= first + second.drop_last());
        assert(packs_of(first + second) =~= packs_of(first) + packs_of(second));
    }
}

/// An answer with a status from 200 to 299 whose text could be read gives that text, under one
/// label with the address of the worker; any other gives nothing.
pub proof fn law_pack(reply: MetricsReply)
    ensures
        ({
            let packs = packs_of(seq![reply]);
            let well = reply.status matches Some(status) && 200 <= status <= 299;
            &&& well && reply.text is Some ==> {
                &&& packs.len() == 1
                &&& packs[0].metrics_text == reply.text->0@
                &&& packs[0].labels.len() == 1
                &&& packs[0].labels[0].0 == "worker_addr"@
                &&& packs[0].labels[0].1 == reply.url@
            }
            &&& !well || reply.text is None ==> packs.len() == 0
        }),
{
    let one = seq![reply];
    assert(one.drop_last() =~= Seq::empty());
    assert(packs_of(one.drop_last()) =~= Seq::empty());
}

/// What the workers that are reached by gRPC leave with the gateway stands behind the answers,
/// without labels; where it was not had, the answers stay.
pub proof fn law_grpc_pack(replies: Seq<MetricsReply>, text: String, cause: String)
    ensures
        all_packs(replies, None) == packs_of(replies),
        all_packs(replies, Some(Err(cause))) == packs_of(replies),
        all_packs(replies, Some(Ok(text))).len() == packs_of(replies).len() + 1,
        all_packs(replies, Some(Ok(text))).drop_last() == packs_of(replies),
        all_packs(replies, Some(Ok(text))).last().metrics_text == text@,
        all_packs(replies, Some(Ok(text))).last().labels.len() == 0,
{
    assert(all_packs(replies, Some(Ok(text))).drop_last() =~= packs_of(replies));
}

/// The metrics of the engines are served as they were put together; without workers, without
/// metrics, and where they could not be put together, a failure is, with the cause where there is
/// one.
pub proof fn law_engine_result(workers: nat, text: String, cause: String)
    ensures
        workers > 0 ==> engine_result(workers, Some(Ok(text))) == MetricsView::Metrics(text@),
        engine_result(workers, None) is Failure,
        engine_result(workers, Some(Err(cause))) is Failure,
        engine_result(0, Some(Ok(text))) is Failure,
        workers > 0 ==> contains(body_of(engine_result(workers, Some(Err(cause)))), cause@),
        status_of(MetricsView::Metrics(text@)) == 200,
        status_of(MetricsView::Failure(text@)) == 500,
        body_of(MetricsView::Metrics(text@)) == text@,
        body_of(MetricsView::Failure(text@)) == text@,
{
    let said = "Failed to aggregate metrics: "@ + cause@;
    let n = "Failed to aggregate metrics: "@.len() as int;
    assert(said.subrange(n, n + cause@.len()) =~= cause@);
    assert(occurs_at(said, cause@, n));
}

/// The metrics of the engines stand on a line of their own behind those of the gateway.
pub proof fn law_engine_metrics_served(own: Seq<char>, text: Seq<char>)
    ensures
        metrics_text(own, Some(MetricsView::Metrics(text))) == own + seq!['\n'] + text,
{
    reveal_strlit("\n");
    assert("\n"@ =~= seq!['\n']);
}

} // verus!
