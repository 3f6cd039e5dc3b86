//! The loads of the workers, group by group.
//!
//! Each group of workers is polled at an interval of its own. [`LoadMonitor`] knows which groups
//! are polled, and holds the loads that came in.

use std::collections::HashMap;

use vstd::prelude::*;
use vstd::string::*;

use crate::table::Table;
#[allow(unused_imports)]
use crate::table::{distinct_entries, entries_map, lemma_added};
use crate::text::same_text;
#[allow(unused_imports)]
use crate::text::texts;
use crate::workers::{
    ConnectionMode, RankLoad, WorkerInfo, WorkerLoadResponse, WorkerRegistry, WorkerType,
};
#[allow(unused_imports)]
use crate::workers::lemma_contains_push;

verus! {

broadcast use vstd::std_specs::hash::group_hash_axioms;

// ---------------------------------------------------------------------------
// Groups
// ---------------------------------------------------------------------------

/// A group of workers: those of one model that do the same and are reached in the same way.
#[derive(Debug, PartialEq, Eq)]
pub struct WorkerGroupKey {
    pub model_id: String,
    pub worker_type: WorkerType,
    pub connection_mode: ConnectionMode,
}

/// What a [`WorkerGroupKey`] holds.
pub struct KeyView {
    pub model_id: Seq<char>,
    pub worker_type: WorkerType,
    pub connection_mode: ConnectionMode,
}

impl View for WorkerGroupKey {
    type V = KeyView;

    open spec fn view(&self) -> KeyView {
        KeyView {
            model_id: self.model_id@,
            worker_type: self.worker_type,
            connection_mode: self.connection_mode,
        }
    }
}

/// The group of a worker.
pub open spec fn group_of(worker: WorkerInfo) -> KeyView {
    KeyView {
        model_id: worker.model_id@,
        worker_type: worker.worker_type,
        connection_mode: worker.connection_mode,
    }
}

/// The workers of a group, in their order.
pub open spec fn members(workers: Seq<WorkerInfo>, key: KeyView) -> Seq<WorkerInfo>
    decreases workers.len(),
{
    if workers.len() == 0 {
        Seq::empty()
    } else if group_of(workers.last()) == key {
        members(workers.drop_last(), key).push(workers.last())
    } else {
        members(workers.drop_last(), key)
    }
}

/// What groups hold, and their intervals.
pub open spec fn groups_view(groups: Seq<(WorkerGroupKey, u64)>) -> Seq<(KeyView, u64)> {
    groups.map_values(|g: (WorkerGroupKey, u64)| (g.0@, g.1))
}

/// The group is polled.
pub open spec fn is_polled(groups: Seq<(KeyView, u64)>, key: KeyView) -> bool {
    exists|i: int| 0 <= i < groups.len() && (#[trigger] groups[i]).0 == key
}

/// No group is polled twice.
pub open spec fn distinct_groups(groups: Seq<(KeyView, u64)>) -> bool {
    forall|i: int, j: int|
        0 <= i < j < groups.len() ==> (#[trigger] groups[i]).0 != (#[trigger] groups[j]).0
}

/// `groups` without the group `key`.
pub open spec fn without_group(groups: Seq<(KeyView, u64)>, key: KeyView) -> Seq<(KeyView, u64)>
    decreases groups.len(),
{
    if groups.len() == 0 {
        Seq::empty()
    } else if groups.last().0 == key {
        without_group(groups.drop_last(), key)
    } else {
        without_group(groups.drop_last(), key).push(groups.last())
    }
}

/// The interval in seconds at which a group is polled: its own where it has one, or else the
/// default; at least a second.
pub open spec fn poll_interval(default_interval: u64, interval: Option<u64>) -> u64 {
    let wanted = match interval {
        Some(secs) => secs,
        None => default_interval,
    };
    if wanted >= 1 {
        wanted
    } else {
        1
    }
}

/// Whether the two are the same group.
fn same_key(a: &WorkerGroupKey, b: &WorkerGroupKey) -> (r: bool)
    ensures
        r == (a@ == b@),
{
    same_text(a.model_id.as_str(), b.model_id.as_str()) && a.worker_type == b.worker_type
        && a.connection_mode == b.connection_mode
}

// ---------------------------------------------------------------------------
// Loads
// ---------------------------------------------------------------------------

/// The load of each rank: the last that is given of it.
pub open spec fn rank_loads(loads: Seq<RankLoad>) -> Map<i64, i64>
    decreases loads.len(),
{
    if loads.len() == 0 {
        Map::empty()
    } else {
        rank_loads(loads.drop_last()).insert(
            loads.last().dp_rank as i64,
            loads.last().num_used_tokens as i64,
        )
    }
}

/// The loads that were had, by the URL of the worker: the last that is given of it.
pub open spec fn had_loads(results: Seq<(String, Option<WorkerLoadResponse>)>) -> Map<
    Seq<char>,
    WorkerLoadResponse,
>
    decreases results.len(),
{
    if results.len() == 0 {
        Map::empty()
    } else {
        match results.last().1 {
            Some(load) => had_loads(results.drop_last()).insert(results.last().0@, load),
            None => had_loads(results.drop_last()),
        }
    }
}

impl WorkerLoadResponse {
    /// The load of each rank.
    pub fn dp_rank_loads(&self) -> (r: HashMap<i64, i64>)
        ensures
            r@ == rank_loads(self.loads@),
    {
        let mut ranks: HashMap<i64, i64> = HashMap::new();
        let mut i: usize = 0;
        assert(ranks@ =~= rank_loads(self.loads@.take(0)));
        while i < self.loads.len()
            invariant
                i <= self.loads@.len(),
                ranks@ == rank_loads(self.loads@.take(i as int)),
            decreases self.loads.len() - i,
        {
            assert(self.loads@.take(i + 1).drop_last() =~= self.loads@.take(i as int));
            ranks.insert(self.loads[i].dp_rank as i64, self.loads[i].num_used_tokens as i64);
            i = i + 1;
        }
        assert(self.loads@.take(i as int) =~= self.loads@);
        ranks
    }
}

/// The loads that were had, by the URL of the worker.
pub fn collect_group_loads(results: Vec<(String, Option<WorkerLoadResponse>)>) -> (r: Table<
    WorkerLoadResponse,
>)
    ensures
        r.wf(),
        r@ == had_loads(results@),
{
    let mut loads: Table<WorkerLoadResponse> = Table::new();
    let ghost all = results@;
    assert(had_loads(all.take(0)) =~= Map::empty());
    for result in it: results
        invariant
            it.seq() == all,
            loads.wf(),
            loads@ == had_loads(all.take(it.index() as int)),
    {
        let ghost i = it.index() as int;
        assert(result == all[i]);
        assert(all.take(i + 1).drop_last() =~= all.take(i));
        let (url, response): (String, Option<WorkerLoadResponse>) = result;
        if let Some(load) = response {
            loads.insert(url, load);
        }
    }
    assert(all.take(all.len() as int) =~= all);
    loads
}

/// The loads of the ranks of each worker.
#[derive(Debug)]
pub struct WorkerLoadManager {
    pub(crate) dp_loads: Table<HashMap<i64, i64>>,
}

impl WorkerLoadManager {
    /// The loads of the ranks of each worker.
    pub closed spec fn view(&self) -> Map<Seq<char>, HashMap<i64, i64>> {
        self.dp_loads@
    }

    /// Each worker stands once.
    pub closed spec fn wf(&self) -> bool {
        self.dp_loads.wf()
    }

    /// No loads yet.
    pub fn new() -> (r: Self)
        ensures
            r.wf(),
            r@ == Map::<Seq<char>, HashMap<i64, i64>>::empty(),
    {
        WorkerLoadManager { dp_loads: Table::new() }
    }

    /// The loads of the ranks of a worker.
    pub fn get(&self, url: &str) -> (r: Option<&HashMap<i64, i64>>)
        requires
            self.wf(),
        ensures
            r is Some <==> self@.dom().contains(url@),
            r matches Some(ranks) ==> *ranks == self@[url@],
    {
        self.dp_loads.get(url)
    }

    /// Takes in the loads of workers.
    pub fn update_dp_loads(&mut self, loads: &Table<WorkerLoadResponse>)
        requires
            old(self).wf(),
            loads.wf(),
        ensures
            final(self).wf(),
            ranks_taken(old(self)@, loads@, final(self)@),
    {
        let ghost before = self@;
        let ghost all = loads.entries@;
        let mut i: usize = 0;
        assert(entries_map(all.take(0)) =~= Map::empty());
        assert(before.dom().union(Set::empty()) =~= before.dom());
        while i < loads.entries.len()
            invariant
                all == loads.entries@,
                distinct_entries(all),
                i <= all.len(),
                self.wf(),
                ranks_taken(before, entries_map(all.take(i as int)), self@),
            decreases loads.entries.len() - i,
        {
            let ghost held = self@;
            let ranks: HashMap<i64, i64> = loads.entries[i].1.dp_rank_loads();
            let ghost given = ranks;
            self.dp_loads.insert(loads.entries[i].0.clone(), ranks);
            proof {
                let entry = all[i as int];
                assert(self@ == held.insert(entry.0@, given));
                assert(all.take(i + 1) =~= all.take(i as int).push(entry));
                lemma_added(all.take(i as int), entry);
                assert(self@.dom() =~= before.dom().union(entries_map(all.take(i + 1)).dom()));
            }
            i = i + 1;
        }
        assert(all.take(i as int) =~= all);
    }

    /// Forgets the loads of workers.
    pub fn remove_workers(&mut self, urls: &[String])
        requires
            old(self).wf(),
        ensures
            final(self).wf(),
            final(self)@ == old(self)@.remove_keys(texts(urls@).to_set()),
    {
        self.dp_loads.remove_all(urls);
    }
}

/// `after` is `before` with the loads of the ranks of the workers in `loads`, in place of those
/// that were there.
pub open spec fn ranks_taken(
    before: Map<Seq<char>, HashMap<i64, i64>>,
    loads: Map<Seq<char>, WorkerLoadResponse>,
    after: Map<Seq<char>, HashMap<i64, i64>>,
) -> bool {
    &&& after.dom() == before.dom().union(loads.dom())
    &&& forall|url: Seq<char>| #[trigger]
        after.dom().contains(url) ==> if loads.dom().contains(url) {
            after[url]@ == rank_loads(loads[url].loads@)
        } else {
            after[url] == before[url]
        }
}

// ---------------------------------------------------------------------------
// The monitor
// ---------------------------------------------------------------------------

/// The groups that are polled, and the loads that came in.
#[derive(Debug)]
pub struct LoadMonitor {
    pub(crate) default_interval: u64,
    pub(crate) groups: Vec<(WorkerGroupKey, u64)>,
    pub(crate) loads: Table<WorkerLoadResponse>,
    pub worker_load_manager: WorkerLoadManager,
}

/// What a [`LoadMonitor`] holds.
pub struct MonitorView {
    pub default_interval: u64,
    pub groups: Seq<(KeyView, u64)>,
    pub loads: Map<Seq<char>, WorkerLoadResponse>,
    pub dp_loads: Map<Seq<char>, HashMap<i64, i64>>,
}

impl View for LoadMonitor {
    type V = MonitorView;

    closed spec fn view(&self) -> MonitorView {
        MonitorView {
            default_interval: self.default_interval,
            groups: groups_view(self.groups@),
            loads: self.loads@,
            dp_loads: self.worker_load_manager@,
        }
    }
}

/// A load of a worker of the group has come in at this tick: the loads of its workers are the
/// ones that came in, and no others.
pub open spec fn merged(
    before: Map<Seq<char>, WorkerLoadResponse>,
    urls: Set<Seq<char>>,
    group_loads: Map<Seq<char>, WorkerLoadResponse>,
) -> Map<Seq<char>, WorkerLoadResponse> {
    before.remove_keys(urls).union_prefer_right(group_loads)
}

/// Whether the loads are to be fetched at a tick: some policy uses them.
pub fn needs_loads(power_of_two_policies: usize, has_dp_rank_policy: bool) -> (r: bool)
    ensures
        r == (power_of_two_policies > 0 || has_dp_rank_policy),
{
    power_of_two_policies > 0 || has_dp_rank_policy
}

/// The workers of a group.
pub fn group_workers<'a>(worker_registry: &'a WorkerRegistry, key: &WorkerGroupKey) -> (r: Vec<
    &'a WorkerInfo,
>)
    ensures
        r@.map_values(|w: &WorkerInfo| *w) == members(worker_registry.workers@, key@),
{
    let mut found: Vec<&'a WorkerInfo> = Vec::new();
    let mut i: usize = 0;
    let ghost all = worker_registry.workers@;
    assert(found@.map_values(|w: &WorkerInfo| *w) =~= members(all.take(0), key@));
    while i < worker_registry.workers.len()
        invariant
            all == worker_registry.workers@,
            i <= all.len(),
            found@.map_values(|w: &WorkerInfo| *w) == members(all.take(i as int), key@),
        decreases worker_registry.workers.len() - i,
    {
        assert(all.take(i + 1).drop_last() =~= all.take(i as int));
        let worker: &'a WorkerInfo = &worker_registry.workers[i];
        if same_text(worker.model_id.as_str(), key.model_id.as_str()) && worker.worker_type
            == key.worker_type && worker.connection_mode == key.connection_mode {
            let ghost held = found@;
            found.push(worker);
            assert(found@.map_values(|w: &WorkerInfo| *w) =~= held.map_values(|w: &WorkerInfo| *w).push(
                *worker,
            ));
        }
        i = i + 1;
    }
    assert(all.take(i as int) =~= all);
    found
}

impl LoadMonitor {
    /// No group is polled twice, and each worker stands once in the loads.
    pub closed spec fn wf(&self) -> bool {
        &&& distinct_groups(groups_view(self.groups@))
        &&& self.loads.wf()
        &&& self.worker_load_manager.wf()
    }

    /// A monitor that polls no group.
    pub fn new(default_interval_secs: u64) -> (r: Self)
        ensures
            r.wf(),
            r@.default_interval == default_interval_secs,
            r@.groups == Seq::<(KeyView, u64)>::empty(),
            r@.loads == Map::<Seq<char>, WorkerLoadResponse>::empty(),
            r@.dp_loads == Map::<Seq<char>, HashMap<i64, i64>>::empty(),
    {
        let monitor: LoadMonitor = LoadMonitor {
            default_interval: default_interval_secs,
            groups: Vec::new(),
            loads: Table::new(),
            worker_load_manager: WorkerLoadManager::new(),
        };
        assert(groups_view(monitor.groups@) =~= Seq::empty());
        monitor
    }

    /// The position of a group.
    fn position(&self, key: &WorkerGroupKey) -> (r: Option<usize>)
        ensures
            r is Some <==> is_polled(self@.groups, key@),
            r matches Some(i) ==> i < self.groups@.len() && self.groups@[i as int].0@ == key@,
    {
        let mut i: usize = 0;
        while i < self.groups.len()
            invariant
                i <= self.groups@.len(),
                forall|j: int| 0 <= j < i ==> (#[trigger] self@.groups[j]).0 != key@,
            decreases self.groups.len() - i,
        {
            assert(self@.groups[i as int].0 == self.groups@[i as int].0@);
            if same_key(&self.groups[i].0, key) {
                return Some(i);
            }
            i = i + 1;
        }
        None
    }

    /// A group is there: its interval in seconds, if it is to be polled from now on; nothing
    /// where it is polled already.
    pub fn on_group_added(&mut self, key: WorkerGroupKey, interval: Option<u64>) -> (r: Option<u64>)
        requires
            old(self).wf(),
        ensures
            final(self).wf(),
            is_polled(old(self)@.groups, key@) ==> r is None && final(self)@ == old(self)@,
            !is_polled(old(self)@.groups, key@) ==> {
                let secs = poll_interval(old(self)@.default_interval, interval);
                &&& r == Some(secs)
                &&& final(self)@ == (MonitorView {
                    groups: old(self)@.groups.push((key@, secs)),
                    ..old(self)@
                })
            },
    {
        if self.position(&key).is_some() {
            return None;
        }
        let wanted: u64 = match interval {
            Some(secs) => secs,
            None => self.default_interval,
        };
        let secs: u64 = if wanted >= 1 {
            wanted
        } else {
            1
        };
        let ghost before = groups_view(self.groups@);
        let ghost added = key@;
        self.groups.push((key, secs));
        assert(groups_view(self.groups@) =~= before.push((added, secs)));
        proof {
            let after = groups_view(self.groups@);
            assert forall|i: int, j: int| 0 <= i < j < after.len() implies (#[trigger] after[i]).0 != (
            #[trigger] after[j]).0 by {
                assert(before[i].0 != added);
                if j < before.len() {
                    assert(before[i].0 != before[j].0);
                }
            }
        }
        Some(secs)
    }

    /// A group is gone, with the workers at these URLs: it is polled no more, and their loads
    /// are forgotten. Says whether it was polled.
    pub fn on_group_removed(&mut self, key: &WorkerGroupKey, worker_urls: &[String]) -> (r: bool)
        requires
            old(self).wf(),
        ensures
            final(self).wf(),
            r == is_polled(old(self)@.groups, key@),
            final(self)@ == (MonitorView {
                default_interval: old(self)@.default_interval,
                groups: without_group(old(self)@.groups, key@),
                loads: old(self)@.loads.remove_keys(texts(worker_urls@).to_set()),
                dp_loads: old(self)@.dp_loads.remove_keys(texts(worker_urls@).to_set()),
            }),
    {
        let ghost before = groups_view(self.groups@);
        let found: Option<usize> = self.position(key);
        match found {
            Some(i) => {
                proof {
                    lemma_without(before, i as int);
                    assert(before[i as int].0 == key@);
                }
                let taken: (WorkerGroupKey, u64) = self.groups.remove(i);
                assert(groups_view(self.groups@) =~= before.remove(i as int));
            },
            None => {
                proof {
                    lemma_without_none(before, key@);
                }
            },
        }
        self.loads.remove_all(worker_urls);
        self.worker_load_manager.remove_workers(worker_urls);
        found.is_some()
    }

    /// No group is polled any more: those that were are given.
    pub fn stop(&mut self) -> (r: Vec<(WorkerGroupKey, u64)>)
        requires
            old(self).wf(),
        ensures
            final(self).wf(),
            groups_view(r@) == old(self)@.groups,
            final(self)@ == (MonitorView { groups: Seq::empty(), ..old(self)@ }),
    {
        let mut stopped: Vec<(WorkerGroupKey, u64)> = Vec::new();
        stopped.append(&mut self.groups);
        assert(groups_view(self.groups@) =~= Seq::empty());
        assert(groups_view(stopped@) =~= old(self)@.groups);
        stopped
    }

    /// The loads that came in.
    pub fn subscribe(&self) -> (r: &Table<WorkerLoadResponse>)
        requires
            self.wf(),
        ensures
            r.wf(),
            r@ == self@.loads,
    {
        &self.loads
    }

    /// Whether some group is polled.
    pub fn is_running(&self) -> (r: bool)
        ensures
            r == (self@.groups.len() > 0),
    {
        self.groups.len() > 0
    }

    /// Takes in the loads of a group, whose workers are at these URLs. Where none came in, all
    /// stays as it is. Says whether some came in.
    pub fn merge_group_loads(&mut self, group_urls: &[String], group_loads: Table<WorkerLoadResponse>) -> (r:
        bool)
        requires
            old(self).wf(),
            group_loads.wf(),
        ensures
            final(self).wf(),
            r == (group_loads@ != Map::<Seq<char>, WorkerLoadResponse>::empty()),
            !r ==> final(self)@ == old(self)@,
            r ==> {
                &&& final(self)@.default_interval == old(self)@.default_interval
                &&& final(self)@.groups == old(self)@.groups
                &&& final(self)@.loads == merged(
                    old(self)@.loads,
                    texts(group_urls@).to_set(),
                    group_loads@,
                )
                &&& ranks_taken(old(self)@.dp_loads, group_loads@, final(self)@.dp_loads)
            },
    {
        if group_loads.is_empty() {
            return false;
        }
        self.worker_load_manager.update_dp_loads(&group_loads);
        self.loads.remove_all(group_urls);
        self.loads.extend(group_loads);
        true
    }
}

/// Of distinct groups, taking one out leaves the others.
proof fn lemma_without(groups: Seq<(KeyView, u64)>, at: int)
    requires
        distinct_groups(groups),
        0 <= at < groups.len(),
    ensures
        without_group(groups, groups[at].0) == groups.remove(at),
        distinct_groups(groups.remove(at)),
    decreases groups.len(),
{
    let key = groups[at].0;
    let rest = groups.drop_last();
    if at == groups.len() - 1 {
        assert forall|i: int| 0 <= i < rest.len() implies (#[trigger] rest[i]).0 != key by {
            assert(groups[i].0 != groups[at].0);
        }
        lemma_without_none(rest, key);
        assert(groups.remove(at) =~= rest);
    } else {
        assert(groups.last().0 != key) by {
            assert(groups[at].0 != groups[groups.len() - 1].0);
        }
        lemma_without(rest, at);
        assert(groups.remove(at) =~= rest.remove(at).push(groups.last()));
    }
}

/// Taking out a group that is not there leaves all.
proof fn lemma_without_none(groups: Seq<(KeyView, u64)>, key: KeyView)
    requires
        !is_polled(groups, key),
    ensures
        without_group(groups, key) == groups,
    decreases groups.len(),
{
    if groups.len() > 0 {
        assert(groups[groups.len() - 1].0 != key);
        assert forall|i: int| 0 <= i < groups.drop_last().len() implies (#[trigger] groups.drop_last()[i]).0
            != key by {
            assert(groups[i].0 != key);
        }
        lemma_without_none(groups.drop_last(), key);
        assert(groups.drop_last().push(groups.last()) =~= groups);
    } else {
        assert(without_group(groups, key) =~= groups);
    }
}

// ---------------------------------------------------------------------------
// Laws
// ---------------------------------------------------------------------------

/// No group is polled more often than once a second.
pub proof fn law_interval_floor(default_interval: u64, interval: Option<u64>)
    ensures
        poll_interval(default_interval, interval) >= 1,
        interval matches Some(secs) ==> (secs >= 1 ==> poll_interval(default_interval, interval) == secs),
        interval is None && default_interval >= 1 ==> poll_interval(default_interval, interval)
            == default_interval,
{
}

/// A group that was taken out is polled no more, and every other group is polled as before.
pub proof fn law_removed_group(groups: Seq<(KeyView, u64)>, key: KeyView, other: KeyView)
    ensures
        !is_polled(without_group(groups, key), key),
        other != key ==> (is_polled(without_group(groups, key), other) <==> is_polled(groups, other)),
    decreases groups.len(),
{
    if groups.len() > 0 {
        let rest = groups.drop_last();
        law_removed_group(rest, key, other);
        let left = without_group(rest, key);
        let all = without_group(groups, key);
        assert(is_polled(groups, other) <==> is_polled(rest, other) || groups.last().0 == other) by {
            if is_polled(groups, other) {
                let i = choose|i: int| 0 <= i < groups.len() && (#[trigger] groups[i]).0 == other;
                if i < rest.len() {
                    assert(rest[i].0 == other);
                }
            }
            if is_polled(rest, other) {
                let i = choose|i: int| 0 <= i < rest.len() && (#[trigger] rest[i]).0 == other;
                assert(groups[i].0 == other);
            }
            assert(groups[groups.len() - 1] == groups.last());
        }
        if groups.last().0 != key {
            assert(all == left.push(groups.last()));
            lemma_polled_push(left, groups.last(), key);
            lemma_polled_push(left, groups.last(), other);
        }
    }
}

/// The groups that are polled when one more is.
proof fn lemma_polled_push(groups: Seq<(KeyView, u64)>, group: (KeyView, u64), key: KeyView)
    ensures
        is_polled(groups.push(group), key) <==> is_polled(groups, key) || group.0 == key,
{
    let all = groups.push(group);
    if is_polled(all, key) {
        let i = choose|i: int| 0 <= i < all.len() && (#[trigger] all[i]).0 == key;
        if i < groups.len() {
            assert(groups[i].0 == key);
        }
    }
    if is_polled(groups, key) {
        let i = choose|i: int| 0 <= i < groups.len() && (#[trigger] groups[i]).0 == key;
        assert(all[i].0 == key);
    }
    assert(all[groups.len() as int] == group);
}

/// A group that was added is polled, and every other group is polled as before.
pub proof fn law_added_group(groups: Seq<(KeyView, u64)>, key: KeyView, secs: u64, other: KeyView)
    ensures
        is_polled(groups.push((key, secs)), key),
        other != key ==> (is_polled(groups.push((key, secs)), other) <==> is_polled(groups, other)),
{
    lemma_polled_push(groups, (key, secs), key);
    lemma_polled_push(groups, (key, secs), other);
}

/// The loads of other groups' workers are kept at a tick; a worker of the group has the load
/// that came in from it, and none where none came in.
pub proof fn law_merge(
    before: Map<Seq<char>, WorkerLoadResponse>,
    urls: Set<Seq<char>>,
    group_loads: Map<Seq<char>, WorkerLoadResponse>,
    url: Seq<char>,
)
    ensures
        group_loads.dom().contains(url) ==> merged(before, urls, group_loads).dom().contains(url)
            && merged(before, urls, group_loads)[url] == group_loads[url],
        urls.contains(url) && !group_loads.dom().contains(url) ==> !merged(
            before,
            urls,
            group_loads,
        ).dom().contains(url),
        !urls.contains(url) && !group_loads.dom().contains(url) ==> (merged(
            before,
            urls,
            group_loads,
        ).dom().contains(url) <==> before.dom().contains(url)),
        !urls.contains(url) && !group_loads.dom().contains(url) && before.dom().contains(url)
            ==> merged(before, urls, group_loads)[url] == before[url],
{
}

/// Every worker is in one group, its own: it is a member of the group of a key just where that
/// is its group.
pub proof fn law_members(workers: Seq<WorkerInfo>, key: KeyView, worker: WorkerInfo)
    ensures
        members(workers, key).contains(worker) <==> workers.contains(worker) && group_of(worker) == key,
    decreases workers.len(),
{
    if workers.len() > 0 {
        let rest = workers.drop_last();
        law_members(rest, key, worker);
        assert(workers =~= rest.push(workers.last()));
        lemma_contains_push(rest, workers.last(), worker);
        lemma_contains_push(members(rest, key), workers.last(), worker);
    }
}

/// A group is the workers of one model that do the same and are reached in the same way: two
/// workers are in one group just where they agree in these three.
pub proof fn law_same_group(a: WorkerInfo, b: WorkerInfo)
    ensures
        group_of(a) == group_of(b) <==> a.model_id@ == b.model_id@ && a.worker_type == b.worker_type
            && a.connection_mode == b.connection_mode,
        group_of(a).model_id == a.model_id@,
        group_of(a).worker_type == a.worker_type,
        group_of(a).connection_mode == a.connection_mode,
{
}

/// The members of a group stand in the order of the workers.
pub proof fn law_members_in_order(first: Seq<WorkerInfo>, second: Seq<WorkerInfo>, key: KeyView)
    ensures
        members(first + second, key) == members(first, key) + members(second, key),
    decreases second.len(),
{
    if second.len() == 0 {
        assert(first + second =~= first);
        assert(members(first, key) + Seq::<WorkerInfo>::empty() =~= members(first, key));
    } else {
        law_members_in_order(first, second.drop_last(), key);
        assert((first + second).drop_last() =~= first + second.drop_last());
        assert(members(first + second, key) =~= members(first, key) + members(second, key));
    }
}

/// Taking a group out leaves the others in their order, each with its interval.
pub proof fn law_others_kept(first: Seq<(KeyView, u64)>, second: Seq<(KeyView, u64)>, key: KeyView, secs: u64)
    ensures
        without_group(first + second, key) == without_group(first, key) + without_group(second, key),
        without_group(seq![(key, secs)], key).len() == 0,
        forall|other: KeyView|
            other != key ==> #[trigger] without_group(seq![(other, secs)], key) == seq![(other, secs)],
    decreases second.len(),
{
    let one = seq![(key, secs)];
    assert(one.drop_last() =~= Seq::empty());
    assert(without_group(one.drop_last(), key) =~= Seq::empty());
    assert forall|other: KeyView| other != key implies #[trigger] without_group(seq![(other, secs)], key)
        == seq![(other, secs)] by {
        let only = seq![(other, secs)];
        assert(only.drop_last() =~= Seq::empty());
        assert(without_group(only.drop_last(), key) =~= Seq::empty());
        assert(without_group(only, key) =~= only);
    }
    if second.len() == 0 {
        assert(first + second =~= first);
        assert(without_group(first, key) + Seq::<(KeyView, u64)>::empty() =~= without_group(first, key));
    } else {
        law_others_kept(first, second.drop_last(), key, secs);
        assert((first + second).drop_last() =~= first + second.drop_last());
        assert(without_group(first + second, key) =~= without_group(first, key) + without_group(second, key));
    }
}

/// Each rank has the load that was given of it last; a rank of which none was given has none.
pub proof fn law_rank_loads(loads: Seq<RankLoad>, i: int)
    requires
        0 <= i < loads.len(),
        forall|j: int| i < j < loads.len() ==> (#[trigger] loads[j]).dp_rank != loads[i].dp_rank,
    ensures
        rank_loads(loads).dom().contains(loads[i].dp_rank as i64),
        rank_loads(loads)[loads[i].dp_rank as i64] == loads[i].num_used_tokens,
        forall|rank: i64|
            #[trigger] rank_loads(loads).dom().contains(rank) ==> exists|k: int|
                0 <= k < loads.len() && (#[trigger] loads[k]).dp_rank == rank,
    decreases loads.len(),
{
    lemma_ranks_given(loads);
    if i < loads.len() - 1 {
        let rest = loads.drop_last();
        assert(loads[loads.len() - 1].dp_rank != loads[i].dp_rank);
        assert forall|j: int| i < j < rest.len() implies (#[trigger] rest[j]).dp_rank != rest[i].dp_rank by {
            assert(loads[j].dp_rank != loads[i].dp_rank);
        }
        law_rank_loads(rest, i);
    }
}

/// Only ranks of which a load was given have one.
proof fn lemma_ranks_given(loads: Seq<RankLoad>)
    ensures
        forall|rank: i64|
            #[trigger] rank_loads(loads).dom().contains(rank) ==> exists|k: int|
                0 <= k < loads.len() && (#[trigger] loads[k]).dp_rank == rank,
    decreases loads.len(),
{
    if loads.len() > 0 {
        let rest = loads.drop_last();
        lemma_ranks_given(rest);
        assert forall|rank: i64| #[trigger] rank_loads(loads).dom().contains(rank) implies exists|k: int|
            0 <= k < loads.len() && (#[trigger] loads[k]).dp_rank == rank by {
            if rank == loads.last().dp_rank {
                assert(loads[loads.len() - 1].dp_rank == rank);
            } else {
                assert(rank_loads(rest).dom().contains(rank));
                let k = choose|k: int| 0 <= k < rest.len() && (#[trigger] rest[k]).dp_rank == rank;
                assert(loads[k].dp_rank == rank);
            }
        }
    }
}

/// Each worker has the load that came in from it last; one from which none came in has none.
pub proof fn law_had_loads(results: Seq<(String, Option<WorkerLoadResponse>)>, i: int)
    requires
        0 <= i < results.len(),
        results[i].1 is Some,
        forall|j: int|
            i < j < results.len() ==> (#[trigger] results[j]).0@ != results[i].0@ || results[j].1 is None,
    ensures
        had_loads(results).dom().contains(results[i].0@),
        had_loads(results)[results[i].0@] == results[i].1->0,
        forall|url: Seq<char>|
            #[trigger] had_loads(results).dom().contains(url) ==> exists|k: int|
                0 <= k < results.len() && (#[trigger] results[k]).0@ == url && results[k].1 is Some,
    decreases results.len(),
{
    lemma_loads_given(results);
    if i < results.len() - 1 {
        let rest = results.drop_last();
        assert(results[results.len() - 1].0@ != results[i].0@ || results[results.len() - 1].1 is None);
        assert forall|j: int| i < j < rest.len() implies (#[trigger] rest[j]).0@ != rest[i].0@ || rest[j].1
            is None by {
            assert(results[j].0@ != results[i].0@ || results[j].1 is None);
        }
        law_had_loads(rest, i);
    }
}

/// Only workers from which a load came in have one.
proof fn lemma_loads_given(results: Seq<(String, Option<WorkerLoadResponse>)>)
    ensures
        forall|url: Seq<char>|
            #[trigger] had_loads(results).dom().contains(url) ==> exists|k: int|
                0 <= k < results.len() && (#[trigger] results[k]).0@ == url && results[k].1 is Some,
    decreases results.len(),
{
    if results.len() > 0 {
        let rest = results.drop_last();
        lemma_loads_given(rest);
        assert forall|url: Seq<char>| #[trigger] had_loads(results).dom().contains(url) implies exists|k: int|
            0 <= k < results.len() && (#[trigger] results[k]).0@ == url && results[k].1 is Some by {
            if url == results.last().0@ && results.last().1 is Some {
                assert(results[results.len() - 1].0@ == url);
            } else {
                assert(had_loads(rest).dom().contains(url));
                let k = choose|k: int|
                    0 <= k < rest.len() && (#[trigger] rest[k]).0@ == url && rest[k].1 is Some;
                assert(results[k].0@ == url);
            }
        }
    }
}

/// When loads are taken in, each worker among them has of each rank what was given last, and every
/// other worker keeps what it had.
pub proof fn law_ranks_taken(
    before: Map<Seq<char>, HashMap<i64, i64>>,
    loads: Map<Seq<char>, WorkerLoadResponse>,
    after: Map<Seq<char>, HashMap<i64, i64>>,
    url: Seq<char>,
    i: int,
)
    requires
        ranks_taken(before, loads, after),
    ensures
        after.dom().contains(url) <==> before.dom().contains(url) || loads.dom().contains(url),
        before.dom().contains(url) && !loads.dom().contains(url) ==> after[url] == before[url],
        loads.dom().contains(url) && 0 <= i < loads[url].loads@.len() && (forall|j: int|
            i < j < loads[url].loads@.len() ==> (#[trigger] loads[url].loads@[j]).dp_rank
                != loads[url].loads@[i].dp_rank) ==> after[url]@.dom().contains(
            loads[url].loads@[i].dp_rank as i64,
        ) && after[url]@[loads[url].loads@[i].dp_rank as i64] == loads[url].loads@[i].num_used_tokens,
{
    if loads.dom().contains(url) {
        assert(after.dom().contains(url));
        let given = loads[url].loads@;
        if 0 <= i < given.len() && (forall|j: int|
            i < j < given.len() ==> (#[trigger] given[j]).dp_rank != given[i].dp_rank) {
            law_rank_loads(given, i);
        }
    }
}

/// Where neither the group nor the default asks for an interval of at least a second, it is one
/// second.
pub proof fn law_interval_of_nothing(default_interval: u64)
    ensures
        poll_interval(default_interval, Some(0)) == 1,
        poll_interval(0, None) == 1,
{
}

} // verus!
