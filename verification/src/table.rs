//! Tables of values by name.

use vstd::prelude::*;
use vstd::string::*;

use crate::text::same_text;
#[allow(unused_imports)]
use crate::text::texts;

verus! {

/// Values by name, each name once.
#[derive(Debug)]
pub struct Table<V> {
    pub entries: Vec<(String, V)>,
}

/// `name` stands at position `i`.
pub open spec fn entry_at<V>(entries: Seq<(String, V)>, name: Seq<char>, i: int) -> bool {
    0 <= i < entries.len() && entries[i].0@ == name
}

/// The values by name that entries hold.
pub open spec fn entries_map<V>(entries: Seq<(String, V)>) -> Map<Seq<char>, V> {
    Map::new(
        |name: Seq<char>| exists|i: int| entry_at(entries, name, i),
        |name: Seq<char>| entries[choose|i: int| entry_at(entries, name, i)].1,
    )
}

/// No name stands twice.
pub open spec fn distinct_entries<V>(entries: Seq<(String, V)>) -> bool {
    forall|i: int, j: int|
        0 <= i < j < entries.len() ==> (#[trigger] entries[i]).0@ != (#[trigger] entries[j]).0@
}

/// What stands at a position is the value of its name.
proof fn lemma_entry<V>(entries: Seq<(String, V)>, i: int)
    requires
        distinct_entries(entries),
        0 <= i < entries.len(),
    ensures
        entries_map(entries).dom().contains(entries[i].0@),
        entries_map(entries)[entries[i].0@] == entries[i].1,
{
    let name = entries[i].0@;
    assert(entry_at(entries, name, i));
    let k = choose|k: int| entry_at(entries, name, k);
    assert(entry_at(entries, name, k));
    if k < i {
        assert(entries[k].0@ != entries[i].0@);
    } else if i < k {
        assert(entries[i].0@ != entries[k].0@);
    }
}

/// A name that stands nowhere has no value.
proof fn lemma_no_entry<V>(entries: Seq<(String, V)>, name: Seq<char>)
    requires
        forall|i: int| 0 <= i < entries.len() ==> (#[trigger] entries[i]).0@ != name,
    ensures
        !entries_map(entries).dom().contains(name),
{
    if exists|i: int| entry_at(entries, name, i) {
        let i = choose|i: int| entry_at(entries, name, i);
        assert(entries[i].0@ != name);
    }
}

impl<V> Table<V> {
    /// The values by name.
    pub open spec fn view(&self) -> Map<Seq<char>, V> {
        entries_map(self.entries@)
    }

    /// Each name stands once.
    pub open spec fn wf(&self) -> bool {
        distinct_entries(self.entries@)
    }

    /// A table with nothing in it.
    pub fn new() -> (r: Self)
        ensures
            r.wf(),
            r@ == Map::<Seq<char>, V>::empty(),
    {
        let table: Table<V> = Table { entries: Vec::new() };
        assert(table@ =~= Map::empty());
        table
    }

    /// The position of a name.
    fn position(&self, name: &str) -> (r: Option<usize>)
        requires
            self.wf(),
        ensures
            r is Some <==> self@.dom().contains(name@),
            r matches Some(i) ==> i < self.entries@.len() && self.entries@[i as int].0@ == name@,
            r is None ==> forall|i: int|
                0 <= i < self.entries@.len() ==> (#[trigger] self.entries@[i]).0@ != name@,
    {
        let mut i: usize = 0;
        while i < self.entries.len()
            invariant
                self.wf(),
                i <= self.entries@.len(),
                forall|j: int| 0 <= j < i ==> (#[trigger] self.entries@[j]).0@ != name@,
            decreases self.entries.len() - i,
        {
            if same_text(self.entries[i].0.as_str(), name) {
                proof {
                    lemma_entry(self.entries@, i as int);
                }
                return Some(i);
            }
            i = i + 1;
        }
        proof {
            lemma_no_entry(self.entries@, name@);
        }
        None
    }

    /// The value of a name.
    pub fn get(&self, name: &str) -> (r: Option<&V>)
        requires
            self.wf(),
        ensures
            r is Some <==> self@.dom().contains(name@),
            r matches Some(value) ==> *value == self@[name@],
    {
        match self.position(name) {
            Some(i) => {
                proof {
                    lemma_entry(self.entries@, i as int);
                }
                Some(&self.entries[i].1)
            },
            None => None,
        }
    }

    /// Whether there is nothing in the table.
    pub fn is_empty(&self) -> (r: bool)
        requires
            self.wf(),
        ensures
            r <==> self@ == Map::<Seq<char>, V>::empty(),
    {
        if self.entries.len() == 0 {
            assert(self@ =~= Map::empty());
            true
        } else {
            proof {
                lemma_entry(self.entries@, 0);
                assert(self@.dom().contains(self.entries@[0].0@));
            }
            false
        }
    }

    /// Gives the name a value, in place of the one that it had.
    pub fn insert(&mut self, name: String, value: V)
        requires
            old(self).wf(),
        ensures
            final(self).wf(),
            final(self)@ == old(self)@.insert(name@, value),
    {
        let ghost before = self.entries@;
        let ghost key = name@;
        match self.position(name.as_str()) {
            Some(i) => {
                self.entries.set(i, (name, value));
                let ghost after = self.entries@;
                proof {
                    assert(after =~= before.update(i as int, after[i as int]));
                    lemma_replaced(before, i as int, after[i as int]);
                }
            },
            None => {
                self.entries.push((name, value));
                let ghost after = self.entries@;
                proof {
                    assert(after =~= before.push(after.last()));
                    lemma_added(before, after.last());
                }
            },
        }
    }

    /// Takes the name out, with its value.
    pub fn remove(&mut self, name: &str)
        requires
            old(self).wf(),
        ensures
            final(self).wf(),
            final(self)@ == old(self)@.remove(name@),
    {
        let ghost before = self.entries@;
        match self.position(name) {
            Some(i) => {
                let taken: (String, V) = self.entries.remove(i);
                proof {
                    assert(self.entries@ =~= before.remove(i as int));
                    lemma_removed(before, i as int);
                }
            },
            None => {
                assert(self@ =~= self@.remove(name@));
            },
        }
    }

    /// Takes the names out, with their values.
    pub fn remove_all(&mut self, names: &[String])
        requires
            old(self).wf(),
        ensures
            final(self).wf(),
            final(self)@ == old(self)@.remove_keys(texts(names@).to_set()),
    {
        let ghost before = self@;
        let ghost all = texts(names@);
        let mut i: usize = 0;
        assert(all.take(0).to_set() =~= Set::empty());
        assert(before.remove_keys(Set::empty()) =~= before);
        while i < names.len()
            invariant
                all == texts(names@),
                i <= names@.len(),
                self.wf(),
                self@ == before.remove_keys(all.take(i as int).to_set()),
            decreases names.len() - i,
        {
            self.remove(names[i].as_str());
            proof {
                assert(all.take(i + 1) =~= all.take(i as int).push(all[i as int]));
                lemma_push_set(all.take(i as int), all[i as int]);
                assert(self@ =~= before.remove_keys(all.take(i + 1).to_set()));
            }
            i = i + 1;
        }
        assert(all.take(i as int) =~= all);
    }

    /// Gives the names of `more` the values that they have there.
    pub fn extend(&mut self, more: Table<V>)
        requires
            old(self).wf(),
            more.wf(),
        ensures
            final(self).wf(),
            final(self)@ == old(self)@.union_prefer_right(more@),
    {
        let ghost before = self@;
        let ghost all = more.entries@;
        proof {
            assert(entries_map(all.take(0)) =~= Map::empty());
            assert(before.union_prefer_right(Map::empty()) =~= before);
        }
        for entry in it: more.entries
            invariant
                it.seq() == all,
                distinct_entries(all),
                self.wf(),
                self@ == before.union_prefer_right(entries_map(all.take(it.index() as int))),
        {
            let ghost i = it.index() as int;
            assert(entry == all[i]);
            let (name, value): (String, V) = entry;
            let ghost key = name@;
            let ghost given = value;
            self.insert(name, value);
            proof {
                assert(all.take(i + 1) =~= all.take(i).push(all[i]));
                lemma_added(all.take(i), all[i]);
                assert(entries_map(all.take(i + 1)) == entries_map(all.take(i)).insert(key, given));
                assert(self@ =~= before.union_prefer_right(entries_map(all.take(i + 1))));
            }
        }
        assert(all.take(all.len() as int) =~= all);
    }
}

/// One entry more, of a name that did not stand.
pub proof fn lemma_added<V>(entries: Seq<(String, V)>, entry: (String, V))
    requires
        distinct_entries(entries),
        forall|i: int| 0 <= i < entries.len() ==> (#[trigger] entries[i]).0@ != entry.0@,
    ensures
        distinct_entries(entries.push(entry)),
        entries_map(entries.push(entry)) == entries_map(entries).insert(entry.0@, entry.1),
{
    let after = entries.push(entry);
    assert(distinct_entries(after));
    assert forall|name: Seq<char>|
        entries_map(after).dom().contains(name) <==> entries_map(entries).insert(
            entry.0@,
            entry.1,
        ).dom().contains(name) by {
        if exists|i: int| entry_at(after, name, i) {
            let i = choose|i: int| entry_at(after, name, i);
            if i < entries.len() {
                assert(entry_at(entries, name, i));
            }
        }
        if exists|i: int| entry_at(entries, name, i) {
            let i = choose|i: int| entry_at(entries, name, i);
            assert(entry_at(after, name, i));
        }
        assert(entry_at(after, entry.0@, entries.len() as int));
    }
    assert forall|name: Seq<char>| #[trigger]
        entries_map(after).dom().contains(name) implies entries_map(after)[name] == entries_map(
        entries,
    ).insert(entry.0@, entry.1)[name] by {
        let i = choose|i: int| entry_at(after, name, i);
        lemma_entry(after, i);
        if i < entries.len() {
            lemma_entry(entries, i);
            assert(after[i] == entries[i]);
        }
    }
    assert(entries_map(after) =~= entries_map(entries).insert(entry.0@, entry.1));
}

/// Another entry of the same name in place of one.
proof fn lemma_replaced<V>(entries: Seq<(String, V)>, at: int, entry: (String, V))
    requires
        distinct_entries(entries),
        0 <= at < entries.len(),
        entries[at].0@ == entry.0@,
    ensures
        distinct_entries(entries.update(at, entry)),
        entries_map(entries.update(at, entry)) == entries_map(entries).insert(entry.0@, entry.1),
{
    let after = entries.update(at, entry);
    assert forall|i: int, j: int| 0 <= i < j < after.len() implies (#[trigger] after[i]).0@ != (
    #[trigger] after[j]).0@ by {
        assert(entries[i].0@ != entries[j].0@);
    }
    assert forall|name: Seq<char>, i: int| entry_at(entries, name, i) <==> #[trigger] entry_at(after, name, i) by {}
    assert forall|name: Seq<char>|
        entries_map(after).dom().contains(name) <==> entries_map(entries).insert(
            entry.0@,
            entry.1,
        ).dom().contains(name) by {
        assert(entry_at(after, entry.0@, at));
        if exists|i: int| entry_at(entries, name, i) {
            let i = choose|i: int| entry_at(entries, name, i);
            assert(entry_at(after, name, i));
        }
        if exists|i: int| entry_at(after, name, i) {
            let i = choose|i: int| entry_at(after, name, i);
            assert(entry_at(entries, name, i));
        }
    }
    assert forall|name: Seq<char>| #[trigger]
        entries_map(after).dom().contains(name) implies entries_map(after)[name] == entries_map(
        entries,
    ).insert(entry.0@, entry.1)[name] by {
        let i = choose|i: int| entry_at(after, name, i);
        lemma_entry(after, i);
        lemma_entry(entries, i);
        if i != at {
            assert(after[i] == entries[i]);
            if i < at {
                assert(entries[i].0@ != entries[at].0@);
            } else {
                assert(entries[at].0@ != entries[i].0@);
            }
        }
    }
    assert(entries_map(after) =~= entries_map(entries).insert(entry.0@, entry.1));
}

/// One entry less.
proof fn lemma_removed<V>(entries: Seq<(String, V)>, at: int)
    requires
        distinct_entries(entries),
        0 <= at < entries.len(),
    ensures
        distinct_entries(entries.remove(at)),
        entries_map(entries.remove(at)) == entries_map(entries).remove(entries[at].0@),
{
    let after = entries.remove(at);
    let gone = entries[at].0@;
    assert forall|i: int| 0 <= i < after.len() implies after[i] == entries[if i < at {
        i
    } else {
        i + 1
    }] by {}
    assert(distinct_entries(after));
    assert forall|name: Seq<char>|
        entries_map(after).dom().contains(name) <==> entries_map(entries).remove(gone).dom().contains(
            name,
        ) by {
        if exists|i: int| entry_at(after, name, i) {
            let i = choose|i: int| entry_at(after, name, i);
            let k = if i < at {
                i
            } else {
                i + 1
            };
            assert(entry_at(entries, name, k));
            if k < at {
                assert(entries[k].0@ != entries[at].0@);
            } else {
                assert(entries[at].0@ != entries[k].0@);
            }
        }
        if name != gone && exists|i: int| entry_at(entries, name, i) {
            let i = choose|i: int| entry_at(entries, name, i);
            assert(entry_at(after, name, if i < at {
                i
            } else {
                i - 1
            }));
        }
    }
    assert forall|name: Seq<char>| #[trigger]
        entries_map(after).dom().contains(name) implies entries_map(after)[name] == entries_map(
        entries,
    ).remove(gone)[name] by {
        let i = choose|i: int| entry_at(after, name, i);
        let k = if i < at {
            i
        } else {
            i + 1
        };
        lemma_entry(after, i);
        lemma_entry(entries, k);
    }
    assert(entries_map(after) =~= entries_map(entries).remove(gone));
}

/// One name more in a row is one more in the set of its names.
proof fn lemma_push_set(names: Seq<Seq<char>>, name: Seq<char>)
    ensures
        names.push(name).to_set() == names.to_set().insert(name),
{
    let all = names.push(name);
    assert(all[names.len() as int] == name);
    assert forall|x: Seq<char>| names.contains(x) implies all.contains(x) by {
        let j = choose|j: int| 0 <= j < names.len() && names[j] == x;
        assert(all[j] == x);
    }
    assert(all.to_set() =~= names.to_set().insert(name));
}

} // verus!
