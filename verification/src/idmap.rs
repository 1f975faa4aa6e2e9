//! A map keyed by identifier, kept as a sorted table with binary search.
//!
//! A hash map does not serve here: vstd says what a hash map holds only
//! for keys whose hashing and equality it knows, which are the primitive
//! types, and an identifier is 32 bytes wide. With identifiers as keys
//! nothing could be proved of what a lookup finds. The sorted table also
//! walks its entries in the same order in every run.

use vstd::prelude::*;
use crate::id::Id;

verus! {

/// A finite map from identifiers to values.
///
/// The entries are held in a vector, strictly ascending in the identifier
/// order, so that lookups are binary searches and walks are deterministic.
pub struct IdMap<V> {
    entries: Vec<(Id, V)>,
}

/// Whether `entries` ascends strictly in the identifier order.
pub open spec fn ascending<V>(entries: Seq<(Id, V)>) -> bool {
    forall|i: int, j: int|
        0 <= i < j < entries.len() ==> (#[trigger] entries[i]).0.key() < (
        #[trigger] entries[j]).0.key()
}

/// Whether `entries` lists exactly the pairs of `map`.
pub open spec fn lists<V>(entries: Seq<(Id, V)>, map: Map<Id, V>) -> bool {
    &&& forall|i: int|
        0 <= i < entries.len() ==> map.contains_key((#[trigger] entries[i]).0) && map[entries[i].0]
            == entries[i].1
    &&& forall|id: Id|
        map.contains_key(id) ==> exists|i: int|
            0 <= i < entries.len() && (#[trigger] entries[i]).0 == id
}

/// The map that a table of entries stands for.
pub open spec fn map_of<V>(entries: Seq<(Id, V)>) -> Map<Id, V> {
    Map::new(
        |id: Id| exists|i: int| 0 <= i < entries.len() && (#[trigger] entries[i]).0 == id,
        |id: Id|
            entries[choose|i: int| 0 <= i < entries.len() && (#[trigger] entries[i]).0 == id].1,
    )
}

/// An entry of an ascending table is a pair of its map.
pub proof fn lemma_entry<V>(entries: Seq<(Id, V)>, i: int)
    requires
        ascending(entries),
        0 <= i < entries.len(),
    ensures
        map_of(entries).contains_key(entries[i].0),
        map_of(entries)[entries[i].0] == entries[i].1,
{
    let id = entries[i].0;
    let j = choose|j: int| 0 <= j < entries.len() && (#[trigger] entries[j]).0 == id;
    if j < i {
        assert(entries[j].0.key() < entries[i].0.key());
    } else if i < j {
        assert(entries[i].0.key() < entries[j].0.key());
    }
}

/// An ascending table lists exactly the pairs of its map.
pub proof fn lemma_lists<V>(entries: Seq<(Id, V)>)
    requires
        ascending(entries),
    ensures
        lists(entries, map_of(entries)),
{
    assert forall|i: int| 0 <= i < entries.len() implies map_of(entries).contains_key(
        (#[trigger] entries[i]).0,
    ) && map_of(entries)[entries[i].0] == entries[i].1 by {
        lemma_entry(entries, i);
    }
}

/// An ascending table that lists exactly the pairs of a map stands for
/// that map.
proof fn lemma_same_map<V>(a: Seq<(Id, V)>, m: Map<Id, V>)
    requires
        ascending(a),
        lists(a, m),
        forall|id: Id| m.contains_key(id) ==> map_of(a).contains_key(id),
    ensures
        map_of(a) == m,
{
    assert forall|id: Id| map_of(a).contains_key(id) implies m.contains_key(id) && map_of(a)[id]
        == m[id] by {
        let i = choose|i: int| 0 <= i < a.len() && (#[trigger] a[i]).0 == id;
        lemma_entry(a, i);
    }
    assert(map_of(a) =~= m);
}

/// Replacing the value at a place of an ascending table sets the value of
/// that key.
proof fn lemma_update<V>(before: Seq<(Id, V)>, at: int, value: V)
    requires
        ascending(before),
        0 <= at < before.len(),
    ensures
        ascending(before.update(at, (before[at].0, value))),
        map_of(before.update(at, (before[at].0, value))) == map_of(before).insert(
            before[at].0,
            value,
        ),
{
    let id = before[at].0;
    let after = before.update(at, (id, value));
    let target = map_of(before).insert(id, value);
    assert forall|i: int, j: int| 0 <= i < j < after.len() implies (#[trigger] after[i]).0.key()
        < (#[trigger] after[j]).0.key() by {
        assert(before[i].0.key() < before[j].0.key());
    }
    assert forall|i: int| 0 <= i < after.len() implies target.contains_key(
        (#[trigger] after[i]).0,
    ) && target[after[i].0] == after[i].1 by {
        lemma_entry(before, i);
        if i != at {
            if i < at {
                assert(before[i].0.key() < before[at].0.key());
            } else {
                assert(before[at].0.key() < before[i].0.key());
            }
        }
    }
    assert forall|k: Id| target.contains_key(k) implies exists|i: int|
        0 <= i < after.len() && (#[trigger] after[i]).0 == k by {
        if k == id {
            assert(after[at].0 == k);
        } else {
            let i = choose|i: int| 0 <= i < before.len() && (#[trigger] before[i]).0 == k;
            assert(after[i].0 == k);
        }
    }
    lemma_same_map(after, target);
}

/// Inserting a new key at its place of an ascending table adds the pair.
proof fn lemma_insert<V>(before: Seq<(Id, V)>, at: int, id: Id, value: V)
    requires
        ascending(before),
        0 <= at <= before.len(),
        forall|i: int| 0 <= i < at ==> (#[trigger] before[i]).0.key() < id.key(),
        forall|i: int| at <= i < before.len() ==> (#[trigger] before[i]).0.key() > id.key(),
    ensures
        ascending(before.insert(at, (id, value))),
        map_of(before.insert(at, (id, value))) == map_of(before).insert(id, value),
{
    let after = before.insert(at, (id, value));
    let target = map_of(before).insert(id, value);
    assert forall|i: int, j: int| 0 <= i < j < after.len() implies (#[trigger] after[i]).0.key()
        < (#[trigger] after[j]).0.key() by {
        let bi = if i < at { i } else { i - 1 };
        let bj = if j < at { j } else { j - 1 };
        if i != at && j != at {
            assert(before[bi].0.key() < before[bj].0.key());
        } else if i == at {
            assert(before[bj].0.key() > id.key());
        } else {
            assert(before[bi].0.key() < id.key());
        }
    }
    assert forall|i: int| 0 <= i < after.len() implies target.contains_key(
        (#[trigger] after[i]).0,
    ) && target[after[i].0] == after[i].1 by {
        if i != at {
            let b = if i < at { i } else { i - 1 };
            assert(after[i] == before[b]);
            lemma_entry(before, b);
            if b < at {
                assert(before[b].0.key() < id.key());
            } else {
                assert(before[b].0.key() > id.key());
            }
        }
    }
    assert forall|k: Id| target.contains_key(k) implies exists|i: int|
        0 <= i < after.len() && (#[trigger] after[i]).0 == k by {
        if k == id {
            assert(after[at].0 == k);
        } else {
            let i = choose|i: int| 0 <= i < before.len() && (#[trigger] before[i]).0 == k;
            if i < at {
                assert(after[i].0 == k);
            } else {
                assert(after[i + 1].0 == k);
            }
        }
    }
    lemma_same_map(after, target);
}

/// Removing a place of an ascending table removes its key.
proof fn lemma_remove<V>(before: Seq<(Id, V)>, at: int)
    requires
        ascending(before),
        0 <= at < before.len(),
    ensures
        ascending(before.remove(at)),
        map_of(before.remove(at)) == map_of(before).remove(before[at].0),
{
    let id = before[at].0;
    let after = before.remove(at);
    let target = map_of(before).remove(id);
    assert forall|i: int, j: int| 0 <= i < j < after.len() implies (#[trigger] after[i]).0.key()
        < (#[trigger] after[j]).0.key() by {
        let bi = if i < at { i } else { i + 1 };
        let bj = if j < at { j } else { j + 1 };
        assert(before[bi].0.key() < before[bj].0.key());
    }
    assert forall|i: int| 0 <= i < after.len() implies target.contains_key(
        (#[trigger] after[i]).0,
    ) && target[after[i].0] == after[i].1 by {
        let b = if i < at { i } else { i + 1 };
        assert(after[i] == before[b]);
        lemma_entry(before, b);
        if b < at {
            assert(before[b].0.key() < before[at].0.key());
        } else {
            assert(before[at].0.key() < before[b].0.key());
        }
    }
    assert forall|k: Id| target.contains_key(k) implies exists|i: int|
        0 <= i < after.len() && (#[trigger] after[i]).0 == k by {
        let i = choose|i: int| 0 <= i < before.len() && (#[trigger] before[i]).0 == k;
        if i < at {
            assert(after[i].0 == k);
        } else {
            assert(after[i - 1].0 == k);
        }
    }
    lemma_same_map(after, target);
}

/// A key beside which every key of an ascending table is smaller or
/// larger is no key of its map.
proof fn lemma_absent<V>(entries: Seq<(Id, V)>, id: Id)
    requires
        forall|i: int| 0 <= i < entries.len() ==> (#[trigger] entries[i]).0.key() != id.key(),
    ensures
        !map_of(entries).contains_key(id),
{
}

impl<V> View for IdMap<V> {
    type V = Map<Id, V>;

    closed spec fn view(&self) -> Map<Id, V> {
        map_of(self.entries@)
    }
}

impl<V> IdMap<V> {
    #[verifier::type_invariant]
    spec fn sorted(self) -> bool {
        ascending(self.entries@)
    }

    /// The empty map.
    pub fn new() -> (m: Self)
        ensures
            m@ == Map::<Id, V>::empty(),
    {
        let m = IdMap { entries: Vec::new() };
        assert(m@ =~= Map::<Id, V>::empty());
        m
    }

    /// Where `id` is, or where it would be inserted.
    fn search(&self, id: &Id) -> (r: (bool, usize))
        ensures
            r.1 <= self.entries@.len(),
            r.0 ==> r.1 < self.entries@.len() && self.entries@[r.1 as int].0 == *id,
            !r.0 ==> forall|i: int|
                0 <= i < self.entries@.len() ==> if i < r.1 {
                    (#[trigger] self.entries@[i]).0.key() < id.key()
                } else {
                    self.entries@[i].0.key() > id.key()
                },
    {
        proof {
            use_type_invariant(self);
        }
        let mut lo: usize = 0;
        let mut hi: usize = self.entries.len();
        while lo < hi
            invariant
                0 <= lo <= hi <= self.entries@.len(),
                ascending(self.entries@),
                forall|i: int| 0 <= i < lo ==> (#[trigger] self.entries@[i]).0.key() < id.key(),
                forall|i: int|
                    hi <= i < self.entries@.len() ==> (#[trigger] self.entries@[i]).0.key()
                        > id.key(),
            decreases hi - lo,
        {
            let mid: usize = lo + (hi - lo) / 2;
            let probe = &self.entries[mid].0;
            if probe.lt(id) {
                lo = mid + 1;
            } else if id.lt(probe) {
                hi = mid;
            } else {
                proof {
                    Id::lemma_key_injective(*probe, *id);
                }
                return (true, mid);
            }
        }
        (false, lo)
    }

    /// Whether the map holds `id`.
    pub fn contains(&self, id: &Id) -> (r: bool)
        ensures
            r == self@.contains_key(*id),
    {
        let (found, at) = self.search(id);
        proof {
            use_type_invariant(self);
            if found {
                lemma_entry(self.entries@, at as int);
            } else {
                lemma_absent(self.entries@, *id);
            }
        }
        found
    }

    /// The value held for `id`.
    pub fn get(&self, id: &Id) -> (r: Option<&V>)
        ensures
            match r {
                Some(v) => self@.contains_key(*id) && *v == self@[*id],
                None => !self@.contains_key(*id),
            },
    {
        let (found, at) = self.search(id);
        proof {
            use_type_invariant(self);
            if found {
                lemma_entry(self.entries@, at as int);
            } else {
                lemma_absent(self.entries@, *id);
            }
        }
        if found {
            Some(&self.entries[at].1)
        } else {
            None
        }
    }

    /// Sets the value for `id`, and returns the value it replaces.
    pub fn insert(&mut self, id: Id, value: V) -> (r: Option<V>)
        ensures
            final(self)@ == old(self)@.insert(id, value),
            match r {
                Some(v) => old(self)@.contains_key(id) && v == old(self)@[id],
                None => !old(self)@.contains_key(id),
            },
    {
        proof {
            use_type_invariant(&*self);
        }
        let (found, at) = self.search(&id);
        let mut entries: Vec<(Id, V)> = Vec::new();
        std::mem::swap(&mut entries, &mut self.entries);
        let ghost before = entries@;
        proof {
            if found {
                lemma_entry(before, at as int);
                lemma_update(before, at as int, value);
            } else {
                lemma_absent(before, id);
                lemma_insert(before, at as int, id, value);
            }
        }
        let r = if found {
            let mut slot = (id, value);
            std::mem::swap(&mut slot, &mut entries[at]);
            assert(entries@ == before.update(at as int, (id, value)));
            Some(slot.1)
        } else {
            entries.insert(at, (id, value));
            None
        };
        self.entries = entries;
        r
    }

    /// Takes `id` out of the map, and returns the value it had.
    pub fn remove(&mut self, id: &Id) -> (r: Option<V>)
        ensures
            final(self)@ == old(self)@.remove(*id),
            match r {
                Some(v) => old(self)@.contains_key(*id) && v == old(self)@[*id],
                None => !old(self)@.contains_key(*id),
            },
    {
        proof {
            use_type_invariant(&*self);
        }
        let (found, at) = self.search(id);
        if !found {
            proof {
                lemma_absent(self.entries@, *id);
                assert(self@ =~= old(self)@.remove(*id));
            }
            return None;
        }
        let mut entries: Vec<(Id, V)> = Vec::new();
        std::mem::swap(&mut entries, &mut self.entries);
        let ghost before = entries@;
        proof {
            lemma_entry(before, at as int);
            lemma_remove(before, at as int);
        }
        let gone = entries.remove(at);
        self.entries = entries;
        Some(gone.1)
    }

    /// The pairs of the map, ascending in the identifier order.
    pub fn into_entries(self) -> (entries: Vec<(Id, V)>)
        ensures
            ascending(entries@),
            lists(entries@, self@),
    {
        proof {
            use_type_invariant(&self);
            lemma_lists(self.entries@);
        }
        self.entries
    }
}

/// A finite set of identifiers.
pub struct IdSet {
    members: IdMap<()>,
}

impl View for IdSet {
    type V = Set<Id>;

    closed spec fn view(&self) -> Set<Id> {
        self.members@.dom()
    }
}

impl IdSet {
    /// The empty set.
    pub fn new() -> (s: IdSet)
        ensures
            s@ == Set::<Id>::empty(),
    {
        let s = IdSet { members: IdMap::new() };
        assert(s@ =~= Set::<Id>::empty());
        s
    }

    /// Whether `id` is in the set.
    pub fn contains(&self, id: &Id) -> (r: bool)
        ensures
            r == self@.contains(*id),
    {
        self.members.contains(id)
    }

    /// Puts `id` into the set; whether it was new.
    pub fn insert(&mut self, id: Id) -> (r: bool)
        ensures
            final(self)@ == old(self)@.insert(id),
            r == !old(self)@.contains(id),
    {
        let was = self.members.insert(id, ());
        assert(self@ =~= old(self)@.insert(id));
        was.is_none()
    }
}

} // verus!
