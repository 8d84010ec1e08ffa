//! A sorted association list over (state, action) keys.
//!
//! Every table the engine keeps — action values, eligibility traces,
//! the Dyna-Q model and its visitation counts — is a `PairMap`: a
//! vector of key/value entries kept strictly sorted by key.  Its view
//! is the entry sequence itself, and the spec functions `lookup` and
//! `store` say exactly what reading and writing mean on that sequence,
//! so the training algorithms' contracts can be stated as pure
//! functions of table contents.

use crate::fixed::Fixed;
use crate::mdp::{IndexAction, IndexState};
use vstd::prelude::*;

verus! {

/// A table key: one (state, action) pair.
pub type PairKey = (IndexState, IndexAction);

/// An action-value table: (state, action) pairs to estimates.
pub type QMap = PairMap<Fixed>;

/// Strict lexicographic order on keys.
pub open spec fn key_lt(a: PairKey, b: PairKey) -> bool {
    a.0.0 < b.0.0 || (a.0.0 == b.0.0 && a.1.0 < b.1.0)
}

/// The value stored under `k`, if any.
pub open spec fn lookup<V>(s: Seq<(PairKey, V)>, k: PairKey) -> Option<V>
    decreases s.len(),
{
    if s.len() == 0 {
        None
    } else if s[0].0 == k {
        Some(s[0].1)
    } else {
        lookup(s.drop_first(), k)
    }
}

/// The entry sequence after writing `v` under `k`: an existing entry
/// is overwritten in place, a new key enters at its sorted position.
pub open spec fn store<V>(s: Seq<(PairKey, V)>, k: PairKey, v: V) -> Seq<(PairKey, V)>
    decreases s.len(),
{
    if s.len() == 0 {
        seq![(k, v)]
    } else if s[0].0 == k {
        s.update(0, (k, v))
    } else if key_lt(k, s[0].0) {
        seq![(k, v)] + s
    } else {
        seq![s[0]] + store(s.drop_first(), k, v)
    }
}

/// Strictly sorted by key.
pub open spec fn sorted<V>(s: Seq<(PairKey, V)>) -> bool {
    forall|i: int, j: int| 0 <= i < j < s.len() ==> key_lt(#[trigger] s[i].0, #[trigger] s[j].0)
}

/// Reading back a write: the written key holds the new value, every
/// other key is untouched.
pub proof fn lemma_lookup_store<V>(s: Seq<(PairKey, V)>, k: PairKey, v: V, k2: PairKey)
    ensures
        lookup(store(s, k, v), k2) == if k2 == k {
            Some(v)
        } else {
            lookup(s, k2)
        },
    decreases s.len(),
{
    if s.len() == 0 {
        let t = seq![(k, v)];
        assert(store(s, k, v) == t);
        assert(t[0] == (k, v));
        if k2 == k {
            assert(lookup(t, k2) == Some(v));
        } else {
            assert(t.drop_first() =~= s);
            assert(lookup(t, k2) == lookup(s, k2));
        }
    } else if s[0].0 == k {
        let t = s.update(0, (k, v));
        assert(store(s, k, v) == t);
        assert(t[0] == (k, v));
        assert(t.drop_first() =~= s.drop_first());
        if k2 == k {
            assert(lookup(t, k2) == Some(v));
        } else {
            assert(lookup(t, k2) == lookup(t.drop_first(), k2));
            assert(lookup(s, k2) == lookup(s.drop_first(), k2));
        }
    } else if key_lt(k, s[0].0) {
        let t = seq![(k, v)] + s;
        assert(store(s, k, v) == t);
        assert(t[0] == (k, v));
        assert(t.drop_first() =~= s);
        if k2 == k {
            assert(lookup(t, k2) == Some(v));
        } else {
            assert(lookup(t, k2) == lookup(s, k2));
        }
    } else {
        let t = seq![s[0]] + store(s.drop_first(), k, v);
        assert(store(s, k, v) == t);
        assert(t[0] == s[0]);
        assert(t.drop_first() =~= store(s.drop_first(), k, v));
        lemma_lookup_store(s.drop_first(), k, v, k2);
        if k2 == s[0].0 {
            assert(lookup(t, k2) == Some(t[0].1));
            assert(lookup(s, k2) == Some(s[0].1));
        } else {
            assert(lookup(t, k2) == lookup(store(s.drop_first(), k, v), k2));
            assert(lookup(s, k2) == lookup(s.drop_first(), k2));
        }
    }
}

/// In a sorted table, a key below the least entry is absent.
pub proof fn lemma_lookup_below<V>(s: Seq<(PairKey, V)>, k: PairKey)
    requires
        sorted(s),
        s.len() > 0,
        key_lt(k, s[0].0),
    ensures
        lookup(s, k) is None,
    decreases s.len(),
{
    assert(sorted(s.drop_first()));
    if s.len() > 1 {
        assert(key_lt(s[0].0, s.drop_first()[0].0));
        lemma_lookup_below(s.drop_first(), k);
    }
}

/// A write grows a sorted table by one entry for a new key and not at
/// all for a key already present.
pub proof fn lemma_store_len<V>(s: Seq<(PairKey, V)>, k: PairKey, v: V)
    requires
        sorted(s),
    ensures
        lookup(s, k) is Some ==> store(s, k, v).len() == s.len(),
        lookup(s, k) is None ==> store(s, k, v).len() == s.len() + 1,
    decreases s.len(),
{
    if s.len() == 0 {
    } else if s[0].0 == k {
    } else if key_lt(k, s[0].0) {
        lemma_lookup_below(s, k);
    } else {
        assert(sorted(s.drop_first()));
        lemma_store_len(s.drop_first(), k, v);
    }
}

/// In a sorted table, every entry is found with its own value.
pub proof fn lemma_lookup_at_entry<V>(s: Seq<(PairKey, V)>, j: int)
    requires
        sorted(s),
        0 <= j < s.len(),
    ensures
        lookup(s, s[j].0) == Some(s[j].1),
    decreases j,
{
    if j == 0 {
    } else {
        assert(key_lt(s[0].0, s[j].0));
        assert(sorted(s.drop_first()));
        lemma_lookup_at_entry(s.drop_first(), j - 1);
    }
}

/// A key carried by no entry is not found.
pub proof fn lemma_lookup_absent<V>(s: Seq<(PairKey, V)>, k: PairKey)
    requires
        forall|j: int| 0 <= j < s.len() ==> (#[trigger] s[j]).0 != k,
    ensures
        lookup(s, k) is None,
    decreases s.len(),
{
    if s.len() == 0 {
    } else {
        assert(s[0].0 != k);
        lemma_lookup_absent(s.drop_first(), k);
    }
}

/// A write keeps a sorted table sorted.
pub proof fn lemma_store_sorted<V>(s: Seq<(PairKey, V)>, k: PairKey, v: V)
    requires
        sorted(s),
    ensures
        sorted(store(s, k, v)),
    decreases s.len(),
{
    let t = store(s, k, v);
    if s.len() == 0 {
    } else if s[0].0 == k {
        assert forall|a: int, b: int| 0 <= a < b < t.len() implies key_lt(t[a].0, t[b].0) by {
            assert(key_lt(s[a].0, s[b].0));
        }
    } else if key_lt(k, s[0].0) {
        assert forall|a: int, b: int| 0 <= a < b < t.len() implies key_lt(t[a].0, t[b].0) by {
            if a == 0 {
                assert(t[b] == s[b - 1]);
                if b > 1 {
                    assert(key_lt(s[0].0, s[b - 1].0));
                }
            } else {
                assert(t[a] == s[a - 1] && t[b] == s[b - 1]);
            }
        }
    } else {
        assert(sorted(s.drop_first()));
        lemma_store_sorted(s.drop_first(), k, v);
        let t2 = store(s.drop_first(), k, v);
        assert(key_lt(s[0].0, k));
        assert forall|a: int, b: int| 0 <= a < b < t.len() implies key_lt(t[a].0, t[b].0) by {
            if a == 0 {
                assert(t[b] == t2[b - 1]);
                lemma_store_entries_keys(s.drop_first(), k, v, b - 1);
                if t2[b - 1].0 != k {
                    let l = choose|l: int|
                        0 <= l < s.drop_first().len() && (#[trigger] s.drop_first()[l]).0 == t2[b
                            - 1].0;
                    assert(s.drop_first()[l] == s[l + 1]);
                    assert(key_lt(s[0].0, s[l + 1].0));
                }
            } else {
                assert(t[a] == t2[a - 1] && t[b] == t2[b - 1]);
            }
        }
    }
}

/// Every key of a written table is the written key or a key of the
/// original table.
proof fn lemma_store_entries_keys<V>(s: Seq<(PairKey, V)>, k: PairKey, v: V, j: int)
    requires
        0 <= j < store(s, k, v).len(),
    ensures
        store(s, k, v)[j].0 == k || exists|l: int|
            0 <= l < s.len() && (#[trigger] s[l]).0 == store(s, k, v)[j].0,
    decreases s.len(),
{
    let t = store(s, k, v);
    if s.len() == 0 {
    } else if s[0].0 == k {
        if j != 0 {
            assert(s[j].0 == t[j].0);
        }
    } else if key_lt(k, s[0].0) {
        if j != 0 {
            assert(s[j - 1].0 == t[j].0);
        }
    } else {
        if j == 0 {
            assert(s[0].0 == t[0].0);
        } else {
            assert(t[j] == store(s.drop_first(), k, v)[j - 1]);
            lemma_store_entries_keys(s.drop_first(), k, v, j - 1);
            if store(s.drop_first(), k, v)[j - 1].0 != k {
                let l = choose|l: int|
                    0 <= l < s.drop_first().len() && (#[trigger] s.drop_first()[l]).0 == store(
                        s.drop_first(),
                        k,
                        v,
                    )[j - 1].0;
                assert(s[l + 1].0 == t[j].0);
            }
        }
    }
}

/// An entry's key is always found.
pub proof fn lemma_entry_implies_lookup<V>(s: Seq<(PairKey, V)>, j: int)
    requires
        0 <= j < s.len(),
    ensures
        lookup(s, s[j].0) is Some,
    decreases j,
{
    if s[0].0 == s[j].0 {
    } else {
        lemma_entry_implies_lookup(s.drop_first(), j - 1);
    }
}

/// Writing a key above every present key appends the entry.
pub proof fn lemma_store_append<V>(s: Seq<(PairKey, V)>, k: PairKey, v: V)
    requires
        forall|j: int| 0 <= j < s.len() ==> key_lt(#[trigger] s[j].0, k),
    ensures
        store(s, k, v) =~= s.push((k, v)),
    decreases s.len(),
{
    if s.len() == 0 {
    } else {
        assert(key_lt(s[0].0, k));
        lemma_store_append(s.drop_first(), k, v);
        assert(store(s, k, v) == seq![s[0]] + store(s.drop_first(), k, v));
        assert(seq![s[0]] + s.drop_first().push((k, v)) =~= s.push((k, v)));
    }
}

/// A sorted association list from (state, action) pairs to values.
#[derive(Clone, Debug, PartialEq, Eq)]
pub struct PairMap<V> {
    entries: Vec<(PairKey, V)>,
}

impl<V> View for PairMap<V> {
    type V = Seq<(PairKey, V)>;

    closed spec fn view(&self) -> Seq<(PairKey, V)> {
        self.entries@
    }
}

impl<V> PairMap<V> {
    /// Entries are strictly sorted by key.
    pub open spec fn wf(&self) -> bool {
        sorted(self@)
    }

    pub fn new() -> (r: PairMap<V>)
        ensures
            r@ =~= Seq::<(PairKey, V)>::empty(),
            r.wf(),
    {
        PairMap { entries: Vec::new() }
    }

    pub fn len(&self) -> (r: usize)
        ensures
            r == self@.len(),
    {
        self.entries.len()
    }

    /// The entry at a position, in key order.
    pub fn entry_at(&self, i: usize) -> (r: &(PairKey, V))
        requires
            i < self@.len(),
        ensures
            *r == self@[i as int],
    {
        &self.entries[i]
    }

    /// A reference to the value under `k`, if the key is present.
    pub fn get(&self, k: PairKey) -> (r: Option<&V>)
        ensures
            match r {
                Some(v) => lookup(self@, k) == Some(*v),
                None => lookup(self@, k) is None,
            },
    {
        let ghost s = self@;
        proof {
            assert(s.skip(0) =~= s);
        }
        let mut i: usize = 0;
        while i < self.entries.len()
            invariant
                i <= s.len(),
                s == self@,
                lookup(s.skip(i as int), k) == lookup(s, k),
            decreases s.len() - i,
        {
            let e = &self.entries[i];
            if e.0.0.0 == k.0.0 && e.0.1.0 == k.1.0 {
                assert(s.skip(i as int)[0] == s[i as int]);
                assert(s[i as int].0 == k);
                return Some(&e.1);
            }
            proof {
                assert(s.skip(i as int)[0] == s[i as int]);
                assert(s.skip(i as int).drop_first() =~= s.skip(i + 1));
            }
            i += 1;
        }
        assert(s.skip(s.len() as int) =~= Seq::<(PairKey, V)>::empty());
        None
    }

    /// Write `v` under `k`, inserting at the sorted position or
    /// overwriting in place.
    pub fn set(&mut self, k: PairKey, v: V)
        requires
            old(self).wf(),
        ensures
            final (self).wf(),
            final (self)@ == store(old(self)@, k, v),
    {
        let ghost s = self@;
        proof {
            assert(s.skip(0) =~= s);
            assert(s.take(0) =~= Seq::<(PairKey, V)>::empty());
        }
        let mut i: usize = 0;
        while i < self.entries.len()
            invariant
                i <= s.len(),
                s == self@,
                sorted(s),
                forall|j: int| 0 <= j < i ==> key_lt(#[trigger] s[j].0, k),
                store(s, k, v) =~= s.take(i as int) + store(s.skip(i as int), k, v),
            decreases s.len() - i,
        {
            let e = &self.entries[i];
            let ghost tail = s.skip(i as int);
            proof {
                assert(tail[0] == s[i as int]);
                assert(tail.drop_first() =~= s.skip(i + 1));
            }
            if e.0.0.0 == k.0.0 && e.0.1.0 == k.1.0 {
                // overwrite in place
                assert(s[i as int].0 == k);
                self.entries.set(i, (k, v));
                proof {
                    assert(tail.len() > 0 && tail[0].0 == k);
                    assert(store(tail, k, v) == tail.update(0, (k, v)));
                    assert(self@ == s.update(i as int, (k, v)));
                    lemma_sorted_update(s, i as int, k, v);
                    assert(self@ == s.take(i as int) + tail.update(0, (k, v)));
                    assert(store(s, k, v) == s.take(i as int) + store(tail, k, v));
                    assert(self@ == store(s, k, v));
                }
                return ;
            }
            let goes_before = if k.0.0 < e.0.0.0 {
                true
            } else {
                k.0.0 == e.0.0.0 && k.1.0 < e.0.1.0
            };
            if goes_before {
                // a new key: insert at the sorted position
                assert(key_lt(k, s[i as int].0));
                self.entries.insert(i, (k, v));
                proof {
                    assert(tail.len() > 0 && key_lt(k, tail[0].0));
                    assert(store(tail, k, v) == seq![(k, v)] + tail);
                    assert(self@ == s.insert(i as int, (k, v)));
                    assert(self@ =~= s.take(i as int) + (seq![(k, v)] + tail));
                    lemma_sorted_insert(s, i as int, k, v);
                    assert(store(s, k, v) == s.take(i as int) + store(tail, k, v));
                    assert(self@ == store(s, k, v));
                }
                return ;
            }
            proof {
                assert(key_lt(s[i as int].0, k));
                assert(store(tail, k, v) =~= seq![tail[0]] + store(tail.drop_first(), k, v));
                assert(s.take(i as int) + store(tail, k, v) =~= s.take(i + 1) + store(
                    s.skip(i + 1),
                    k,
                    v,
                ));
            }
            i += 1;
        }
        // every key is smaller: the new entry goes at the end
        self.entries.push((k, v));
        proof {
            assert(s.skip(s.len() as int) =~= Seq::<(PairKey, V)>::empty());
            assert(store(s.skip(s.len() as int), k, v) =~= seq![(k, v)]);
            assert(self@ =~= s.take(s.len() as int) + seq![(k, v)]);
            assert(self@ =~= store(s, k, v));
            assert forall|a: int, b: int| 0 <= a < b < self@.len() implies key_lt(
                self@[a].0,
                self@[b].0,
            ) by {
                if b < s.len() {
                } else {
                    assert(self@[b].0 == k);
                    assert(key_lt(s[a].0, k));
                }
            }
        }
    }
}

impl<V: Copy> PairMap<V> {
    /// An independent copy with the same entries.
    pub fn duplicate(&self) -> (r: PairMap<V>)
        ensures
            r@ == self@,
    {
        let mut entries: Vec<(PairKey, V)> = Vec::new();
        let mut i: usize = 0;
        while i < self.entries.len()
            invariant
                i <= self@.len(),
                entries@ =~= self@.take(i as int),
            decreases self@.len() - i,
        {
            entries.push(self.entries[i]);
            i += 1;
        }
        proof {
            assert(self@.take(self@.len() as int) =~= self@);
        }
        PairMap { entries }
    }
}

/// The key under which a state-keyed table files a state.
pub open spec fn skey(s: IndexState) -> PairKey {
    (s, IndexAction(0))
}

/// A sorted association list keyed by state alone (state values,
/// per-state visit counts).  It reuses `PairMap` with a fixed action
/// slot, so `lookup` and `store` describe it through `skey`.
#[derive(Clone, Debug, PartialEq, Eq)]
pub struct StateTable<V> {
    inner: PairMap<V>,
}

impl<V> View for StateTable<V> {
    type V = Seq<(PairKey, V)>;

    closed spec fn view(&self) -> Seq<(PairKey, V)> {
        self.inner@
    }
}

impl<V> StateTable<V> {
    pub open spec fn wf(&self) -> bool {
        sorted(self@)
    }

    pub fn new() -> (r: StateTable<V>)
        ensures
            r@ =~= Seq::<(PairKey, V)>::empty(),
            r.wf(),
    {
        StateTable { inner: PairMap::new() }
    }

    pub fn len(&self) -> (r: usize)
        ensures
            r == self@.len(),
    {
        self.inner.len()
    }

    /// The entry at a position, in key order.
    pub fn entry_at(&self, i: usize) -> (r: &(PairKey, V))
        requires
            i < self@.len(),
        ensures
            *r == self@[i as int],
    {
        self.inner.entry_at(i)
    }

    /// A reference to the value under state `s`, if present.
    pub fn get(&self, s: IndexState) -> (r: Option<&V>)
        ensures
            match r {
                Some(v) => lookup(self@, skey(s)) == Some(*v),
                None => lookup(self@, skey(s)) is None,
            },
    {
        self.inner.get((s, IndexAction(0)))
    }

    /// Write `v` under state `s`.
    pub fn set(&mut self, s: IndexState, v: V)
        requires
            old(self).wf(),
        ensures
            final (self).wf(),
            final (self)@ == store(old(self)@, skey(s), v),
    {
        self.inner.set((s, IndexAction(0)), v)
    }
}

impl<V: Copy> StateTable<V> {
    /// An independent copy with the same entries.
    pub fn duplicate(&self) -> (r: StateTable<V>)
        ensures
            r@ == self@,
    {
        StateTable { inner: self.inner.duplicate() }
    }
}

/// A key of the Dyna-Q visitation counts: (state, action, successor).
pub type TripleKey = (IndexState, IndexAction, IndexState);

/// The value stored under `k` in a triple-keyed list, if any.
pub open spec fn lookup3<V>(s: Seq<(TripleKey, V)>, k: TripleKey) -> Option<V>
    decreases s.len(),
{
    if s.len() == 0 {
        None
    } else if s[0].0 == k {
        Some(s[0].1)
    } else {
        lookup3(s.drop_first(), k)
    }
}

/// The triple-keyed list after writing `v` under `k`: an existing
/// entry is overwritten in place, a new key is appended.
pub open spec fn store3<V>(s: Seq<(TripleKey, V)>, k: TripleKey, v: V) -> Seq<(TripleKey, V)>
    decreases s.len(),
{
    if s.len() == 0 {
        seq![(k, v)]
    } else if s[0].0 == k {
        s.update(0, (k, v))
    } else {
        seq![s[0]] + store3(s.drop_first(), k, v)
    }
}

/// Reading back a write on a triple-keyed list.
pub proof fn lemma_lookup3_store3<V>(s: Seq<(TripleKey, V)>, k: TripleKey, v: V, k2: TripleKey)
    ensures
        lookup3(store3(s, k, v), k2) == if k2 == k {
            Some(v)
        } else {
            lookup3(s, k2)
        },
    decreases s.len(),
{
    if s.len() == 0 {
        let t = seq![(k, v)];
        assert(t[0] == (k, v));
        if k2 != k {
            assert(t.drop_first() =~= s);
        }
    } else if s[0].0 == k {
        let t = s.update(0, (k, v));
        assert(t[0] == (k, v));
        assert(t.drop_first() =~= s.drop_first());
    } else {
        let t = seq![s[0]] + store3(s.drop_first(), k, v);
        assert(t[0] == s[0]);
        assert(t.drop_first() =~= store3(s.drop_first(), k, v));
        lemma_lookup3_store3(s.drop_first(), k, v, k2);
    }
}

/// Total visits recorded for a (state, action) pair, over every
/// successor.
pub open spec fn group_total(s: Seq<(TripleKey, u64)>, sa: PairKey) -> int
    decreases s.len(),
{
    if s.len() == 0 {
        0
    } else {
        (if s[0].0.0 == sa.0 && s[0].0.1 == sa.1 {
            s[0].1 as int
        } else {
            0
        }) + group_total(s.drop_first(), sa)
    }
}

/// A recorded count never exceeds its pair's total.
pub proof fn lemma_group_total_at_least(s: Seq<(TripleKey, u64)>, k: TripleKey)
    ensures
        lookup3(s, k) is Some ==> group_total(s, (k.0, k.1)) >= lookup3(s, k).unwrap(),
        group_total(s, (k.0, k.1)) >= 0,
    decreases s.len(),
{
    if s.len() == 0 {
    } else {
        lemma_group_total_at_least(s.drop_first(), k);
    }
}

/// An insertion-ordered association list over (state, action,
/// successor) keys: the Dyna-Q visitation counts.
#[derive(Clone, Debug, PartialEq, Eq)]
pub struct TripleMap<V> {
    entries: Vec<(TripleKey, V)>,
}

impl<V> View for TripleMap<V> {
    type V = Seq<(TripleKey, V)>;

    closed spec fn view(&self) -> Seq<(TripleKey, V)> {
        self.entries@
    }
}

impl<V> TripleMap<V> {
    pub fn new() -> (r: TripleMap<V>)
        ensures
            r@ =~= Seq::<(TripleKey, V)>::empty(),
    {
        TripleMap { entries: Vec::new() }
    }

    pub fn len(&self) -> (r: usize)
        ensures
            r == self@.len(),
    {
        self.entries.len()
    }

    /// The entry at a position, in insertion order.
    pub fn entry_at(&self, i: usize) -> (r: &(TripleKey, V))
        requires
            i < self@.len(),
        ensures
            *r == self@[i as int],
    {
        &self.entries[i]
    }

    /// A reference to the value under `k`, if the key is present.
    pub fn get(&self, k: TripleKey) -> (r: Option<&V>)
        ensures
            match r {
                Some(v) => lookup3(self@, k) == Some(*v),
                None => lookup3(self@, k) is None,
            },
    {
        let ghost s = self@;
        proof {
            assert(s.skip(0) =~= s);
        }
        let mut i: usize = 0;
        while i < self.entries.len()
            invariant
                i <= s.len(),
                s == self@,
                lookup3(s.skip(i as int), k) == lookup3(s, k),
            decreases s.len() - i,
        {
            let e = &self.entries[i];
            if e.0.0.0 == k.0.0 && e.0.1.0 == k.1.0 && e.0.2.0 == k.2.0 {
                assert(s.skip(i as int)[0] == s[i as int]);
                assert(s[i as int].0 == k);
                return Some(&e.1);
            }
            proof {
                assert(s.skip(i as int)[0] == s[i as int]);
                assert(s.skip(i as int).drop_first() =~= s.skip(i + 1));
            }
            i += 1;
        }
        assert(s.skip(s.len() as int) =~= Seq::<(TripleKey, V)>::empty());
        None
    }

    /// Write `v` under `k`, overwriting in place or appending.
    pub fn set(&mut self, k: TripleKey, v: V)
        ensures
            final (self)@ == store3(old(self)@, k, v),
    {
        let ghost s = self@;
        proof {
            assert(s.skip(0) =~= s);
            assert(s.take(0) =~= Seq::<(TripleKey, V)>::empty());
        }
        let mut i: usize = 0;
        while i < self.entries.len()
            invariant
                i <= s.len(),
                s == self@,
                forall|j: int| 0 <= j < i ==> (#[trigger] s[j]).0 != k,
                store3(s, k, v) =~= s.take(i as int) + store3(s.skip(i as int), k, v),
            decreases s.len() - i,
        {
            let e = &self.entries[i];
            let ghost tail = s.skip(i as int);
            proof {
                assert(tail[0] == s[i as int]);
                assert(tail.drop_first() =~= s.skip(i + 1));
            }
            if e.0.0.0 == k.0.0 && e.0.1.0 == k.1.0 && e.0.2.0 == k.2.0 {
                assert(s[i as int].0 == k);
                self.entries.set(i, (k, v));
                proof {
                    assert(store3(tail, k, v) == tail.update(0, (k, v)));
                    assert(self@ =~= s.take(i as int) + tail.update(0, (k, v)));
                    assert(self@ == store3(s, k, v));
                }
                return ;
            }
            proof {
                assert(s[i as int].0 != k);
                assert(store3(tail, k, v) =~= seq![tail[0]] + store3(tail.drop_first(), k, v));
                assert(s.take(i as int) + store3(tail, k, v) =~= s.take(i + 1) + store3(
                    s.skip(i + 1),
                    k,
                    v,
                ));
            }
            i += 1;
        }
        self.entries.push((k, v));
        proof {
            assert(s.skip(s.len() as int) =~= Seq::<(TripleKey, V)>::empty());
            assert(store3(s.skip(s.len() as int), k, v) =~= seq![(k, v)]);
            assert(self@ =~= s.take(s.len() as int) + seq![(k, v)]);
            assert(self@ =~= store3(s, k, v));
        }
    }
}

impl TripleMap<u64> {
    /// Total visits recorded for a pair, over every successor.
    pub fn pair_total(&self, sa: PairKey) -> (r: u128)
        ensures
            r == group_total(self@, sa),
    {
        let ghost s = self@;
        proof {
            assert(s.skip(0) =~= s);
            lemma_group_total_bound(s, sa);
        }
        let mut acc: u128 = 0;
        let mut i: usize = 0;
        while i < self.entries.len()
            invariant
                i <= s.len(),
                s == self@,
                acc + group_total(s.skip(i as int), sa) == group_total(s, sa),
                acc <= i * 0xffff_ffff_ffff_ffff,
            decreases s.len() - i,
        {
            let e = &self.entries[i];
            let ghost tail = s.skip(i as int);
            proof {
                assert(tail[0] == s[i as int]);
                assert(tail.drop_first() =~= s.skip(i + 1));
                lemma_mul_bound_u128(i as int, s.len() as int);
            }
            if e.0.0.0 == sa.0.0 && e.0.1.0 == sa.1.0 {
                acc = acc + (e.1 as u128);
            }
            i += 1;
        }
        proof {
            assert(s.skip(s.len() as int) =~= Seq::<(TripleKey, u64)>::empty());
        }
        acc
    }
}

/// The group total of `n` entries fits comfortably in `u128`.
proof fn lemma_group_total_bound(s: Seq<(TripleKey, u64)>, sa: PairKey)
    ensures
        0 <= group_total(s, sa) <= s.len() * 0xffff_ffff_ffff_ffff,
    decreases s.len(),
{
    if s.len() == 0 {
    } else {
        lemma_group_total_bound(s.drop_first(), sa);
        vstd::arithmetic::mul::lemma_mul_is_distributive_add_other_way(
            0xffff_ffff_ffff_ffff,
            s.len() - 1,
            1,
        );
    }
}

/// Multiplication by a constant respects the index bound.
proof fn lemma_mul_bound_u128(i: int, n: int)
    requires
        0 <= i < n,
        n <= 0xffff_ffff_ffff_ffff,
    ensures
        (i + 1) * 0xffff_ffff_ffff_ffff == i * 0xffff_ffff_ffff_ffff + 0xffff_ffff_ffff_ffff,
        (i + 1) * 0xffff_ffff_ffff_ffff <= n * 0xffff_ffff_ffff_ffff,
        n * 0xffff_ffff_ffff_ffff <= 0xffff_ffff_ffff_ffff * 0xffff_ffff_ffff_ffff,
{
    vstd::arithmetic::mul::lemma_mul_is_distributive_add_other_way(0xffff_ffff_ffff_ffff, i, 1);
    vstd::arithmetic::mul::lemma_mul_basics(0xffff_ffff_ffff_ffff);
    vstd::arithmetic::mul::lemma_mul_inequality(i + 1, n, 0xffff_ffff_ffff_ffff);
    vstd::arithmetic::mul::lemma_mul_inequality(
        n,
        0xffff_ffff_ffff_ffff,
        0xffff_ffff_ffff_ffff,
    );
}

/// Overwriting the value at a position keeps a sorted table sorted and
/// equal to `store`.
proof fn lemma_sorted_update<V>(s: Seq<(PairKey, V)>, i: int, k: PairKey, v: V)
    requires
        sorted(s),
        0 <= i < s.len(),
        s[i].0 == k,
    ensures
        sorted(s.update(i, (k, v))),
        s.take(i) + s.skip(i).update(0, (k, v)) =~= s.update(i, (k, v)),
{
    let t = s.update(i, (k, v));
    assert forall|a: int, b: int| 0 <= a < b < t.len() implies key_lt(t[a].0, t[b].0) by {
        assert(key_lt(s[a].0, s[b].0));
    }
}

/// Inserting a new key at its sorted position keeps the table sorted.
proof fn lemma_sorted_insert<V>(s: Seq<(PairKey, V)>, i: int, k: PairKey, v: V)
    requires
        sorted(s),
        0 <= i <= s.len(),
        forall|j: int| 0 <= j < i ==> key_lt(#[trigger] s[j].0, k),
        i < s.len() ==> key_lt(k, s[i].0),
    ensures
        sorted(s.take(i) + (seq![(k, v)] + s.skip(i))),
{
    let t = s.take(i) + (seq![(k, v)] + s.skip(i));
    assert forall|a: int, b: int| 0 <= a < b < t.len() implies key_lt(t[a].0, t[b].0) by {
        if a < i {
            assert(t[a] == s[a]);
        } else if a == i {
            assert(t[a].0 == k);
        } else {
            assert(t[a] == s[a - 1]);
        }
        if b < i {
            assert(t[b] == s[b]);
        } else if b == i {
            assert(t[b].0 == k);
        } else {
            assert(t[b] == s[b - 1]);
        }
        if a < i && b > i {
            assert(key_lt(s[a].0, k));
            assert(key_lt(k, s[b - 1].0) || i == b - 1);
            if i < b - 1 {
                assert(key_lt(k, s[b - 1].0));
            }
        }
    }
}

} // verus!
