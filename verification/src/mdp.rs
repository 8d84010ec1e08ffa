//! States, actions and the transition-table MDP the engine consumes.
//!
//! States and actions are opaque index identifiers: the engine never
//! inspects their structure, it only compares them.  An environment
//! enumerates its own states and actions as indices and registers, for
//! every advertised (state, action) pair, a list of weighted
//! transitions whose probabilities sum to one; registration validates
//! the weights, so a well-formed `MapMdp` can always be sampled.
//!
//! The capability set the training algorithms consume is `MapMdp`'s
//! method surface: transition sampling, action enumeration, the
//! terminal test, the discount factor, the initial state and the
//! universe of advertised pairs.

use crate::fixed::{Fixed, SCALE};
use crate::rng::{sum_u64, weighted_next, weighted_value};
use crate::table::{key_lt, lookup, store, PairKey, PairMap};
use vstd::prelude::*;

verus! {

/// An opaque state identifier.
#[derive(Clone, Copy, Debug, PartialEq, Eq, Structural, Hash, PartialOrd, Ord)]
pub struct IndexState(pub usize);

/// An opaque action identifier.
#[derive(Clone, Copy, Debug, PartialEq, Eq, Structural, Hash, PartialOrd, Ord)]
pub struct IndexAction(pub usize);

/// One weighted outcome of performing an action: probability (a
/// fixed-point value in [0, 1]), successor state, reward.
#[derive(Clone, Copy, Debug, PartialEq, Eq, Structural)]
pub struct Transition {
    pub prob: Fixed,
    pub next: IndexState,
    pub reward: Fixed,
}

/// Why an environment registration was rejected.
#[derive(Clone, Copy, Debug, PartialEq, Eq, Structural)]
pub enum MdpError {
    /// The (state, action) pair already has a transition list.
    DuplicateStateAction,
    /// The probabilities are not nonnegative values summing to one.
    InvalidTransitions,
}

/// The sampling weights of a transition list.
pub open spec fn weights_of(ts: Seq<Transition>) -> Seq<u64> {
    ts.map_values(|t: Transition| t.prob.0 as u64)
}

/// A usable transition list: nonempty, probabilities in [0, 1]
/// summing to exactly one.
pub open spec fn trans_wf(ts: Seq<Transition>) -> bool {
    &&& ts.len() > 0
    &&& forall|i: int| 0 <= i < ts.len() ==> 0 <= (#[trigger] ts[i]).prob.0 <= SCALE
    &&& sum_u64(weights_of(ts)) == SCALE
}

/// The actions advertised for `s`, in the table's key order.
pub open spec fn possible_actions(
    trans: Seq<(PairKey, Vec<Transition>)>,
    s: IndexState,
) -> Seq<IndexAction>
    decreases trans.len(),
{
    if trans.len() == 0 {
        Seq::empty()
    } else {
        possible_actions(trans.drop_last(), s) + if trans.last().0.0 == s {
            seq![trans.last().0.1]
        } else {
            Seq::empty()
        }
    }
}

/// What sampling a transition for `sa` returns and what it leaves in
/// the generator: the outcome under the weighted draw the generator
/// yields on this weight list.
pub open spec fn perform_model(
    trans: Seq<(PairKey, Vec<Transition>)>,
    sa: PairKey,
    rng: rand_chacha::ChaCha20Rng,
) -> ((IndexState, Fixed), rand_chacha::ChaCha20Rng)
    recommends
        lookup(trans, sa) is Some,
{
    let ts = lookup(trans, sa).unwrap()@;
    let w = weights_of(ts);
    let i = weighted_value(rng, w) as int;
    ((ts[i].next, ts[i].reward), weighted_next(rng, w))
}

/// A finite MDP held as a transition table.
#[derive(Clone, Debug)]
pub struct MapMdp {
    transitions: PairMap<Vec<Transition>>,
    terminal_states: Vec<IndexState>,
    initial_state: IndexState,
    discount_factor: Fixed,
    states_actions: Vec<(IndexState, IndexAction)>,
}

impl MapMdp {
    /// The transition table's entries, in key order.
    pub closed spec fn trans(&self) -> Seq<(PairKey, Vec<Transition>)> {
        self.transitions@
    }

    /// The terminal states, in registration order.
    pub closed spec fn terminals(&self) -> Seq<IndexState> {
        self.terminal_states@
    }

    pub closed spec fn initial(&self) -> IndexState {
        self.initial_state
    }

    pub closed spec fn discount(&self) -> Fixed {
        self.discount_factor
    }

    /// The advertised (state, action) universe, in registration order.
    pub closed spec fn pairs(&self) -> Seq<(IndexState, IndexAction)> {
        self.states_actions@
    }

    /// Well-formed: a sorted table of usable transition lists, and the
    /// advertised pair list is exactly the table's key set, free of
    /// duplicates.
    pub open spec fn wf(&self) -> bool {
        &&& crate::table::sorted(self.trans())
        &&& forall|j: int|
            0 <= j < self.trans().len() ==> trans_wf((#[trigger] self.trans()[j]).1@)
        &&& forall|i: int|
            0 <= i < self.pairs().len() ==> lookup(self.trans(), #[trigger] self.pairs()[i]) is Some
        &&& forall|j: int|
            0 <= j < self.trans().len() ==> self.pairs().contains(
                (#[trigger] self.trans()[j]).0,
            )
        &&& forall|i: int, j: int|
            0 <= i < j < self.pairs().len() ==> self.pairs()[i] != self.pairs()[j]
    }

    pub fn new(discount_factor: Fixed, initial_state: IndexState) -> (r: MapMdp)
        ensures
            r.wf(),
            r.trans() =~= Seq::<(PairKey, Vec<Transition>)>::empty(),
            r.terminals() =~= Seq::<IndexState>::empty(),
            r.pairs() =~= Seq::<(IndexState, IndexAction)>::empty(),
            r.initial() == initial_state,
            r.discount() == discount_factor,
    {
        MapMdp {
            transitions: PairMap::new(),
            terminal_states: Vec::new(),
            initial_state,
            discount_factor,
            states_actions: Vec::new(),
        }
    }

    /// Register the transition list of one advertised (state, action)
    /// pair.  Re-registering a pair, or handing probabilities that are
    /// not nonnegative values summing to one, is rejected and leaves
    /// the MDP unchanged.
    pub fn add_transition_vector(&mut self, sa: (IndexState, IndexAction), transition: Vec<
        Transition,
    >) -> (r: Result<(), MdpError>)
        requires
            old(self).wf(),
        ensures
            final (self).wf(),
            final (self).terminals() == old(self).terminals(),
            final (self).initial() == old(self).initial(),
            final (self).discount() == old(self).discount(),
            match r {
                Ok(()) => {
                    &&& lookup(old(self).trans(), sa) is None
                    &&& trans_wf(transition@)
                    &&& final (self).trans() == store(old(self).trans(), sa, transition)
                    &&& final (self).pairs() == old(self).pairs().push(sa)
                },
                Err(MdpError::DuplicateStateAction) => {
                    &&& lookup(old(self).trans(), sa) is Some
                    &&& *final (self) == *old(self)
                },
                Err(MdpError::InvalidTransitions) => {
                    &&& !trans_wf(transition@)
                    &&& *final (self) == *old(self)
                },
            },
    {
        match self.transitions.get(sa) {
            Some(_) => {
                return Err(MdpError::DuplicateStateAction);
            },
            None => {},
        }
        if transition.len() == 0 {
            return Err(MdpError::InvalidTransitions);
        }
        // validate the weights: each in [0, 1], total exactly 1
        let ghost ts = transition@;
        let mut sum: u64 = 0;
        let mut i: usize = 0;
        while i < transition.len()
            invariant
                i <= ts.len(),
                ts == transition@,
                sum == sum_u64(weights_of(ts).take(i as int)),
                sum <= SCALE,
                forall|j: int| 0 <= j < i ==> 0 <= (#[trigger] ts[j]).prob.0 <= SCALE,
            decreases ts.len() - i,
        {
            let p = transition[i].prob.0;
            if p < 0 || p > SCALE {
                return Err(MdpError::InvalidTransitions);
            }
            if sum + (p as u64) > SCALE as u64 {
                proof {
                    lemma_sum_take_extend(weights_of(ts), i as int);
                    lemma_sum_nonneg_from(weights_of(ts), i + 1);
                }
                return Err(MdpError::InvalidTransitions);
            }
            proof {
                lemma_sum_take_extend(weights_of(ts), i as int);
            }
            sum = sum + (p as u64);
            i += 1;
        }
        proof {
            assert(weights_of(ts).take(ts.len() as int) =~= weights_of(ts));
        }
        if sum != SCALE as u64 {
            return Err(MdpError::InvalidTransitions);
        }
        let ghost old_trans = self.trans();
        let ghost old_pairs = self.pairs();
        self.transitions.set(sa, transition);
        self.states_actions.push(sa);
        proof {
            lemma_store_entries(old_trans, sa, transition);
            assert forall|i2: int| 0 <= i2 < self.pairs().len() implies lookup(
                self.trans(),
                #[trigger] self.pairs()[i2],
            ) is Some by {
                crate::table::lemma_lookup_store(old_trans, sa, transition, self.pairs()[i2]);
            }
            assert forall|j: int| 0 <= j < self.trans().len() implies self.pairs().contains(
                (#[trigger] self.trans()[j]).0,
            ) by {
                if self.trans()[j] == (sa, transition) {
                    assert(self.pairs()[old_pairs.len() as int] == sa);
                } else {
                    let l = choose|l: int|
                        0 <= l < old_trans.len() && old_trans[l] == self.trans()[j];
                    assert(old_pairs.contains(old_trans[l].0));
                    let m = choose|m: int| 0 <= m < old_pairs.len() && old_pairs[m] == old_trans[l].0;
                    assert(self.pairs()[m] == old_trans[l].0);
                }
            }
            assert forall|i2: int, j2: int| 0 <= i2 < j2 < self.pairs().len() implies self.pairs()[i2]
                != self.pairs()[j2] by {
                if j2 == old_pairs.len() {
                    assert(lookup(old_trans, old_pairs[i2]) is Some);
                }
            }
        }
        Ok(())
    }

    /// Mark a state terminal.
    pub fn add_terminal_state(&mut self, state: IndexState)
        requires
            old(self).wf(),
        ensures
            final (self).wf(),
            final (self).terminals() == old(self).terminals().push(state),
            final (self).trans() == old(self).trans(),
            final (self).initial() == old(self).initial(),
            final (self).discount() == old(self).discount(),
            final (self).pairs() == old(self).pairs(),
    {
        self.terminal_states.push(state);
    }

    /// Sample a successor state and reward for an advertised pair,
    /// proportionally to the registered probabilities.
    pub fn perform_action(&self, state_action: (IndexState, IndexAction), rng: &mut rand_chacha::ChaCha20Rng) -> (r: (
        IndexState,
        Fixed,
    ))
        requires
            self.wf(),
            lookup(self.trans(), state_action) is Some,
        ensures
            ({
                let (res, rng2) = perform_model(self.trans(), state_action, *old(rng));
                r == res && *final (rng) == rng2
            }),
    {
        proof {
            lemma_lookup_some_index(self.trans(), state_action);
        }
        let tv: &Vec<Transition> = self.transitions.get(state_action).unwrap();
        let ghost ts = tv@;
        let mut weights: Vec<u64> = Vec::new();
        let mut i: usize = 0;
        while i < tv.len()
            invariant
                i <= ts.len(),
                ts == tv@,
                trans_wf(ts),
                weights@ =~= weights_of(ts).take(i as int),
            decreases ts.len() - i,
        {
            weights.push(tv[i].prob.0 as u64);
            i += 1;
        }
        proof {
            assert(weights@ =~= weights_of(ts));
        }
        let idx = crate::rng::sample_weighted(rng, &weights);
        (tv[idx].next, tv[idx].reward)
    }

    /// The actions advertised for a state, in ascending order.
    pub fn get_possible_actions(&self, current_state: IndexState) -> (r: Vec<IndexAction>)
        ensures
            r@ == possible_actions(self.trans(), current_state),
    {
        let mut r: Vec<IndexAction> = Vec::new();
        let n = self.transitions.len();
        let mut i: usize = 0;
        proof {
            assert(self.trans().take(0) =~= Seq::<(PairKey, Vec<Transition>)>::empty());
        }
        while i < n
            invariant
                i <= self.trans().len(),
                n == self.trans().len(),
                r@ == possible_actions(self.trans().take(i as int), current_state),
            decreases n - i,
        {
            let e = self.transitions.entry_at(i);
            proof {
                assert(self.trans().take(i + 1).drop_last() =~= self.trans().take(i as int));
                assert(self.trans().take(i + 1).last() == self.trans()[i as int]);
            }
            if e.0.0.0 == current_state.0 {
                r.push(e.0.1);
                proof {
                    assert(r@ =~= possible_actions(self.trans().take(i + 1), current_state));
                }
            } else {
                proof {
                    assert(r@ =~= possible_actions(self.trans().take(i + 1), current_state));
                }
            }
            i += 1;
        }
        proof {
            assert(self.trans().take(self.trans().len() as int) =~= self.trans());
        }
        r
    }

    /// The whole advertised (state, action) universe.
    pub fn get_all_state_actions(&self) -> (r: &Vec<(IndexState, IndexAction)>)
        ensures
            r@ == self.pairs(),
    {
        &self.states_actions
    }

    /// How many pairs are advertised.
    pub fn num_pairs(&self) -> (r: usize)
        ensures
            r == self.trans().len(),
    {
        self.transitions.len()
    }

    /// The key of the transition-table entry at a position.
    pub fn pair_key_at(&self, i: usize) -> (r: (IndexState, IndexAction))
        requires
            i < self.trans().len(),
        ensures
            r == self.trans()[i as int].0,
    {
        self.transitions.entry_at(i).0
    }

    /// The transition-table entry at a position.
    pub fn transition_at(&self, i: usize) -> (r: &(PairKey, Vec<Transition>))
        requires
            i < self.trans().len(),
        ensures
            *r == self.trans()[i as int],
    {
        self.transitions.entry_at(i)
    }

    pub fn is_terminal(&self, state: IndexState) -> (r: bool)
        ensures
            r == self.terminals().contains(state),
    {
        let mut i: usize = 0;
        while i < self.terminal_states.len()
            invariant
                i <= self.terminals().len(),
                forall|j: int| 0 <= j < i ==> self.terminals()[j] != state,
            decreases self.terminals().len() - i,
        {
            if self.terminal_states[i].0 == state.0 {
                proof {
                    assert(self.terminals()[i as int] == state);
                }
                return true;
            }
            i += 1;
        }
        false
    }

    /// The configured start state; the generator is not consulted.
    pub fn get_initial_state(&self, rng: &mut rand_chacha::ChaCha20Rng) -> (r: IndexState)
        ensures
            r == self.initial(),
            *final (rng) == *old(rng),
    {
        self.initial_state
    }

    pub fn get_discount_factor(&self) -> (r: Fixed)
        ensures
            r == self.discount(),
    {
        self.discount_factor
    }
}

/// Extending a prefix sum by one element.
proof fn lemma_sum_take_extend(w: Seq<u64>, i: int)
    requires
        0 <= i < w.len(),
    ensures
        sum_u64(w.take(i + 1)) == sum_u64(w.take(i)) + w[i],
    decreases i,
{
    if i == 0 {
        assert(w.take(1) =~= seq![w[0]]);
        assert(w.take(1).drop_first() =~= Seq::<u64>::empty());
        assert(w.take(0) =~= Seq::<u64>::empty());
    } else {
        assert(w.take(i + 1).drop_first() =~= w.drop_first().take(i));
        assert(w.take(i).drop_first() =~= w.drop_first().take(i - 1));
        lemma_sum_take_extend(w.drop_first(), i - 1);
        assert(w.take(i + 1)[0] == w[0]);
        assert(w.take(i)[0] == w[0]);
    }
}

/// A suffix of weights contributes nonnegatively to the sum.
proof fn lemma_sum_nonneg_from(w: Seq<u64>, i: int)
    requires
        0 <= i <= w.len(),
    ensures
        sum_u64(w) >= sum_u64(w.take(i)),
    decreases w.len() - i,
{
    if i == w.len() {
        assert(w.take(i) =~= w);
    } else {
        lemma_sum_take_extend(w, i);
        lemma_sum_nonneg_from(w, i + 1);
    }
}

/// A found key names an actual entry.
pub proof fn lemma_lookup_some_index<V>(s: Seq<(PairKey, V)>, k: PairKey)
    requires
        lookup(s, k) is Some,
    ensures
        exists|i: int|
            0 <= i < s.len() && #[trigger] s[i].0 == k && s[i].1 == lookup(s, k).unwrap(),
    decreases s.len(),
{
    if s.len() == 0 {
    } else if s[0].0 == k {
        assert(s[0].0 == k && s[0].1 == lookup(s, k).unwrap());
    } else {
        lemma_lookup_some_index(s.drop_first(), k);
        let i = choose|i: int|
            0 <= i < s.drop_first().len() && #[trigger] s.drop_first()[i].0 == k
                && s.drop_first()[i].1 == lookup(s.drop_first(), k).unwrap();
        assert(s[i + 1].0 == k && s[i + 1].1 == lookup(s, k).unwrap());
    }
}

/// Every entry of a written table is the written entry or an entry of
/// the original.
pub proof fn lemma_store_entries<V>(s: Seq<(PairKey, V)>, k: PairKey, v: V)
    ensures
        forall|j: int|
            0 <= j < store(s, k, v).len() ==> (#[trigger] store(s, k, v)[j] == (k, v) || exists|
                l: int,
            |
                0 <= l < s.len() && s[l] == store(s, k, v)[j]),
    decreases s.len(),
{
    let t = store(s, k, v);
    if s.len() == 0 {
    } else if s[0].0 == k {
        assert forall|j: int| 0 <= j < t.len() implies (t[j] == (k, v) || exists|l: int|
            0 <= l < s.len() && s[l] == t[j]) by {
            if j != 0 {
                assert(s[j] == t[j]);
            }
        }
    } else if key_lt(k, s[0].0) {
        assert forall|j: int| 0 <= j < t.len() implies (t[j] == (k, v) || exists|l: int|
            0 <= l < s.len() && s[l] == t[j]) by {
            if j != 0 {
                assert(s[j - 1] == t[j]);
            }
        }
    } else {
        lemma_store_entries(s.drop_first(), k, v);
        let t2 = store(s.drop_first(), k, v);
        assert forall|j: int| 0 <= j < t.len() implies (t[j] == (k, v) || exists|l: int|
            0 <= l < s.len() && s[l] == t[j]) by {
            if j == 0 {
                assert(t[0] == s[0]);
                assert(s[0] == t[j]);
            } else {
                assert(t[j] == t2[j - 1]);
                if t2[j - 1] == (k, v) {
                } else {
                    let l = choose|l: int|
                        0 <= l < s.drop_first().len() && s.drop_first()[l] == t2[j - 1];
                    assert(s[l + 1] == t[j]);
                }
            }
        }
    }
}

} // verus!
