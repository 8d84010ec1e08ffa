//! The policy selector: greedy, uniform-random and epsilon-greedy
//! action choice over an action-value table.
//!
//! Tie rule, kept exactly as the engine has always behaved: the greedy
//! scan folds over the advertised actions in ascending order, keeping
//! the running maximum, and *resets to no choice* whenever the next
//! action ties the running maximum.  A scan that ends with no choice
//! falls back to a uniform-random pick over **all** the state's
//! advertised actions, not just the tied maximal ones.  In particular,
//! on a state where every action is tied, an even number of actions
//! always reaches the random fallback, while an odd number of three or
//! more ends the scan holding the last action.  The fallback also
//! covers a state with no actions at all, which signals episode end
//! (`None`).

use crate::fixed::{Fixed, SCALE};
use crate::mdp::{possible_actions, MapMdp, Transition};
use crate::mdp::{IndexAction, IndexState};
use crate::rng::{draw_next, draw_value};
use crate::table::{lemma_entry_implies_lookup, lookup, PairKey, QMap};
use vstd::prelude::*;

verus! {

/// The greedy fold over `actions` in order: the running maximum, reset
/// to `None` by a tie with the running maximum.
pub open spec fn greedy_fold(
    q: Seq<(PairKey, Fixed)>,
    s: IndexState,
    actions: Seq<IndexAction>,
) -> Option<(IndexAction, Fixed)>
    decreases actions.len(),
{
    if actions.len() == 0 {
        None
    } else {
        let prev = greedy_fold(q, s, actions.drop_last());
        let a = actions.last();
        let qa = lookup(q, (s, a)).unwrap();
        match prev {
            Some(p) => if qa.0 > p.1.0 {
                Some((a, qa))
            } else if qa.0 < p.1.0 {
                prev
            } else {
                None
            },
            None => Some((a, qa)),
        }
    }
}

/// What the uniform-random selector returns on a given action list and
/// what it leaves in the generator: no draw on an empty list.
pub open spec fn random_ma_model(actions: Seq<IndexAction>, rng: rand_chacha::ChaCha20Rng) -> (
    Option<IndexAction>,
    rand_chacha::ChaCha20Rng,
) {
    if actions.len() == 0 {
        (None, rng)
    } else {
        (
            Some(actions[draw_value(rng, actions.len() as u64) as int]),
            draw_next(rng, actions.len() as u64),
        )
    }
}

/// What the greedy selector returns on a given action list: the fold's
/// choice, or the random fallback when the fold ends with none.
pub open spec fn greedy_ma_model(
    q: Seq<(PairKey, Fixed)>,
    s: IndexState,
    actions: Seq<IndexAction>,
    rng: rand_chacha::ChaCha20Rng,
) -> (Option<IndexAction>, rand_chacha::ChaCha20Rng) {
    match greedy_fold(q, s, actions) {
        Some(p) => (Some(p.0), rng),
        None => random_ma_model(actions, rng),
    }
}

/// What the epsilon-greedy selector returns on a given action list:
/// one uniform draw over [0, 1), then greedy below `1 - epsilon`, else
/// uniform-random.
pub open spec fn eps_greedy_ma_model(
    q: Seq<(PairKey, Fixed)>,
    s: IndexState,
    actions: Seq<IndexAction>,
    epsilon: Fixed,
    rng: rand_chacha::ChaCha20Rng,
) -> (Option<IndexAction>, rand_chacha::ChaCha20Rng) {
    let x = draw_value(rng, SCALE as u64);
    let rng1 = draw_next(rng, SCALE as u64);
    if (x as int) < SCALE - epsilon.0 {
        greedy_ma_model(q, s, actions, rng1)
    } else {
        random_ma_model(actions, rng1)
    }
}

/// The selectors against an MDP consult its advertised actions.
pub open spec fn random_model(
    trans: Seq<(PairKey, Vec<Transition>)>,
    s: IndexState,
    rng: rand_chacha::ChaCha20Rng,
) -> (Option<IndexAction>, rand_chacha::ChaCha20Rng) {
    random_ma_model(possible_actions(trans, s), rng)
}

pub open spec fn greedy_model(
    trans: Seq<(PairKey, Vec<Transition>)>,
    q: Seq<(PairKey, Fixed)>,
    s: IndexState,
    rng: rand_chacha::ChaCha20Rng,
) -> (Option<IndexAction>, rand_chacha::ChaCha20Rng) {
    greedy_ma_model(q, s, possible_actions(trans, s), rng)
}

pub open spec fn eps_greedy_model(
    trans: Seq<(PairKey, Vec<Transition>)>,
    q: Seq<(PairKey, Fixed)>,
    s: IndexState,
    epsilon: Fixed,
    rng: rand_chacha::ChaCha20Rng,
) -> (Option<IndexAction>, rand_chacha::ChaCha20Rng) {
    eps_greedy_ma_model(q, s, possible_actions(trans, s), epsilon, rng)
}

/// The table knows every action on this list for state `s`.
pub open spec fn covered_list(
    q: Seq<(PairKey, Fixed)>,
    s: IndexState,
    actions: Seq<IndexAction>,
) -> bool {
    forall|i: int| 0 <= i < actions.len() ==> lookup(q, (s, #[trigger] actions[i])) is Some
}

/// The table knows every pair the MDP advertises.
pub open spec fn covers_all(trans: Seq<(PairKey, Vec<Transition>)>, q: Seq<(PairKey, Fixed)>) -> bool {
    forall|j: int| 0 <= j < trans.len() ==> lookup(q, (#[trigger] trans[j]).0) is Some
}

/// Every advertised action for `s` names an entry of the table.
proof fn lemma_possible_from_entries(trans: Seq<(PairKey, Vec<Transition>)>, s: IndexState)
    ensures
        forall|i: int|
            0 <= i < possible_actions(trans, s).len() ==> exists|j: int|
                0 <= j < trans.len() && (#[trigger] trans[j]).0 == (
                s,
                #[trigger] possible_actions(trans, s)[i],
                ),
    decreases trans.len(),
{
    if trans.len() == 0 {
    } else {
        lemma_possible_from_entries(trans.drop_last(), s);
        let pa = possible_actions(trans, s);
        let pp = possible_actions(trans.drop_last(), s);
        assert forall|i: int| 0 <= i < pa.len() implies exists|j: int|
            0 <= j < trans.len() && (#[trigger] trans[j]).0 == (s, #[trigger] pa[i]) by {
            if i < pp.len() {
                let j = choose|j: int|
                    0 <= j < trans.drop_last().len() && (#[trigger] trans.drop_last()[j]).0 == (
                    s,
                    pp[i],
                    );
                assert(trans[j].0 == (s, pa[i]));
            } else {
                assert(trans.last().0 == (s, pa[i]));
                assert(trans[trans.len() - 1].0 == (s, pa[i]));
            }
        }
    }
}

/// A table that knows every advertised pair covers every state's
/// advertised action list.
pub proof fn lemma_covers_all_covered(
    trans: Seq<(PairKey, Vec<Transition>)>,
    q: Seq<(PairKey, Fixed)>,
    s: IndexState,
)
    requires
        covers_all(trans, q),
    ensures
        covered_list(q, s, possible_actions(trans, s)),
{
    lemma_possible_from_entries(trans, s);
    let pa = possible_actions(trans, s);
    assert forall|i: int| 0 <= i < pa.len() implies lookup(q, (s, #[trigger] pa[i])) is Some by {
        let j = choose|j: int| 0 <= j < trans.len() && (#[trigger] trans[j]).0 == (s, pa[i]);
        assert(lookup(q, trans[j].0) is Some);
    }
}

/// Uniform pick over the given actions, or the episode-end signal on
/// an empty list.
pub fn random_policy_ma(possible_actions: &Vec<IndexAction>, rng: &mut rand_chacha::ChaCha20Rng) -> (r:
    Option<IndexAction>)
    ensures
        ({
            let (res, rng2) = random_ma_model(possible_actions@, *old(rng));
            r == res && *final (rng) == rng2
        }),
        r is Some ==> possible_actions@.contains(r.unwrap()),
{
    if possible_actions.len() == 0 {
        None
    } else {
        let idx = crate::rng::draw_below(rng, possible_actions.len() as u64) as usize;
        proof {
            assert(possible_actions@[idx as int] == possible_actions@[idx as int]);
        }
        Some(possible_actions[idx])
    }
}

/// Greedy pick over the given actions, with the documented tie
/// fallback to a uniform pick over the whole list.
pub fn greedy_policy_ma(
    possible_actions: &Vec<IndexAction>,
    q_map: &QMap,
    current_state: IndexState,
    rng: &mut rand_chacha::ChaCha20Rng,
) -> (r: Option<IndexAction>)
    requires
        covered_list(q_map@, current_state, possible_actions@),
    ensures
        ({
            let (res, rng2) = greedy_ma_model(q_map@, current_state, possible_actions@, *old(rng));
            r == res && *final (rng) == rng2
        }),
        r is Some ==> possible_actions@.contains(r.unwrap()),
{
    let ghost pa = possible_actions@;
    let mut acc: Option<(IndexAction, Fixed)> = None;
    proof {
        assert(pa.take(0) =~= Seq::<IndexAction>::empty());
    }
    let mut i: usize = 0;
    while i < possible_actions.len()
        invariant
            i <= pa.len(),
            pa == possible_actions@,
            acc == greedy_fold(q_map@, current_state, pa.take(i as int)),
        decreases pa.len() - i,
    {
        let a = possible_actions[i];
        let qa = *q_map.get((current_state, a)).unwrap();
        proof {
            assert(pa.take(i + 1).drop_last() =~= pa.take(i as int));
            assert(pa.take(i + 1).last() == pa[i as int]);
        }
        acc = match acc {
            Some(p) => {
                if qa.0 > p.1.0 {
                    Some((a, qa))
                } else if qa.0 < p.1.0 {
                    Some(p)
                } else {
                    None
                }
            },
            None => Some((a, qa)),
        };
        i += 1;
    }
    proof {
        assert(pa.take(pa.len() as int) =~= pa);
    }
    match acc {
        Some(p) => {
            proof {
                lemma_fold_in_list(q_map@, current_state, pa);
            }
            Some(p.0)
        },
        None => random_policy_ma(possible_actions, rng),
    }
}

/// Epsilon-greedy over the given actions: greedy with probability
/// `1 - epsilon`, uniform-random otherwise.
pub fn epsilon_greedy_policy_ma(
    possible_actions: &Vec<IndexAction>,
    q_map: &QMap,
    current_state: IndexState,
    epsilon: Fixed,
    rng: &mut rand_chacha::ChaCha20Rng,
) -> (r: Option<IndexAction>)
    requires
        0 <= epsilon.0 <= SCALE,
        covered_list(q_map@, current_state, possible_actions@),
    ensures
        ({
            let (res, rng2) = eps_greedy_ma_model(
                q_map@,
                current_state,
                possible_actions@,
                epsilon,
                *old(rng),
            );
            r == res && *final (rng) == rng2
        }),
        r is Some ==> possible_actions@.contains(r.unwrap()),
{
    let x = crate::rng::draw_below(rng, SCALE as u64);
    if (x as i64) < SCALE - epsilon.0 {
        greedy_policy_ma(possible_actions, q_map, current_state, rng)
    } else {
        random_policy_ma(possible_actions, rng)
    }
}

/// Uniform pick over the state's advertised actions.
pub fn random_policy(mdp: &MapMdp, current_state: IndexState, rng: &mut rand_chacha::ChaCha20Rng) -> (r:
    Option<IndexAction>)
    ensures
        ({
            let (res, rng2) = random_model(mdp.trans(), current_state, *old(rng));
            r == res && *final (rng) == rng2
        }),
        r is Some ==> possible_actions(mdp.trans(), current_state).contains(r.unwrap()),
{
    let pa = mdp.get_possible_actions(current_state);
    random_policy_ma(&pa, rng)
}

/// Greedy pick over the state's advertised actions.
pub fn greedy_policy(
    mdp: &MapMdp,
    q_map: &QMap,
    current_state: IndexState,
    rng: &mut rand_chacha::ChaCha20Rng,
) -> (r: Option<IndexAction>)
    requires
        covered_list(q_map@, current_state, possible_actions(mdp.trans(), current_state)),
    ensures
        ({
            let (res, rng2) = greedy_model(mdp.trans(), q_map@, current_state, *old(rng));
            r == res && *final (rng) == rng2
        }),
        r is Some ==> possible_actions(mdp.trans(), current_state).contains(r.unwrap()),
{
    let pa = mdp.get_possible_actions(current_state);
    greedy_policy_ma(&pa, q_map, current_state, rng)
}

/// Epsilon-greedy pick over the state's advertised actions.
pub fn epsilon_greedy_policy(
    mdp: &MapMdp,
    q_map: &QMap,
    current_state: IndexState,
    epsilon: Fixed,
    rng: &mut rand_chacha::ChaCha20Rng,
) -> (r: Option<IndexAction>)
    requires
        0 <= epsilon.0 <= SCALE,
        covered_list(q_map@, current_state, possible_actions(mdp.trans(), current_state)),
    ensures
        ({
            let (res, rng2) = eps_greedy_model(
                mdp.trans(),
                q_map@,
                current_state,
                epsilon,
                *old(rng),
            );
            r == res && *final (rng) == rng2
        }),
        r is Some ==> possible_actions(mdp.trans(), current_state).contains(r.unwrap()),
{
    let pa = mdp.get_possible_actions(current_state);
    epsilon_greedy_policy_ma(&pa, q_map, current_state, epsilon, rng)
}

/// A selector yields a choice exactly when the state advertises an
/// action: `None` is precisely the episode-end signal.
pub proof fn lemma_selector_some_iff(
    q: Seq<(PairKey, Fixed)>,
    s: IndexState,
    actions: Seq<IndexAction>,
    epsilon: Fixed,
    rng: rand_chacha::ChaCha20Rng,
)
    ensures
        random_ma_model(actions, rng).0 is Some <==> actions.len() > 0,
        greedy_ma_model(q, s, actions, rng).0 is Some <==> actions.len() > 0,
        eps_greedy_ma_model(q, s, actions, epsilon, rng).0 is Some <==> actions.len() > 0,
{
    lemma_greedy_fold_some(q, s, actions);
}

/// The greedy fold never yields a choice on an empty list, and its
/// fallback path draws over the whole list.
proof fn lemma_greedy_fold_some(q: Seq<(PairKey, Fixed)>, s: IndexState, actions: Seq<IndexAction>)
    ensures
        actions.len() == 0 ==> greedy_fold(q, s, actions) is None,
    decreases actions.len(),
{
}

/// A choice the greedy fold yields is one of the given actions.
proof fn lemma_fold_in_list(q: Seq<(PairKey, Fixed)>, s: IndexState, actions: Seq<IndexAction>)
    ensures
        greedy_fold(q, s, actions) is Some ==> actions.contains(
            greedy_fold(q, s, actions).unwrap().0,
        ),
    decreases actions.len(),
{
    if actions.len() == 0 {
    } else {
        lemma_fold_in_list(q, s, actions.drop_last());
        let r = greedy_fold(q, s, actions);
        if r is Some {
            let a = r.unwrap().0;
            if a == actions.last() {
                assert(actions[actions.len() - 1] == a);
            } else {
                let prev = greedy_fold(q, s, actions.drop_last());
                assert(a == prev.unwrap().0);
                let i = choose|i: int|
                    0 <= i < actions.drop_last().len() && actions.drop_last()[i] == a;
                assert(actions[i] == a);
            }
        }
    }
}

/// Every advertised action of a state can be looked up as a key.
pub proof fn lemma_possible_lookup(trans: Seq<(PairKey, Vec<Transition>)>, s: IndexState)
    ensures
        forall|i: int|
            0 <= i < possible_actions(trans, s).len() ==> lookup(
                trans,
                (s, #[trigger] possible_actions(trans, s)[i]),
            ) is Some,
{
    lemma_possible_from_entries(trans, s);
    let pa = possible_actions(trans, s);
    assert forall|i: int| 0 <= i < pa.len() implies lookup(trans, (s, #[trigger] pa[i])) is Some by {
        let j = choose|j: int| 0 <= j < trans.len() && (#[trigger] trans[j]).0 == (s, pa[i]);
        lemma_entry_implies_lookup(trans, j);
    }
}

/// On a state whose advertised actions all carry one tied estimate, an
/// even-length action list always reaches the uniform-random fallback,
/// so every action keeps a nonzero selection probability.  (With an
/// odd number of three or more tied actions the fold instead ends
/// holding the last action: that behaviour is preserved as-is.)
pub proof fn lemma_greedy_tie_fallback(
    q: Seq<(PairKey, Fixed)>,
    s: IndexState,
    actions: Seq<IndexAction>,
    tied: Fixed,
    rng: rand_chacha::ChaCha20Rng,
)
    requires
        actions.len() > 0,
        actions.len() % 2 == 0,
        forall|i: int| 0 <= i < actions.len() ==> lookup(q, (s, #[trigger] actions[i])) == Some(
            tied,
        ),
    ensures
        greedy_ma_model(q, s, actions, rng) == random_ma_model(actions, rng),
{
    lemma_greedy_tie_alternates(q, s, actions, tied);
}

/// On an all-tied list the fold alternates: a choice after an odd
/// number of actions, none after an even number.
proof fn lemma_greedy_tie_alternates(
    q: Seq<(PairKey, Fixed)>,
    s: IndexState,
    actions: Seq<IndexAction>,
    tied: Fixed,
)
    requires
        forall|i: int| 0 <= i < actions.len() ==> lookup(q, (s, #[trigger] actions[i])) == Some(
            tied,
        ),
    ensures
        actions.len() % 2 == 1 ==> greedy_fold(q, s, actions) == Some((actions.last(), tied)),
        actions.len() % 2 == 0 && actions.len() > 0 ==> greedy_fold(q, s, actions) is None,
    decreases actions.len(),
{
    if actions.len() == 0 {
    } else {
        assert(forall|i: int|
            0 <= i < actions.drop_last().len() ==> lookup(
                q,
                (s, #[trigger] actions.drop_last()[i]),
            ) == Some(tied));
        lemma_greedy_tie_alternates(q, s, actions.drop_last(), tied);
    }
}

} // verus!
