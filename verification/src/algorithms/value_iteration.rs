//! Value iteration: synchronous Bellman-optimality sweeps.
//!
//! Each sweep recomputes every advertised state's value as the maximum
//! over its actions of the expected one-step lookahead
//! `sum_i p_i * (r_i + gamma * V(next_i))`, reading only the previous
//! sweep's table, and tracks the largest absolute per-state change.
//! Sweeps repeat until that change is within the tolerance or the
//! sweep budget runs out.  A terminal state needs an explicit
//! self-loop transition of reward zero, or its value never settles and
//! convergence never triggers.

use crate::fixed::{abs_int, add_fx, clip, mul_fx, sub_fx, Fixed};
use crate::mdp::{MapMdp, Transition};
use crate::mdp::{IndexAction, IndexState};
use crate::table::{lookup, skey, store, PairKey, StateTable};
use vstd::prelude::*;

verus! {

/// A state-value table.
pub type StateValueTable = StateTable<Fixed>;

/// A missing state value reads as zero.
pub open spec fn v_or_zero(v: Option<Fixed>) -> Fixed {
    match v {
        Some(x) => x,
        None => Fixed(0),
    }
}

/// The expected one-step lookahead of one transition list, summed in
/// list order.
pub open spec fn expected_value(
    ts: Seq<Transition>,
    v: Seq<(PairKey, Fixed)>,
    gamma: Fixed,
) -> Fixed
    decreases ts.len(),
{
    if ts.len() == 0 {
        Fixed(0)
    } else {
        let t = ts.last();
        let term = mul_fx(
            t.prob.0 as int,
            add_fx(
                t.reward.0 as int,
                mul_fx(gamma.0 as int, v_or_zero(lookup(v, skey(t.next))).0 as int),
            ),
        );
        Fixed(add_fx(expected_value(ts.drop_last(), v, gamma).0 as int, term) as i64)
    }
}

/// The best achievable expected lookahead for `s`: the fold of
/// `max` over every advertised action's expected value, from the
/// least representable value.
pub open spec fn best_action_value_model(
    trans: Seq<(PairKey, Vec<Transition>)>,
    s: IndexState,
    v: Seq<(PairKey, Fixed)>,
    gamma: Fixed,
) -> Fixed
    decreases trans.len(),
{
    if trans.len() == 0 {
        Fixed(i64::MIN)
    } else {
        let prev = best_action_value_model(trans.drop_last(), s, v, gamma);
        if trans.last().0.0 == s {
            let ev = expected_value(trans.last().1@, v, gamma);
            if prev.0 >= ev.0 {
                prev
            } else {
                ev
            }
        } else {
            prev
        }
    }
}

/// The absolute change a sweep makes at one state.
pub open spec fn state_change(
    trans: Seq<(PairKey, Vec<Transition>)>,
    s: IndexState,
    v: Seq<(PairKey, Fixed)>,
    gamma: Fixed,
) -> Fixed {
    Fixed(
        clip(
            abs_int(
                sub_fx(
                    v_or_zero(lookup(v, skey(s))).0 as int,
                    best_action_value_model(trans, s, v, gamma).0 as int,
                ),
            ),
        ) as i64,
    )
}

/// One synchronous sweep over `entries`: every entry's state gets its
/// best lookahead value, computed against the previous table `v_prev`
/// only, while the largest absolute change accumulates.
pub open spec fn vi_sweep(
    entries: Seq<(PairKey, Vec<Transition>)>,
    trans: Seq<(PairKey, Vec<Transition>)>,
    v_prev: Seq<(PairKey, Fixed)>,
    acc_v: Seq<(PairKey, Fixed)>,
    acc_delta: Fixed,
    gamma: Fixed,
) -> (Seq<(PairKey, Fixed)>, Fixed)
    decreases entries.len(),
{
    if entries.len() == 0 {
        (acc_v, acc_delta)
    } else {
        let s = entries[0].0.0;
        let nv = best_action_value_model(trans, s, v_prev, gamma);
        let d = state_change(trans, s, v_prev, gamma);
        let acc_delta1 = if acc_delta.0 >= d.0 {
            acc_delta
        } else {
            d
        };
        vi_sweep(entries.drop_first(), trans, v_prev, store(acc_v, skey(s), nv), acc_delta1, gamma)
    }
}

/// What value iteration leaves behind: the table after repeated
/// sweeps, and whether the largest change fell within the tolerance
/// before the sweep budget ran out.
pub open spec fn vi_model(
    trans: Seq<(PairKey, Vec<Transition>)>,
    v: Seq<(PairKey, Fixed)>,
    gamma: Fixed,
    tolerance: Fixed,
    sweeps_left: nat,
) -> (Seq<(PairKey, Fixed)>, bool)
    decreases sweeps_left,
{
    if sweeps_left == 0 {
        (v, false)
    } else {
        let (v1, delta) = vi_sweep(trans, trans, v, v, Fixed(0), gamma);
        if delta.0 <= tolerance.0 {
            (v1, true)
        } else {
            vi_model(trans, v1, gamma, tolerance, (sweeps_left - 1) as nat)
        }
    }
}

/// A sweep's accumulated change dominates its starting value and the
/// change at every state it visits.
pub proof fn lemma_vi_sweep_delta_dominates(
    entries: Seq<(PairKey, Vec<Transition>)>,
    trans: Seq<(PairKey, Vec<Transition>)>,
    v_prev: Seq<(PairKey, Fixed)>,
    acc_v: Seq<(PairKey, Fixed)>,
    acc_delta: Fixed,
    gamma: Fixed,
)
    ensures
        vi_sweep(entries, trans, v_prev, acc_v, acc_delta, gamma).1.0 >= acc_delta.0,
        forall|i: int|
            0 <= i < entries.len() ==> vi_sweep(entries, trans, v_prev, acc_v, acc_delta, gamma).1.0
                >= state_change(trans, (#[trigger] entries[i]).0.0, v_prev, gamma).0,
    decreases entries.len(),
{
    if entries.len() == 0 {
    } else {
        let s = entries[0].0.0;
        let nv = best_action_value_model(trans, s, v_prev, gamma);
        let d = state_change(trans, s, v_prev, gamma);
        let acc_delta1 = if acc_delta.0 >= d.0 {
            acc_delta
        } else {
            d
        };
        lemma_vi_sweep_delta_dominates(
            entries.drop_first(),
            trans,
            v_prev,
            store(acc_v, skey(s), nv),
            acc_delta1,
            gamma,
        );
        assert forall|i: int|
            0 <= i < entries.len() implies vi_sweep(
            entries,
            trans,
            v_prev,
            acc_v,
            acc_delta,
            gamma,
        ).1.0 >= state_change(trans, (#[trigger] entries[i]).0.0, v_prev, gamma).0 by {
            if i > 0 {
                assert(entries.drop_first()[i - 1] == entries[i]);
            }
        }
    }
}

/// Convergence: when value iteration reports success, its result is
/// the outcome of a final sweep whose change at every advertised state
/// — and whose largest change overall — is within the tolerance.
pub proof fn lemma_vi_convergence(
    trans: Seq<(PairKey, Vec<Transition>)>,
    v: Seq<(PairKey, Fixed)>,
    gamma: Fixed,
    tolerance: Fixed,
    sweeps_left: nat,
)
    ensures
        vi_model(trans, v, gamma, tolerance, sweeps_left).1 ==> exists|vp: Seq<(PairKey, Fixed)>|
            {
                let (vf, d) = vi_sweep(trans, trans, vp, vp, Fixed(0), gamma);
                &&& #[trigger] vi_sweep(trans, trans, vp, vp, Fixed(0), gamma).0 == vi_model(
                    trans,
                    v,
                    gamma,
                    tolerance,
                    sweeps_left,
                ).0
                &&& d.0 <= tolerance.0
                &&& forall|i: int|
                    0 <= i < trans.len() ==> state_change(
                        trans,
                        (#[trigger] trans[i]).0.0,
                        vp,
                        gamma,
                    ).0 <= tolerance.0
            },
    decreases sweeps_left,
{
    if sweeps_left == 0 {
    } else {
        let (v1, delta) = vi_sweep(trans, trans, v, v, Fixed(0), gamma);
        if delta.0 <= tolerance.0 {
            lemma_vi_sweep_delta_dominates(trans, trans, v, v, Fixed(0), gamma);
            assert({
                let (vf, d) = vi_sweep(trans, trans, v, v, Fixed(0), gamma);
                &&& vi_sweep(trans, trans, v, v, Fixed(0), gamma).0 == vi_model(
                    trans,
                    v,
                    gamma,
                    tolerance,
                    sweeps_left,
                ).0
                &&& d.0 <= tolerance.0
                &&& forall|i: int|
                    0 <= i < trans.len() ==> state_change(
                        trans,
                        (#[trigger] trans[i]).0.0,
                        v,
                        gamma,
                    ).0 <= tolerance.0
            });
        } else {
            lemma_vi_convergence(trans, v1, gamma, tolerance, (sweeps_left - 1) as nat);
        }
    }
}

/// The best achievable expected lookahead for one state.
fn best_action_value(mdp: &MapMdp, state: IndexState, value_map: &StateValueTable, gamma: Fixed) -> (r:
    Fixed)
    ensures
        r == best_action_value_model(mdp.trans(), state, value_map@, gamma),
{
    let ghost trans = mdp.trans();
    let mut best = Fixed(i64::MIN);
    proof {
        assert(trans.take(0) =~= Seq::<(PairKey, Vec<Transition>)>::empty());
    }
    let n = mdp.num_pairs();
    let mut i: usize = 0;
    while i < n
        invariant
            i <= trans.len(),
            n == trans.len(),
            trans == mdp.trans(),
            best == best_action_value_model(trans.take(i as int), state, value_map@, gamma),
        decreases n - i,
    {
        proof {
            assert(trans.take(i + 1).drop_last() =~= trans.take(i as int));
            assert(trans.take(i + 1).last() == trans[i as int]);
        }
        let e = mdp.transition_at(i);
        if e.0.0.0 == state.0 {
            // expected one-step lookahead, summed in list order
            let tv = &e.1;
            let ghost ts = tv@;
            let mut sum = Fixed(0);
            proof {
                assert(ts.take(0) =~= Seq::<Transition>::empty());
            }
            let mut j: usize = 0;
            while j < tv.len()
                invariant
                    j <= ts.len(),
                    ts == tv@,
                    sum == expected_value(ts.take(j as int), value_map@, gamma),
                decreases ts.len() - j,
            {
                proof {
                    assert(ts.take(j + 1).drop_last() =~= ts.take(j as int));
                    assert(ts.take(j + 1).last() == ts[j as int]);
                }
                let t = tv[j];
                let vn = match value_map.get(t.next) {
                    Some(x) => *x,
                    None => Fixed(0),
                };
                let term = t.prob.mul(t.reward.add(gamma.mul(vn)));
                sum = sum.add(term);
                proof {
                    assert(sum == expected_value(ts.take(j + 1), value_map@, gamma));
                }
                j += 1;
            }
            proof {
                assert(ts.take(ts.len() as int) =~= ts);
            }
            best = best.max(sum);
        }
        i += 1;
    }
    proof {
        assert(trans.take(n as int) =~= trans);
    }
    best
}

/// Compute optimal state values by synchronous sweeps, stopping when
/// the largest per-state change is within `tolerance` or after
/// `max_sweeps` sweeps.
pub fn value_iteration(mdp: &MapMdp, tolerance: Fixed, gamma: Fixed, max_sweeps: usize) -> (r:
    StateValueTable)
    ensures
        r.wf(),
        r@ == vi_model(mdp.trans(), Seq::empty(), gamma, tolerance, max_sweeps as nat).0,
{
    let ghost trans = mdp.trans();
    let mut value_map: StateValueTable = StateTable::new();
    proof {
        assert(value_map@ =~= Seq::<(PairKey, Fixed)>::empty());
    }
    let mut sweep: usize = 0;
    let mut finished = max_sweeps == 0;
    while !finished
        invariant
            sweep <= max_sweeps,
            trans == mdp.trans(),
            value_map.wf(),
            !finished ==> sweep < max_sweeps && vi_model(
                trans,
                value_map@,
                gamma,
                tolerance,
                (max_sweeps - sweep) as nat,
            ) == vi_model(trans, Seq::empty(), gamma, tolerance, max_sweeps as nat),
            finished ==> value_map@ == vi_model(
                trans,
                Seq::empty(),
                gamma,
                tolerance,
                max_sweeps as nat,
            ).0,
        decreases (if finished {
            0int
        } else {
            max_sweeps - sweep + 1
        }),
    {
        let ghost v_pre = value_map@;
        let ghost left_pre = (max_sweeps - sweep) as nat;
        let mut next_map = value_map.duplicate();
        let mut delta = Fixed(0);
        let n = mdp.num_pairs();
        proof {
            assert(trans.skip(0) =~= trans);
        }
        let mut i: usize = 0;
        while i < n
            invariant
                i <= trans.len(),
                n == trans.len(),
                trans == mdp.trans(),
                value_map@ == v_pre,
                value_map.wf(),
                next_map.wf(),
                vi_sweep(trans, trans, v_pre, v_pre, Fixed(0), gamma) == vi_sweep(
                    trans.skip(i as int),
                    trans,
                    v_pre,
                    next_map@,
                    delta,
                    gamma,
                ),
            decreases n - i,
        {
            let ghost tail = trans.skip(i as int);
            proof {
                assert(tail[0] == trans[i as int]);
                assert(tail.drop_first() =~= trans.skip(i + 1));
            }
            let s = mdp.pair_key_at(i).0;
            let new_value = best_action_value(mdp, s, &value_map, gamma);
            let old_value = match value_map.get(s) {
                Some(x) => *x,
                None => Fixed(0),
            };
            let change = old_value.sub(new_value).abs();
            proof {
                assert(change == state_change(trans, s, v_pre, gamma));
            }
            delta = delta.max(change);
            next_map.set(s, new_value);
            i += 1;
        }
        proof {
            assert(trans.skip(trans.len() as int) =~= Seq::<(PairKey, Vec<Transition>)>::empty());
        }
        value_map = next_map;
        sweep += 1;
        if delta.0 <= tolerance.0 {
            proof {
                assert(vi_model(trans, v_pre, gamma, tolerance, left_pre) == (value_map@, true));
            }
            finished = true;
        } else {
            finished = sweep >= max_sweeps;
            proof {
                if finished {
                    assert(vi_model(trans, value_map@, gamma, tolerance, 0) == (
                        value_map@,
                        false,
                    ));
                }
            }
        }
    }
    value_map
}

} // verus!
