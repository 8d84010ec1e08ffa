//! The learning algorithms, and what they share: the
//! temporal-difference update, eligibility-trace policies, and table
//! seeding.
//!
//! Each algorithm offers `run` (train on a fresh zero-seeded table)
//! and `run_with_q_map` (continue training a caller-owned table in
//! place), threading one caller-supplied generator through every draw.
//! Every training routine's contract equates the table and generator
//! it leaves behind with a recursive model function of the starting
//! table and generator value, so training is a pure function of its
//! inputs; the `..._run_split` lemmas state the consequence that `n`
//! episodes in one call leave exactly what `n1` then `n2 = n - n1`
//! episodes in two calls leave.

pub mod dyna_q;
pub mod monte_carlo;
pub mod q_learning;
pub mod q_learning_beta;
pub mod q_learning_lambda;
pub mod sarsa;
pub mod value_iteration;
pub mod sarsa_lambda;

use crate::fixed::{add_fx, mul_fx, sub_fx, Fixed, SCALE};
use crate::mdp::{MapMdp, Transition};
use crate::policies::covers_all;
use crate::table::{
    lemma_entry_implies_lookup, lemma_lookup_store, lemma_store_append, lookup, store, PairKey,
    QMap,
};
use vstd::prelude::*;

verus! {

/// The three eligibility-trace update policies.
#[derive(Clone, Copy, Debug, PartialEq, Eq, Structural)]
pub enum Trace {
    Accumulating,
    Replacing,
    Dutch,
}

/// The trace value after crediting the acted pair once.
pub open spec fn trace_calc(t: Trace, value: int, alpha: int) -> int {
    match t {
        Trace::Accumulating => add_fx(value, SCALE as int),
        Trace::Replacing => SCALE as int,
        Trace::Dutch => add_fx(mul_fx(sub_fx(SCALE as int, alpha), value), SCALE as int),
    }
}

impl Trace {
    /// Accumulating adds one to the trace; Replacing sets it to one;
    /// Dutch decays it by `1 - alpha` and adds one.
    pub fn calculate(&self, value: Fixed, alpha: Fixed) -> (r: Fixed)
        ensures
            r.0 == trace_calc(*self, value.0 as int, alpha.0 as int),
    {
        match self {
            Trace::Accumulating => value.add(Fixed(SCALE)),
            Trace::Replacing => Fixed(SCALE),
            Trace::Dutch => Fixed(SCALE).sub(alpha).mul(value).add(Fixed(SCALE)),
        }
    }
}

/// Crediting the acted pair under the Accumulating policy raises its
/// trace by exactly one, whenever the sum stays representable.
pub proof fn lemma_accumulating_adds_one(value: int, alpha: int)
    requires
        i64::MIN <= value,
        value + SCALE <= i64::MAX,
    ensures
        trace_calc(Trace::Accumulating, value, alpha) == value + SCALE,
{
}

/// The temporal-difference update on scaled values:
/// `q + alpha * (reward + gamma * target - q)`.
pub open spec fn q_update(q: int, alpha: int, reward: int, gamma: int, target: int) -> int {
    add_fx(q, mul_fx(alpha, sub_fx(add_fx(reward, mul_fx(gamma, target)), q)))
}

/// The same update packaged as a fixed-point value.
pub open spec fn q_update_fx(q: Fixed, alpha: Fixed, reward: Fixed, gamma: Fixed, target: Fixed) -> Fixed {
    Fixed(q_update(q.0 as int, alpha.0 as int, reward.0 as int, gamma.0 as int, target.0 as int) as i64)
}

/// Apply `Q += alpha * (reward + gamma * target - Q)` to one estimate.
pub fn apply_q_update(current_q: Fixed, alpha: Fixed, reward: Fixed, gamma: Fixed, target: Fixed) -> (r: Fixed)
    ensures
        r == q_update_fx(current_q, alpha, reward, gamma, target),
        r.0 == q_update(
            current_q.0 as int,
            alpha.0 as int,
            reward.0 as int,
            gamma.0 as int,
            target.0 as int,
        ),
{
    let r = current_q.add(alpha.mul(reward.add(gamma.mul(target)).sub(current_q)));
    proof {
        let u = q_update(
            current_q.0 as int,
            alpha.0 as int,
            reward.0 as int,
            gamma.0 as int,
            target.0 as int,
        );
        assert(i64::MIN <= u <= i64::MAX);
        assert(r == q_update_fx(current_q, alpha, reward, gamma, target));
    }
    r
}

/// A missing estimate reads as zero.
pub open spec fn or_zero(v: Option<Fixed>) -> Fixed {
    match v {
        Some(x) => x,
        None => Fixed(0),
    }
}

/// Read an estimate, defaulting a missing pair to zero.
pub fn get_or_zero(q: &QMap, k: PairKey) -> (r: Fixed)
    ensures
        r == or_zero(lookup(q@, k)),
{
    match q.get(k) {
        Some(v) => *v,
        None => Fixed(0),
    }
}

/// A fresh table holding zero for every advertised pair, in key order.
pub open spec fn seeded(trans: Seq<(PairKey, Vec<Transition>)>) -> Seq<(PairKey, Fixed)> {
    trans.map_values(|e: (PairKey, Vec<Transition>)| (e.0, Fixed(0)))
}

/// Build the zero-seeded table over the advertised universe.
pub fn seed_q_map(mdp: &MapMdp) -> (q: QMap)
    requires
        mdp.wf(),
    ensures
        q.wf(),
        q@ == seeded(mdp.trans()),
        covers_all(mdp.trans(), q@),
{
    let ghost trans = mdp.trans();
    let mut q = QMap::new();
    proof {
        assert(seeded(trans.take(0)) =~= Seq::<(PairKey, Fixed)>::empty());
    }
    let n = mdp.num_pairs();
    let mut i: usize = 0;
    while i < n
        invariant
            i <= trans.len(),
            n == trans.len(),
            trans == mdp.trans(),
            q.wf(),
            q@ == seeded(trans.take(i as int)),
        decreases n - i,
    {
        let k = mdp.pair_key_at(i);
        proof {
            assert(seeded(trans.take(i as int)).len() == i);
            assert forall|j: int| 0 <= j < q@.len() implies crate::table::key_lt(
                #[trigger] q@[j].0,
                k,
            ) by {
                assert(q@[j].0 == trans.take(i as int)[j].0);
                assert(crate::table::key_lt(trans[j].0, trans[i as int].0));
            }
            lemma_store_append(q@, k, Fixed(0));
            assert(seeded(trans.take(i + 1)) =~= seeded(trans.take(i as int)).push((k, Fixed(0))));
        }
        q.set(k, Fixed(0));
        i += 1;
    }
    proof {
        assert(trans.take(n as int) =~= trans);
        assert forall|j: int| 0 <= j < trans.len() implies lookup(
            q@,
            (#[trigger] trans[j]).0,
        ) is Some by {
            assert(q@[j].0 == trans[j].0);
            lemma_entry_implies_lookup(q@, j);
        }
    }
    q
}

/// The temporal-difference error `reward + gamma * next_q - current_q`.
pub open spec fn delta_fx(reward: Fixed, gamma: Fixed, next_q: Fixed, current_q: Fixed) -> Fixed {
    Fixed(
        sub_fx(
            add_fx(reward.0 as int, mul_fx(gamma.0 as int, next_q.0 as int)),
            current_q.0 as int,
        ) as i64,
    )
}

/// Compute the temporal-difference error for one step.
pub fn compute_delta(reward: Fixed, gamma: Fixed, next_q: Fixed, current_q: Fixed) -> (r: Fixed)
    ensures
        r == delta_fx(reward, gamma, next_q, current_q),
{
    reward.add(gamma.mul(next_q)).sub(current_q)
}

/// The per-step full-universe sweep of the eligibility-trace
/// algorithms, over `pairs` in order: each advertised pair's estimate
/// moves by `alpha * delta * e`, then its trace is multiplied by
/// `decay` — or zeroed when `zero_traces` is set (the Watkins cutoff
/// after an exploratory action).  A pair missing from the estimate
/// table is skipped; a pair missing from the trace table counts as
/// trace zero and is entered.  This sweep is O(universe) per step by
/// design: later updates depend on the nonzero trace history it
/// maintains.
pub open spec fn lambda_sweep(
    pairs: Seq<PairKey>,
    q: Seq<(PairKey, Fixed)>,
    e: Seq<(PairKey, Fixed)>,
    alpha: Fixed,
    delta: Fixed,
    decay: Fixed,
    zero_traces: bool,
) -> (Seq<(PairKey, Fixed)>, Seq<(PairKey, Fixed)>)
    decreases pairs.len(),
{
    if pairs.len() == 0 {
        (q, e)
    } else {
        let k = pairs[0];
        let ev = or_zero(lookup(e, k));
        let q1 = match lookup(q, k) {
            Some(qv) => store(
                q,
                k,
                Fixed(
                    add_fx(
                        qv.0 as int,
                        mul_fx(mul_fx(alpha.0 as int, delta.0 as int), ev.0 as int),
                    ) as i64,
                ),
            ),
            None => q,
        };
        let e1 = store(
            e,
            k,
            if zero_traces {
                Fixed(0)
            } else {
                Fixed(mul_fx(ev.0 as int, decay.0 as int) as i64)
            },
        );
        lambda_sweep(pairs.drop_first(), q1, e1, alpha, delta, decay, zero_traces)
    }
}

/// Run the eligibility sweep over the advertised universe.
pub fn run_lambda_sweep(
    pairs: &Vec<PairKey>,
    q_map: &mut QMap,
    e_map: &mut QMap,
    alpha: Fixed,
    delta: Fixed,
    decay: Fixed,
    zero_traces: bool,
)
    requires
        old(q_map).wf(),
        old(e_map).wf(),
    ensures
        final (q_map).wf(),
        final (e_map).wf(),
        (final (q_map)@, final (e_map)@) == lambda_sweep(
            pairs@,
            old(q_map)@,
            old(e_map)@,
            alpha,
            delta,
            decay,
            zero_traces,
        ),
{
    let ghost ps = pairs@;
    let ghost q0 = q_map@;
    let ghost e0 = e_map@;
    proof {
        assert(ps.skip(0) =~= ps);
    }
    let mut i: usize = 0;
    while i < pairs.len()
        invariant
            i <= ps.len(),
            ps == pairs@,
            q_map.wf(),
            e_map.wf(),
            lambda_sweep(ps, q0, e0, alpha, delta, decay, zero_traces) == lambda_sweep(
                ps.skip(i as int),
                q_map@,
                e_map@,
                alpha,
                delta,
                decay,
                zero_traces,
            ),
        decreases ps.len() - i,
    {
        let k = pairs[i];
        let ghost tail = ps.skip(i as int);
        proof {
            assert(tail[0] == ps[i as int]);
            assert(tail.drop_first() =~= ps.skip(i + 1));
        }
        let ev = get_or_zero(e_map, k);
        match q_map.get(k) {
            Some(qv_ref) => {
                let qv = *qv_ref;
                let nv = qv.add(alpha.mul(delta).mul(ev));
                proof {
                    let target = add_fx(
                        qv.0 as int,
                        mul_fx(mul_fx(alpha.0 as int, delta.0 as int), ev.0 as int),
                    );
                    assert(i64::MIN <= target <= i64::MAX);
                    assert(nv == Fixed(target as i64));
                }
                q_map.set(k, nv);
            },
            None => {},
        }
        if zero_traces {
            e_map.set(k, Fixed(0));
        } else {
            let de = ev.mul(decay);
            proof {
                let target = mul_fx(ev.0 as int, decay.0 as int);
                assert(i64::MIN <= target <= i64::MAX);
                assert(de == Fixed(target as i64));
            }
            e_map.set(k, de);
        }
        i += 1;
    }
    proof {
        assert(ps.skip(ps.len() as int) =~= Seq::<PairKey>::empty());
    }
}

/// The sweep keeps the estimate table covering the advertised pairs.
pub proof fn lemma_lambda_sweep_covers(
    trans: Seq<(PairKey, Vec<Transition>)>,
    pairs: Seq<PairKey>,
    q: Seq<(PairKey, Fixed)>,
    e: Seq<(PairKey, Fixed)>,
    alpha: Fixed,
    delta: Fixed,
    decay: Fixed,
    zero_traces: bool,
)
    requires
        covers_all(trans, q),
    ensures
        covers_all(trans, lambda_sweep(pairs, q, e, alpha, delta, decay, zero_traces).0),
    decreases pairs.len(),
{
    if pairs.len() == 0 {
    } else {
        let k = pairs[0];
        let ev = or_zero(lookup(e, k));
        let q1 = match lookup(q, k) {
            Some(qv) => store(
                q,
                k,
                Fixed(
                    add_fx(
                        qv.0 as int,
                        mul_fx(mul_fx(alpha.0 as int, delta.0 as int), ev.0 as int),
                    ) as i64,
                ),
            ),
            None => q,
        };
        let e1 = store(
            e,
            k,
            if zero_traces {
                Fixed(0)
            } else {
                Fixed(mul_fx(ev.0 as int, decay.0 as int) as i64)
            },
        );
        match lookup(q, k) {
            Some(qv) => {
                lemma_store_covers(
                    trans,
                    q,
                    k,
                    Fixed(
                        add_fx(
                            qv.0 as int,
                            mul_fx(mul_fx(alpha.0 as int, delta.0 as int), ev.0 as int),
                        ) as i64,
                    ),
                );
            },
            None => {},
        }
        lemma_lambda_sweep_covers(trans, pairs.drop_first(), q1, e1, alpha, delta, decay, zero_traces);
    }
}

/// What the sweep does to every trace: a pair the sweep visits once
/// leaves holding its old trace multiplied by `decay` — or zero under
/// the Watkins cutoff — and a pair it never visits is untouched.
pub proof fn lemma_sweep_traces(
    pairs: Seq<PairKey>,
    q: Seq<(PairKey, Fixed)>,
    e: Seq<(PairKey, Fixed)>,
    alpha: Fixed,
    delta: Fixed,
    decay: Fixed,
    zero_traces: bool,
)
    requires
        forall|i: int, j: int| 0 <= i < j < pairs.len() ==> pairs[i] != pairs[j],
    ensures
        forall|i: int|
            0 <= i < pairs.len() ==> lookup(
                lambda_sweep(pairs, q, e, alpha, delta, decay, zero_traces).1,
                #[trigger] pairs[i],
            ) == Some(
                if zero_traces {
                    Fixed(0)
                } else {
                    Fixed(mul_fx(or_zero(lookup(e, pairs[i])).0 as int, decay.0 as int) as i64)
                },
            ),
        forall|k: PairKey|
            !pairs.contains(k) ==> lookup(
                lambda_sweep(pairs, q, e, alpha, delta, decay, zero_traces).1,
                k,
            ) == lookup(e, k),
    decreases pairs.len(),
{
    if pairs.len() == 0 {
    } else {
        let k0 = pairs[0];
        let ev = or_zero(lookup(e, k0));
        let newtrace = if zero_traces {
            Fixed(0)
        } else {
            Fixed(mul_fx(ev.0 as int, decay.0 as int) as i64)
        };
        let q1 = match lookup(q, k0) {
            Some(qv) => store(
                q,
                k0,
                Fixed(
                    add_fx(
                        qv.0 as int,
                        mul_fx(mul_fx(alpha.0 as int, delta.0 as int), ev.0 as int),
                    ) as i64,
                ),
            ),
            None => q,
        };
        let e1 = store(e, k0, newtrace);
        assert forall|i: int, j: int|
            0 <= i < j < pairs.drop_first().len() implies pairs.drop_first()[i]
            != pairs.drop_first()[j] by {
            assert(pairs.drop_first()[i] == pairs[i + 1]);
            assert(pairs.drop_first()[j] == pairs[j + 1]);
        }
        lemma_sweep_traces(pairs.drop_first(), q1, e1, alpha, delta, decay, zero_traces);
        let res = lambda_sweep(pairs, q, e, alpha, delta, decay, zero_traces).1;
        assert forall|i: int| 0 <= i < pairs.len() implies lookup(res, #[trigger] pairs[i]) == Some(
            if zero_traces {
                Fixed(0)
            } else {
                Fixed(mul_fx(or_zero(lookup(e, pairs[i])).0 as int, decay.0 as int) as i64)
            },
        ) by {
            if i == 0 {
                assert(!pairs.drop_first().contains(k0)) by {
                    if pairs.drop_first().contains(k0) {
                        let j = choose|j: int|
                            0 <= j < pairs.drop_first().len() && pairs.drop_first()[j] == k0;
                        assert(pairs[j + 1] == k0);
                    }
                }
                lemma_lookup_store(e, k0, newtrace, k0);
            } else {
                assert(pairs.drop_first()[i - 1] == pairs[i]);
                assert(pairs[i] != k0);
                lemma_lookup_store(e, k0, newtrace, pairs[i]);
            }
        }
        assert forall|k: PairKey| !pairs.contains(k) implies lookup(res, k) == lookup(e, k) by {
            assert(k != k0) by {
                assert(pairs[0] == k0);
            }
            assert(!pairs.drop_first().contains(k)) by {
                if pairs.drop_first().contains(k) {
                    let j = choose|j: int|
                        0 <= j < pairs.drop_first().len() && pairs.drop_first()[j] == k;
                    assert(pairs[j + 1] == k);
                }
            }
            lemma_lookup_store(e, k0, newtrace, k);
        }
    }
}

/// Overwriting any entry keeps a table covering the advertised pairs.
pub proof fn lemma_store_covers(
    trans: Seq<(PairKey, Vec<Transition>)>,
    q: Seq<(PairKey, Fixed)>,
    k: PairKey,
    v: Fixed,
)
    requires
        covers_all(trans, q),
    ensures
        covers_all(trans, store(q, k, v)),
{
    assert forall|j: int| 0 <= j < trans.len() implies lookup(
        store(q, k, v),
        (#[trigger] trans[j]).0,
    ) is Some by {
        lemma_lookup_store(q, k, v, trans[j].0);
    }
}

} // verus!
