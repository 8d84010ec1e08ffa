//! SARSA(lambda): on-policy control with eligibility traces.
//!
//! Each episode keeps an eligibility table that starts empty and is
//! populated by the sweep as pairs are visited.  Each step computes
//! the temporal-difference error against the on-policy next action,
//! credits the acted pair's trace under the configured trace policy if
//! the pair already has one, and then sweeps the whole advertised
//! universe: every pair's estimate moves by `alpha * delta * e` and
//! every trace decays by `gamma * lambda`.

use crate::algorithms::{
    compute_delta, delta_fx, lambda_sweep, lemma_lambda_sweep_covers, run_lambda_sweep, seed_q_map,
    seeded, trace_calc, Trace,
};
use crate::fixed::{mul_fx, Fixed, SCALE};
use crate::mdp::{lemma_lookup_some_index, perform_model, possible_actions, MapMdp, Transition};
use crate::mdp::{IndexAction, IndexState};
use crate::policies::{
    covers_all, eps_greedy_model, epsilon_greedy_policy, lemma_covers_all_covered,
    lemma_possible_lookup, lemma_selector_some_iff,
};
use crate::table::{lookup, store, PairKey, QMap};
use vstd::prelude::*;

verus! {

/// What one in-episode step chain leaves behind: estimates,
/// episode-local traces, and the generator.
pub open spec fn sl_steps_model(
    alpha: Fixed,
    epsilon: Fixed,
    lambda: Fixed,
    tr: Trace,
    trans: Seq<(PairKey, Vec<Transition>)>,
    terms: Seq<IndexState>,
    disc: Fixed,
    pairs: Seq<PairKey>,
    q: Seq<(PairKey, Fixed)>,
    e: Seq<(PairKey, Fixed)>,
    rng: rand_chacha::ChaCha20Rng,
    s: IndexState,
    a: IndexAction,
    steps_left: nat,
) -> (Seq<(PairKey, Fixed)>, Seq<(PairKey, Fixed)>, rand_chacha::ChaCha20Rng)
    decreases steps_left,
{
    if steps_left == 0 || terms.contains(s) {
        (q, e, rng)
    } else {
        let (outcome, rng1) = perform_model(trans, (s, a), rng);
        let s2 = outcome.0;
        let reward = outcome.1;
        let (sel, rng2) = eps_greedy_model(trans, q, s2, epsilon, rng1);
        match sel {
            None => (q, e, rng2),
            Some(a2) => {
                let nq = lookup(q, (s2, a2)).unwrap();
                let cq = lookup(q, (s, a)).unwrap();
                let delta = delta_fx(reward, disc, nq, cq);
                let e1 = match lookup(e, (s, a)) {
                    Some(ev) => store(
                        e,
                        (s, a),
                        Fixed(trace_calc(tr, ev.0 as int, alpha.0 as int) as i64),
                    ),
                    None => e,
                };
                let decay = Fixed(mul_fx(disc.0 as int, lambda.0 as int) as i64);
                let swept = lambda_sweep(pairs, q, e1, alpha, delta, decay, false);
                sl_steps_model(
                    alpha,
                    epsilon,
                    lambda,
                    tr,
                    trans,
                    terms,
                    disc,
                    pairs,
                    swept.0,
                    swept.1,
                    rng2,
                    s2,
                    a2,
                    (steps_left - 1) as nat,
                )
            },
        }
    }
}

/// What one episode leaves behind: traces start empty, the first
/// action is selected at the start state, and the step chain runs;
/// the trace table is discarded at the end.
pub open spec fn sl_episode_model(
    alpha: Fixed,
    epsilon: Fixed,
    lambda: Fixed,
    tr: Trace,
    trans: Seq<(PairKey, Vec<Transition>)>,
    terms: Seq<IndexState>,
    disc: Fixed,
    init: IndexState,
    pairs: Seq<PairKey>,
    max_steps: nat,
    q: Seq<(PairKey, Fixed)>,
    rng: rand_chacha::ChaCha20Rng,
) -> (Seq<(PairKey, Fixed)>, rand_chacha::ChaCha20Rng) {
    let (sel, rng1) = eps_greedy_model(trans, q, init, epsilon, rng);
    match sel {
        None => (q, rng1),
        Some(a0) => {
            let r = sl_steps_model(
                alpha,
                epsilon,
                lambda,
                tr,
                trans,
                terms,
                disc,
                pairs,
                q,
                Seq::empty(),
                rng1,
                init,
                a0,
                max_steps,
            );
            (r.0, r.2)
        },
    }
}

/// What training for a number of episodes leaves behind.
pub open spec fn sl_run_model(
    alpha: Fixed,
    epsilon: Fixed,
    lambda: Fixed,
    tr: Trace,
    trans: Seq<(PairKey, Vec<Transition>)>,
    terms: Seq<IndexState>,
    disc: Fixed,
    init: IndexState,
    pairs: Seq<PairKey>,
    max_steps: nat,
    episodes: nat,
    q: Seq<(PairKey, Fixed)>,
    rng: rand_chacha::ChaCha20Rng,
) -> (Seq<(PairKey, Fixed)>, rand_chacha::ChaCha20Rng)
    decreases episodes,
{
    if episodes == 0 {
        (q, rng)
    } else {
        let (q1, rng1) = sl_episode_model(
            alpha,
            epsilon,
            lambda,
            tr,
            trans,
            terms,
            disc,
            init,
            pairs,
            max_steps,
            q,
            rng,
        );
        sl_run_model(
            alpha,
            epsilon,
            lambda,
            tr,
            trans,
            terms,
            disc,
            init,
            pairs,
            max_steps,
            (episodes - 1) as nat,
            q1,
            rng1,
        )
    }
}

/// Training splits: `n1 + n2` episodes in one call leave exactly what
/// `n1` episodes and then `n2` more on the same table and generator
/// leave.  This is the incremental-equivalence law for SARSA(lambda).
pub proof fn lemma_sl_run_split(
    alpha: Fixed,
    epsilon: Fixed,
    lambda: Fixed,
    tr: Trace,
    trans: Seq<(PairKey, Vec<Transition>)>,
    terms: Seq<IndexState>,
    disc: Fixed,
    init: IndexState,
    pairs: Seq<PairKey>,
    max_steps: nat,
    n1: nat,
    n2: nat,
    q: Seq<(PairKey, Fixed)>,
    rng: rand_chacha::ChaCha20Rng,
)
    ensures
        sl_run_model(
            alpha,
            epsilon,
            lambda,
            tr,
            trans,
            terms,
            disc,
            init,
            pairs,
            max_steps,
            n1 + n2,
            q,
            rng,
        ) == ({
            let (q1, rng1) = sl_run_model(
                alpha,
                epsilon,
                lambda,
                tr,
                trans,
                terms,
                disc,
                init,
                pairs,
                max_steps,
                n1,
                q,
                rng,
            );
            sl_run_model(
                alpha,
                epsilon,
                lambda,
                tr,
                trans,
                terms,
                disc,
                init,
                pairs,
                max_steps,
                n2,
                q1,
                rng1,
            )
        }),
    decreases n1,
{
    if n1 == 0 {
    } else {
        let (q1, rng1) = sl_episode_model(
            alpha,
            epsilon,
            lambda,
            tr,
            trans,
            terms,
            disc,
            init,
            pairs,
            max_steps,
            q,
            rng,
        );
        lemma_sl_run_split(
            alpha,
            epsilon,
            lambda,
            tr,
            trans,
            terms,
            disc,
            init,
            pairs,
            max_steps,
            (n1 - 1) as nat,
            n2,
            q1,
            rng1,
        );
        assert(n1 + n2 - 1 == (n1 - 1) as nat + n2);
    }
}

/// One more episode after `n` is the episode applied to the result of
/// `n`.
proof fn lemma_sl_run_snoc(
    alpha: Fixed,
    epsilon: Fixed,
    lambda: Fixed,
    tr: Trace,
    trans: Seq<(PairKey, Vec<Transition>)>,
    terms: Seq<IndexState>,
    disc: Fixed,
    init: IndexState,
    pairs: Seq<PairKey>,
    max_steps: nat,
    n: nat,
    q: Seq<(PairKey, Fixed)>,
    rng: rand_chacha::ChaCha20Rng,
)
    ensures
        sl_run_model(
            alpha,
            epsilon,
            lambda,
            tr,
            trans,
            terms,
            disc,
            init,
            pairs,
            max_steps,
            n + 1,
            q,
            rng,
        ) == ({
            let (q1, rng1) = sl_run_model(
                alpha,
                epsilon,
                lambda,
                tr,
                trans,
                terms,
                disc,
                init,
                pairs,
                max_steps,
                n,
                q,
                rng,
            );
            sl_episode_model(
                alpha,
                epsilon,
                lambda,
                tr,
                trans,
                terms,
                disc,
                init,
                pairs,
                max_steps,
                q1,
                rng1,
            )
        }),
{
    lemma_sl_run_split(
        alpha,
        epsilon,
        lambda,
        tr,
        trans,
        terms,
        disc,
        init,
        pairs,
        max_steps,
        n,
        1,
        q,
        rng,
    );
    let (q1, rng1) = sl_run_model(
        alpha,
        epsilon,
        lambda,
        tr,
        trans,
        terms,
        disc,
        init,
        pairs,
        max_steps,
        n,
        q,
        rng,
    );
    let (q2, rng2) = sl_episode_model(
        alpha,
        epsilon,
        lambda,
        tr,
        trans,
        terms,
        disc,
        init,
        pairs,
        max_steps,
        q1,
        rng1,
    );
    assert(sl_run_model(
        alpha,
        epsilon,
        lambda,
        tr,
        trans,
        terms,
        disc,
        init,
        pairs,
        max_steps,
        0,
        q2,
        rng2,
    ) == (q2, rng2));
    assert(sl_run_model(
        alpha,
        epsilon,
        lambda,
        tr,
        trans,
        terms,
        disc,
        init,
        pairs,
        max_steps,
        1,
        q1,
        rng1,
    ) == (q2, rng2));
}

/// The SARSA(lambda) trainer.
pub struct SarsaLambda {
    alpha: Fixed,
    epsilon: Fixed,
    lambda: Fixed,
    max_steps: usize,
    trace: Trace,
}

impl SarsaLambda {
    /// The exploration rate is a probability.
    pub open spec fn wf(&self) -> bool {
        0 <= self.epsilon().0 <= SCALE
    }

    pub fn new(alpha: Fixed, epsilon: Fixed, lambda: Fixed, max_steps: usize, trace: Trace) -> (r:
        SarsaLambda)
        requires
            0 <= epsilon.0 <= SCALE,
        ensures
            r.wf(),
            r.alpha() == alpha,
            r.epsilon() == epsilon,
            r.lambda() == lambda,
            r.max_steps() == max_steps,
            r.trace() == trace,
    {
        SarsaLambda { alpha, epsilon, lambda, max_steps, trace }
    }

    pub closed spec fn alpha(&self) -> Fixed {
        self.alpha
    }

    pub closed spec fn epsilon(&self) -> Fixed {
        self.epsilon
    }

    pub closed spec fn lambda(&self) -> Fixed {
        self.lambda
    }

    pub closed spec fn max_steps(&self) -> usize {
        self.max_steps
    }

    pub closed spec fn trace(&self) -> Trace {
        self.trace
    }

    pub fn get_epsilon(&self) -> (r: Fixed)
        ensures
            r == self.epsilon(),
    {
        self.epsilon
    }

    /// Train on a fresh table seeded to zero over the advertised
    /// universe.
    pub fn run(&self, mdp: &MapMdp, episodes: usize, rng: &mut rand_chacha::ChaCha20Rng) -> (q: QMap)
        requires
            self.wf(),
            mdp.wf(),
            possible_actions(mdp.trans(), mdp.initial()).len() > 0,
        ensures
            q.wf(),
            covers_all(mdp.trans(), q@),
            ({
                let (q2, rng2) = sl_run_model(
                    self.alpha(),
                    self.epsilon(),
                    self.lambda(),
                    self.trace(),
                    mdp.trans(),
                    mdp.terminals(),
                    mdp.discount(),
                    mdp.initial(),
                    mdp.pairs(),
                    self.max_steps() as nat,
                    episodes as nat,
                    seeded(mdp.trans()),
                    *old(rng),
                );
                q@ == q2 && *final (rng) == rng2
            }),
    {
        let mut q = seed_q_map(mdp);
        self.run_with_q_map(mdp, episodes, rng, &mut q);
        q
    }

    /// Continue training a caller-owned table in place.  The start
    /// state must advertise an action: the first selection of each
    /// episode is unconditional.
    pub fn run_with_q_map(
        &self,
        mdp: &MapMdp,
        episodes: usize,
        rng: &mut rand_chacha::ChaCha20Rng,
        q_map: &mut QMap,
    )
        requires
            self.wf(),
            mdp.wf(),
            old(q_map).wf(),
            covers_all(mdp.trans(), old(q_map)@),
            possible_actions(mdp.trans(), mdp.initial()).len() > 0,
        ensures
            final (q_map).wf(),
            covers_all(mdp.trans(), final (q_map)@),
            ({
                let (q2, rng2) = sl_run_model(
                    self.alpha(),
                    self.epsilon(),
                    self.lambda(),
                    self.trace(),
                    mdp.trans(),
                    mdp.terminals(),
                    mdp.discount(),
                    mdp.initial(),
                    mdp.pairs(),
                    self.max_steps() as nat,
                    episodes as nat,
                    old(q_map)@,
                    *old(rng),
                );
                final (q_map)@ == q2 && *final (rng) == rng2
            }),
    {
        let ghost trans = mdp.trans();
        let ghost terms = mdp.terminals();
        let ghost disc = mdp.discount();
        let ghost init = mdp.initial();
        let ghost pairs = mdp.pairs();
        let ghost q0 = q_map@;
        let ghost r0 = *rng;
        let mut ep: usize = 0;
        while ep < episodes
            invariant
                ep <= episodes,
                q_map.wf(),
                covers_all(trans, q_map@),
                ({
                    let (qm, rm) = sl_run_model(
                        self.alpha(),
                        self.epsilon(),
                        self.lambda(),
                        self.trace(),
                        trans,
                        terms,
                        disc,
                        init,
                        pairs,
                        self.max_steps() as nat,
                        ep as nat,
                        q0,
                        r0,
                    );
                    q_map@ == qm && *rng == rm
                }),
            decreases episodes - ep,
        {
            proof {
                lemma_sl_run_snoc(
                    self.alpha(),
                    self.epsilon(),
                    self.lambda(),
                    self.trace(),
                    trans,
                    terms,
                    disc,
                    init,
                    pairs,
                    self.max_steps() as nat,
                    ep as nat,
                    q0,
                    r0,
                );
            }
            let ghost eq = q_map@;
            let ghost er = *rng;
            let ghost episode_result = sl_episode_model(
                self.alpha(),
                self.epsilon(),
                self.lambda(),
                self.trace(),
                trans,
                terms,
                disc,
                init,
                pairs,
                self.max_steps() as nat,
                eq,
                er,
            );
            let mut e_map = QMap::new();
            let mut current_state = mdp.get_initial_state(rng);
            proof {
                lemma_covers_all_covered(trans, q_map@, current_state);
                lemma_selector_some_iff(
                    q_map@,
                    current_state,
                    possible_actions(trans, current_state),
                    self.epsilon(),
                    *rng,
                );
            }
            let sel0 = epsilon_greedy_policy(mdp, q_map, current_state, self.epsilon, rng);
            let mut current_action = sel0.unwrap();
            proof {
                lemma_possible_lookup(trans, current_state);
                let pa = possible_actions(trans, current_state);
                let i = choose|i: int| 0 <= i < pa.len() && pa[i] == current_action;
                assert(lookup(trans, (current_state, current_action)) is Some);
                assert(e_map@ =~= Seq::<(PairKey, Fixed)>::empty());
            }
            let mut steps: usize = 0;
            let mut done = mdp.is_terminal(current_state) || steps >= self.max_steps;
            while !done
                invariant
                    q_map.wf(),
                    e_map.wf(),
                    covers_all(trans, q_map@),
                    steps <= self.max_steps(),
                    !done ==> !terms.contains(current_state) && steps < self.max_steps(),
                    !done ==> lookup(trans, (current_state, current_action)) is Some,
                    !done ==> ({
                        let r = sl_steps_model(
                            self.alpha(),
                            self.epsilon(),
                            self.lambda(),
                            self.trace(),
                            trans,
                            terms,
                            disc,
                            pairs,
                            q_map@,
                            e_map@,
                            *rng,
                            current_state,
                            current_action,
                            (self.max_steps() - steps) as nat,
                        );
                        (r.0, r.2) == episode_result
                    }),
                    done ==> (q_map@, *rng) == episode_result,
                decreases (if done {
                    0int
                } else {
                    self.max_steps() - steps + 1
                }),
            {
                let ghost q_pre = q_map@;
                let ghost e_pre = e_map@;
                let ghost r_pre = *rng;
                let ghost s_pre = current_state;
                let ghost a_pre = current_action;
                let ghost left_pre = (self.max_steps() - steps) as nat;
                let outcome = mdp.perform_action((current_state, current_action), rng);
                let next_state = outcome.0;
                let reward = outcome.1;
                proof {
                    lemma_covers_all_covered(trans, q_map@, next_state);
                }
                let sel = epsilon_greedy_policy(mdp, q_map, next_state, self.epsilon, rng);
                if sel.is_none() {
                    proof {
                        let r = sl_steps_model(
                            self.alpha(),
                            self.epsilon(),
                            self.lambda(),
                            self.trace(),
                            trans,
                            terms,
                            disc,
                            pairs,
                            q_pre,
                            e_pre,
                            r_pre,
                            s_pre,
                            a_pre,
                            left_pre,
                        );
                        assert((r.0, r.2) == (q_map@, *rng));
                    }
                    done = true;
                } else {
                    let next_action = sel.unwrap();
                    proof {
                        lemma_possible_lookup(trans, next_state);
                        let pa2 = possible_actions(trans, next_state);
                        let ia = choose|ia: int| 0 <= ia < pa2.len() && pa2[ia] == next_action;
                        assert(lookup(trans, (next_state, next_action)) is Some);
                        assert(lookup(q_map@, (next_state, next_action)) is Some);
                        lemma_lookup_some_index(trans, (current_state, current_action));
                        let jj = choose|jj: int|
                            0 <= jj < trans.len() && #[trigger] trans[jj].0 == (
                            current_state,
                            current_action,
                            );
                        assert(lookup(q_map@, (current_state, current_action)) is Some);
                    }
                    let next_q = *q_map.get((next_state, next_action)).unwrap();
                    let current_q = *q_map.get((current_state, current_action)).unwrap();
                    let delta = compute_delta(
                        reward,
                        mdp.get_discount_factor(),
                        next_q,
                        current_q,
                    );
                    match e_map.get((current_state, current_action)) {
                        Some(ev_ref) => {
                            let ev = *ev_ref;
                            let bumped = self.trace.calculate(ev, self.alpha);
                            proof {
                                let t = trace_calc(
                                    self.trace(),
                                    ev.0 as int,
                                    self.alpha().0 as int,
                                );
                                assert(i64::MIN <= t <= i64::MAX);
                                assert(bumped == Fixed(t as i64));
                            }
                            e_map.set((current_state, current_action), bumped);
                        },
                        None => {},
                    }
                    let ghost e_bumped = e_map@;
                    proof {
                        let e1m = match lookup(e_pre, (s_pre, a_pre)) {
                            Some(ev) => store(
                                e_pre,
                                (s_pre, a_pre),
                                Fixed(
                                    trace_calc(self.trace(), ev.0 as int, self.alpha().0 as int) as i64,
                                ),
                            ),
                            None => e_pre,
                        };
                        assert(e_bumped == e1m);
                    }
                    let decay = mdp.get_discount_factor().mul(self.lambda);
                    proof {
                        let d = mul_fx(disc.0 as int, self.lambda().0 as int);
                        assert(i64::MIN <= d <= i64::MAX);
                        assert(decay == Fixed(d as i64));
                    }
                    let all_pairs = mdp.get_all_state_actions();
                    run_lambda_sweep(all_pairs, q_map, &mut e_map, self.alpha, delta, decay, false);
                    proof {
                        lemma_lambda_sweep_covers(
                            trans,
                            pairs,
                            q_pre,
                            e_bumped,
                            self.alpha(),
                            delta,
                            decay,
                            false,
                        );
                    }
                    current_state = next_state;
                    current_action = next_action;
                    steps += 1;
                    done = mdp.is_terminal(current_state) || steps >= self.max_steps;
                    proof {
                        let r_old = sl_steps_model(
                            self.alpha(),
                            self.epsilon(),
                            self.lambda(),
                            self.trace(),
                            trans,
                            terms,
                            disc,
                            pairs,
                            q_pre,
                            e_pre,
                            r_pre,
                            s_pre,
                            a_pre,
                            left_pre,
                        );
                        let r_new = sl_steps_model(
                            self.alpha(),
                            self.epsilon(),
                            self.lambda(),
                            self.trace(),
                            trans,
                            terms,
                            disc,
                            pairs,
                            q_map@,
                            e_map@,
                            *rng,
                            current_state,
                            current_action,
                            (self.max_steps() - steps) as nat,
                        );
                        assert(r_old == r_new);
                    }
                }
            }
            ep += 1;
        }
    }
}

} // verus!
