//! Q-Learning: off-policy one-step temporal-difference control.
//!
//! Per step: select an action epsilon-greedily, sample the transition,
//! and move the acted pair's estimate toward
//! `reward + gamma * max_a Q(next, a)`, the greedy next action's
//! value.  An episode ends at a terminal state, when the step budget
//! runs out, or when a state advertises no action (silently, not as an
//! error).

use crate::algorithms::{q_update_fx, seed_q_map, seeded, apply_q_update, lemma_store_covers};
use crate::fixed::{Fixed, SCALE};
use crate::mdp::{lemma_lookup_some_index, perform_model, possible_actions, MapMdp, Transition};
use crate::mdp::{IndexAction, IndexState};
use crate::policies::{
    covers_all, eps_greedy_model, epsilon_greedy_policy, greedy_ma_model, greedy_policy_ma,
    lemma_covers_all_covered, lemma_possible_lookup,
};
use crate::table::{lookup, store, PairKey, QMap};
use vstd::prelude::*;

verus! {

/// What one in-episode step chain leaves behind, starting from state
/// `s` with `steps_left` of the budget: the table and the generator
/// after running until terminal, exhausted budget, or an
/// action-unavailable exit.
pub open spec fn ql_steps_model(
    alpha: Fixed,
    epsilon: Fixed,
    trans: Seq<(PairKey, Vec<Transition>)>,
    terms: Seq<IndexState>,
    disc: Fixed,
    q: Seq<(PairKey, Fixed)>,
    rng: rand_chacha::ChaCha20Rng,
    s: IndexState,
    steps_left: nat,
) -> (Seq<(PairKey, Fixed)>, rand_chacha::ChaCha20Rng)
    decreases steps_left,
{
    if steps_left == 0 || terms.contains(s) {
        (q, rng)
    } else {
        let (sel, rng1) = eps_greedy_model(trans, q, s, epsilon, rng);
        match sel {
            None => (q, rng1),
            Some(a) => {
                let (outcome, rng2) = perform_model(trans, (s, a), rng1);
                let s2 = outcome.0;
                let reward = outcome.1;
                let (best, rng3) = greedy_ma_model(q, s2, possible_actions(trans, s2), rng2);
                match best {
                    None => (q, rng3),
                    Some(b) => {
                        let bq = lookup(q, (s2, b)).unwrap();
                        let cq = lookup(q, (s, a)).unwrap();
                        let q2 = store(q, (s, a), q_update_fx(cq, alpha, reward, disc, bq));
                        ql_steps_model(
                            alpha,
                            epsilon,
                            trans,
                            terms,
                            disc,
                            q2,
                            rng3,
                            s2,
                            (steps_left - 1) as nat,
                        )
                    },
                }
            },
        }
    }
}

/// What one episode leaves behind: the step chain from the initial
/// state with a full budget.
pub open spec fn ql_episode_model(
    alpha: Fixed,
    epsilon: Fixed,
    trans: Seq<(PairKey, Vec<Transition>)>,
    terms: Seq<IndexState>,
    disc: Fixed,
    init: IndexState,
    max_steps: nat,
    q: Seq<(PairKey, Fixed)>,
    rng: rand_chacha::ChaCha20Rng,
) -> (Seq<(PairKey, Fixed)>, rand_chacha::ChaCha20Rng) {
    ql_steps_model(alpha, epsilon, trans, terms, disc, q, rng, init, max_steps)
}

/// What training for a number of episodes leaves behind.
pub open spec fn ql_run_model(
    alpha: Fixed,
    epsilon: Fixed,
    trans: Seq<(PairKey, Vec<Transition>)>,
    terms: Seq<IndexState>,
    disc: Fixed,
    init: IndexState,
    max_steps: nat,
    episodes: nat,
    q: Seq<(PairKey, Fixed)>,
    rng: rand_chacha::ChaCha20Rng,
) -> (Seq<(PairKey, Fixed)>, rand_chacha::ChaCha20Rng)
    decreases episodes,
{
    if episodes == 0 {
        (q, rng)
    } else {
        let (q1, rng1) = ql_episode_model(alpha, epsilon, trans, terms, disc, init, max_steps, q, rng);
        ql_run_model(
            alpha,
            epsilon,
            trans,
            terms,
            disc,
            init,
            max_steps,
            (episodes - 1) as nat,
            q1,
            rng1,
        )
    }
}

/// Training splits: `n1 + n2` episodes in one call leave exactly what
/// `n1` episodes and then `n2` more on the same table and generator
/// leave.  This is the incremental-equivalence law for Q-Learning.
pub proof fn lemma_ql_run_split(
    alpha: Fixed,
    epsilon: Fixed,
    trans: Seq<(PairKey, Vec<Transition>)>,
    terms: Seq<IndexState>,
    disc: Fixed,
    init: IndexState,
    max_steps: nat,
    n1: nat,
    n2: nat,
    q: Seq<(PairKey, Fixed)>,
    rng: rand_chacha::ChaCha20Rng,
)
    ensures
        ql_run_model(alpha, epsilon, trans, terms, disc, init, max_steps, n1 + n2, q, rng) == ({
            let (q1, rng1) = ql_run_model(
                alpha,
                epsilon,
                trans,
                terms,
                disc,
                init,
                max_steps,
                n1,
                q,
                rng,
            );
            ql_run_model(alpha, epsilon, trans, terms, disc, init, max_steps, n2, q1, rng1)
        }),
    decreases n1,
{
    if n1 == 0 {
    } else {
        let (q1, rng1) = ql_episode_model(alpha, epsilon, trans, terms, disc, init, max_steps, q, rng);
        lemma_ql_run_split(
            alpha,
            epsilon,
            trans,
            terms,
            disc,
            init,
            max_steps,
            (n1 - 1) as nat,
            n2,
            q1,
            rng1,
        );
        assert(n1 + n2 - 1 == (n1 - 1) as nat + n2);
    }
}

/// One more episode after `n` is the episode applied to the result of
/// `n`.
proof fn lemma_ql_run_snoc(
    alpha: Fixed,
    epsilon: Fixed,
    trans: Seq<(PairKey, Vec<Transition>)>,
    terms: Seq<IndexState>,
    disc: Fixed,
    init: IndexState,
    max_steps: nat,
    n: nat,
    q: Seq<(PairKey, Fixed)>,
    rng: rand_chacha::ChaCha20Rng,
)
    ensures
        ql_run_model(alpha, epsilon, trans, terms, disc, init, max_steps, n + 1, q, rng) == ({
            let (q1, rng1) = ql_run_model(alpha, epsilon, trans, terms, disc, init, max_steps, n, q, rng);
            ql_episode_model(alpha, epsilon, trans, terms, disc, init, max_steps, q1, rng1)
        }),
{
    lemma_ql_run_split(alpha, epsilon, trans, terms, disc, init, max_steps, n, 1, q, rng);
    let (q1, rng1) = ql_run_model(alpha, epsilon, trans, terms, disc, init, max_steps, n, q, rng);
    let (q2, rng2) = ql_episode_model(alpha, epsilon, trans, terms, disc, init, max_steps, q1, rng1);
    assert(ql_run_model(alpha, epsilon, trans, terms, disc, init, max_steps, 0, q2, rng2) == (
        q2,
        rng2,
    ));
    assert(ql_run_model(alpha, epsilon, trans, terms, disc, init, max_steps, 1, q1, rng1) == (
        q2,
        rng2,
    ));
}

/// The Q-Learning trainer: learning rate, exploration rate, and the
/// per-episode step budget.
pub struct QLearning {
    alpha: Fixed,
    epsilon: Fixed,
    max_steps: usize,
}

impl QLearning {
    /// The exploration rate is a probability.
    pub open spec fn wf(&self) -> bool {
        0 <= self.epsilon().0 <= SCALE
    }

    pub fn new(alpha: Fixed, epsilon: Fixed, max_steps: usize) -> (r: QLearning)
        requires
            0 <= epsilon.0 <= SCALE,
        ensures
            r.wf(),
            r.alpha() == alpha,
            r.epsilon() == epsilon,
            r.max_steps() == max_steps,
    {
        QLearning { alpha, epsilon, max_steps }
    }

    pub closed spec fn alpha(&self) -> Fixed {
        self.alpha
    }

    pub closed spec fn epsilon(&self) -> Fixed {
        self.epsilon
    }

    pub closed spec fn max_steps(&self) -> usize {
        self.max_steps
    }

    pub fn get_epsilon(&self) -> (r: Fixed)
        ensures
            r == self.epsilon(),
    {
        self.epsilon
    }

    /// Train on a fresh table seeded to zero over the advertised
    /// universe.
    pub fn run(&self, mdp: &MapMdp, episodes: usize, rng: &mut rand_chacha::ChaCha20Rng) -> (q: QMap)
        requires
            self.wf(),
            mdp.wf(),
        ensures
            q.wf(),
            covers_all(mdp.trans(), q@),
            ({
                let (q2, rng2) = ql_run_model(
                    self.alpha(),
                    self.epsilon(),
                    mdp.trans(),
                    mdp.terminals(),
                    mdp.discount(),
                    mdp.initial(),
                    self.max_steps() as nat,
                    episodes as nat,
                    seeded(mdp.trans()),
                    *old(rng),
                );
                q@ == q2 && *final (rng) == rng2
            }),
    {
        let mut q = seed_q_map(mdp);
        self.run_with_q_map(mdp, episodes, rng, &mut q);
        q
    }

    /// Continue training a caller-owned table in place.  The table
    /// must already know every advertised pair (seed it, or reuse one
    /// from an earlier run).
    pub fn run_with_q_map(
        &self,
        mdp: &MapMdp,
        episodes: usize,
        rng: &mut rand_chacha::ChaCha20Rng,
        q_map: &mut QMap,
    )
        requires
            self.wf(),
            mdp.wf(),
            old(q_map).wf(),
            covers_all(mdp.trans(), old(q_map)@),
        ensures
            final (q_map).wf(),
            covers_all(mdp.trans(), final (q_map)@),
            ({
                let (q2, rng2) = ql_run_model(
                    self.alpha(),
                    self.epsilon(),
                    mdp.trans(),
                    mdp.terminals(),
                    mdp.discount(),
                    mdp.initial(),
                    self.max_steps() as nat,
                    episodes as nat,
                    old(q_map)@,
                    *old(rng),
                );
                final (q_map)@ == q2 && *final (rng) == rng2
            }),
    {
        let ghost trans = mdp.trans();
        let ghost terms = mdp.terminals();
        let ghost disc = mdp.discount();
        let ghost init = mdp.initial();
        let ghost q0 = q_map@;
        let ghost r0 = *rng;
        let mut ep: usize = 0;
        while ep < episodes
            invariant
                ep <= episodes,
                q_map.wf(),
                covers_all(trans, q_map@),
                ({
                    let (qm, rm) = ql_run_model(
                        self.alpha(),
                        self.epsilon(),
                        trans,
                        terms,
                        disc,
                        init,
                        self.max_steps() as nat,
                        ep as nat,
                        q0,
                        r0,
                    );
                    q_map@ == qm && *rng == rm
                }),
            decreases episodes - ep,
        {
            proof {
                lemma_ql_run_snoc(
                    self.alpha(),
                    self.epsilon(),
                    trans,
                    terms,
                    disc,
                    init,
                    self.max_steps() as nat,
                    ep as nat,
                    q0,
                    r0,
                );
            }
            let ghost eq = q_map@;
            let ghost er = *rng;
            let ghost episode_result = ql_episode_model(
                self.alpha(),
                self.epsilon(),
                trans,
                terms,
                disc,
                init,
                self.max_steps() as nat,
                eq,
                er,
            );
            let mut current_state = mdp.get_initial_state(rng);
            let mut steps: usize = 0;
            let mut done = mdp.is_terminal(current_state) || steps >= self.max_steps;
            while !done
                invariant
                    q_map.wf(),
                    covers_all(trans, q_map@),
                    steps <= self.max_steps(),
                    !done ==> !terms.contains(current_state) && steps < self.max_steps(),
                    !done ==> ql_steps_model(
                        self.alpha(),
                        self.epsilon(),
                        trans,
                        terms,
                        disc,
                        q_map@,
                        *rng,
                        current_state,
                        (self.max_steps() - steps) as nat,
                    ) == episode_result,
                    done ==> (q_map@, *rng) == episode_result,
                decreases (if done { 0int } else { self.max_steps() - steps + 1 }),
            {
                let ghost q_pre = q_map@;
                let ghost r_pre = *rng;
                let ghost s_pre = current_state;
                let ghost left_pre = (self.max_steps() - steps) as nat;
                proof {
                    lemma_covers_all_covered(trans, q_map@, current_state);
                }
                let sel = epsilon_greedy_policy(mdp, q_map, current_state, self.epsilon, rng);
                if sel.is_none() {
                    proof {
                        assert(ql_steps_model(
                            self.alpha(),
                            self.epsilon(),
                            trans,
                            terms,
                            disc,
                            q_pre,
                            r_pre,
                            s_pre,
                            left_pre,
                        ) == (q_map@, *rng));
                    }
                    done = true;
                } else {
                    let selected_action = sel.unwrap();
                    proof {
                        lemma_possible_lookup(trans, current_state);
                        let pa = possible_actions(trans, current_state);
                        let i = choose|i: int| 0 <= i < pa.len() && pa[i] == selected_action;
                        assert(lookup(trans, (current_state, selected_action)) is Some);
                        lemma_lookup_some_index(trans, (current_state, selected_action));
                        let j = choose|j: int|
                            0 <= j < trans.len() && #[trigger] trans[j].0 == (
                            current_state,
                            selected_action,
                            ) && trans[j].1 == lookup(
                            trans,
                            (current_state, selected_action),
                        ).unwrap();
                        assert(lookup(q_map@, (current_state, selected_action)) is Some);
                    }
                    let outcome = mdp.perform_action((current_state, selected_action), rng);
                    let next_state = outcome.0;
                    let reward = outcome.1;
                    let possible2 = mdp.get_possible_actions(next_state);
                    proof {
                        lemma_covers_all_covered(trans, q_map@, next_state);
                    }
                    let best = greedy_policy_ma(&possible2, q_map, next_state, rng);
                    if best.is_none() {
                        proof {
                            assert(ql_steps_model(
                                self.alpha(),
                                self.epsilon(),
                                trans,
                                terms,
                                disc,
                                q_pre,
                                r_pre,
                                s_pre,
                                left_pre,
                            ) == (q_map@, *rng));
                        }
                        done = true;
                    } else {
                        let best_action = best.unwrap();
                        proof {
                            let pa2 = possible_actions(trans, next_state);
                            let i2 = choose|i2: int| 0 <= i2 < pa2.len() && pa2[i2] == best_action;
                            assert(lookup(q_map@, (next_state, best_action)) is Some);
                        }
                        let best_q = *q_map.get((next_state, best_action)).unwrap();
                        let current_q = *q_map.get((current_state, selected_action)).unwrap();
                        let new_q = apply_q_update(
                            current_q,
                            self.alpha,
                            reward,
                            mdp.get_discount_factor(),
                            best_q,
                        );
                        proof {
                            lemma_store_covers(
                                trans,
                                q_map@,
                                (current_state, selected_action),
                                new_q,
                            );
                        }
                        q_map.set((current_state, selected_action), new_q);
                        current_state = next_state;
                        steps += 1;
                        done = mdp.is_terminal(current_state) || steps >= self.max_steps;
                        proof {
                            assert(ql_steps_model(
                                self.alpha(),
                                self.epsilon(),
                                trans,
                                terms,
                                disc,
                                q_pre,
                                r_pre,
                                s_pre,
                                left_pre,
                            ) == ql_steps_model(
                                self.alpha(),
                                self.epsilon(),
                                trans,
                                terms,
                                disc,
                                q_map@,
                                *rng,
                                current_state,
                                (self.max_steps() - steps) as nat,
                            ));
                        }
                    }
                }
            }
            ep += 1;
        }
    }
}

} // verus!
