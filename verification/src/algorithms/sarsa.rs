//! SARSA: on-policy one-step temporal-difference control.
//!
//! Per step: perform the already-selected action, select the next
//! action epsilon-greedily, and move the acted pair's estimate toward
//! `reward + gamma * Q(next, next_action)` — the value of the action
//! the policy itself will take.  The first action of an episode is
//! selected before the step loop, so the start state must advertise at
//! least one action.

use crate::algorithms::{apply_q_update, lemma_store_covers, or_zero, q_update_fx, seed_q_map, seeded, get_or_zero};
use crate::fixed::{Fixed, SCALE};
use crate::mdp::{lemma_lookup_some_index, perform_model, possible_actions, MapMdp, Transition};
use crate::mdp::{IndexAction, IndexState};
use crate::policies::{
    covers_all, eps_greedy_model, epsilon_greedy_policy, lemma_covers_all_covered,
    lemma_possible_lookup, lemma_selector_some_iff,
};
use crate::table::{lookup, store, PairKey, QMap};
use vstd::prelude::*;

verus! {

/// What one in-episode step chain leaves behind, starting from state
/// `s` about to perform `a` with `steps_left` of the budget.
pub open spec fn sarsa_steps_model(
    alpha: Fixed,
    epsilon: Fixed,
    trans: Seq<(PairKey, Vec<Transition>)>,
    terms: Seq<IndexState>,
    disc: Fixed,
    q: Seq<(PairKey, Fixed)>,
    rng: rand_chacha::ChaCha20Rng,
    s: IndexState,
    a: IndexAction,
    steps_left: nat,
) -> (Seq<(PairKey, Fixed)>, rand_chacha::ChaCha20Rng)
    decreases steps_left,
{
    if steps_left == 0 || terms.contains(s) {
        (q, rng)
    } else {
        let (outcome, rng1) = perform_model(trans, (s, a), rng);
        let s2 = outcome.0;
        let reward = outcome.1;
        let (sel, rng2) = eps_greedy_model(trans, q, s2, epsilon, rng1);
        match sel {
            None => (q, rng2),
            Some(a2) => {
                let nq = or_zero(lookup(q, (s2, a2)));
                let cq = or_zero(lookup(q, (s, a)));
                let q2 = store(q, (s, a), q_update_fx(cq, alpha, reward, disc, nq));
                sarsa_steps_model(
                    alpha,
                    epsilon,
                    trans,
                    terms,
                    disc,
                    q2,
                    rng2,
                    s2,
                    a2,
                    (steps_left - 1) as nat,
                )
            },
        }
    }
}

/// What one episode leaves behind: the first action is selected
/// epsilon-greedily at the start state, then the step chain runs.
pub open spec fn sarsa_episode_model(
    alpha: Fixed,
    epsilon: Fixed,
    trans: Seq<(PairKey, Vec<Transition>)>,
    terms: Seq<IndexState>,
    disc: Fixed,
    init: IndexState,
    max_steps: nat,
    q: Seq<(PairKey, Fixed)>,
    rng: rand_chacha::ChaCha20Rng,
) -> (Seq<(PairKey, Fixed)>, rand_chacha::ChaCha20Rng) {
    let (sel, rng1) = eps_greedy_model(trans, q, init, epsilon, rng);
    match sel {
        None => (q, rng1),
        Some(a0) => sarsa_steps_model(
            alpha,
            epsilon,
            trans,
            terms,
            disc,
            q,
            rng1,
            init,
            a0,
            max_steps,
        ),
    }
}

/// What training for a number of episodes leaves behind.
pub open spec fn sarsa_run_model(
    alpha: Fixed,
    epsilon: Fixed,
    trans: Seq<(PairKey, Vec<Transition>)>,
    terms: Seq<IndexState>,
    disc: Fixed,
    init: IndexState,
    max_steps: nat,
    episodes: nat,
    q: Seq<(PairKey, Fixed)>,
    rng: rand_chacha::ChaCha20Rng,
) -> (Seq<(PairKey, Fixed)>, rand_chacha::ChaCha20Rng)
    decreases episodes,
{
    if episodes == 0 {
        (q, rng)
    } else {
        let (q1, rng1) = sarsa_episode_model(
            alpha,
            epsilon,
            trans,
            terms,
            disc,
            init,
            max_steps,
            q,
            rng,
        );
        sarsa_run_model(
            alpha,
            epsilon,
            trans,
            terms,
            disc,
            init,
            max_steps,
            (episodes - 1) as nat,
            q1,
            rng1,
        )
    }
}

/// Training splits: `n1 + n2` episodes in one call leave exactly what
/// `n1` episodes and then `n2` more on the same table and generator
/// leave.  This is the incremental-equivalence law for SARSA.
pub proof fn lemma_sarsa_run_split(
    alpha: Fixed,
    epsilon: Fixed,
    trans: Seq<(PairKey, Vec<Transition>)>,
    terms: Seq<IndexState>,
    disc: Fixed,
    init: IndexState,
    max_steps: nat,
    n1: nat,
    n2: nat,
    q: Seq<(PairKey, Fixed)>,
    rng: rand_chacha::ChaCha20Rng,
)
    ensures
        sarsa_run_model(alpha, epsilon, trans, terms, disc, init, max_steps, n1 + n2, q, rng) == ({
            let (q1, rng1) = sarsa_run_model(
                alpha,
                epsilon,
                trans,
                terms,
                disc,
                init,
                max_steps,
                n1,
                q,
                rng,
            );
            sarsa_run_model(alpha, epsilon, trans, terms, disc, init, max_steps, n2, q1, rng1)
        }),
    decreases n1,
{
    if n1 == 0 {
    } else {
        let (q1, rng1) = sarsa_episode_model(
            alpha,
            epsilon,
            trans,
            terms,
            disc,
            init,
            max_steps,
            q,
            rng,
        );
        lemma_sarsa_run_split(
            alpha,
            epsilon,
            trans,
            terms,
            disc,
            init,
            max_steps,
            (n1 - 1) as nat,
            n2,
            q1,
            rng1,
        );
        assert(n1 + n2 - 1 == (n1 - 1) as nat + n2);
    }
}

/// One more episode after `n` is the episode applied to the result of
/// `n`.
proof fn lemma_sarsa_run_snoc(
    alpha: Fixed,
    epsilon: Fixed,
    trans: Seq<(PairKey, Vec<Transition>)>,
    terms: Seq<IndexState>,
    disc: Fixed,
    init: IndexState,
    max_steps: nat,
    n: nat,
    q: Seq<(PairKey, Fixed)>,
    rng: rand_chacha::ChaCha20Rng,
)
    ensures
        sarsa_run_model(alpha, epsilon, trans, terms, disc, init, max_steps, n + 1, q, rng) == ({
            let (q1, rng1) = sarsa_run_model(
                alpha,
                epsilon,
                trans,
                terms,
                disc,
                init,
                max_steps,
                n,
                q,
                rng,
            );
            sarsa_episode_model(alpha, epsilon, trans, terms, disc, init, max_steps, q1, rng1)
        }),
{
    lemma_sarsa_run_split(alpha, epsilon, trans, terms, disc, init, max_steps, n, 1, q, rng);
    let (q1, rng1) = sarsa_run_model(alpha, epsilon, trans, terms, disc, init, max_steps, n, q, rng);
    let (q2, rng2) = sarsa_episode_model(alpha, epsilon, trans, terms, disc, init, max_steps, q1, rng1);
    assert(sarsa_run_model(alpha, epsilon, trans, terms, disc, init, max_steps, 0, q2, rng2) == (
        q2,
        rng2,
    ));
    assert(sarsa_run_model(alpha, epsilon, trans, terms, disc, init, max_steps, 1, q1, rng1) == (
        q2,
        rng2,
    ));
}

/// The SARSA trainer: learning rate, exploration rate, and the
/// per-episode step budget.
pub struct Sarsa {
    alpha: Fixed,
    epsilon: Fixed,
    max_steps: usize,
}

impl Sarsa {
    /// The exploration rate is a probability.
    pub open spec fn wf(&self) -> bool {
        0 <= self.epsilon().0 <= SCALE
    }

    pub fn new(alpha: Fixed, epsilon: Fixed, max_steps: usize) -> (r: Sarsa)
        requires
            0 <= epsilon.0 <= SCALE,
        ensures
            r.wf(),
            r.alpha() == alpha,
            r.epsilon() == epsilon,
            r.max_steps() == max_steps,
    {
        Sarsa { alpha, epsilon, max_steps }
    }

    pub closed spec fn alpha(&self) -> Fixed {
        self.alpha
    }

    pub closed spec fn epsilon(&self) -> Fixed {
        self.epsilon
    }

    pub closed spec fn max_steps(&self) -> usize {
        self.max_steps
    }

    pub fn get_epsilon(&self) -> (r: Fixed)
        ensures
            r == self.epsilon(),
    {
        self.epsilon
    }

    /// Train on a fresh table seeded to zero over the advertised
    /// universe.
    pub fn run(&self, mdp: &MapMdp, episodes: usize, rng: &mut rand_chacha::ChaCha20Rng) -> (q: QMap)
        requires
            self.wf(),
            mdp.wf(),
            possible_actions(mdp.trans(), mdp.initial()).len() > 0,
        ensures
            q.wf(),
            covers_all(mdp.trans(), q@),
            ({
                let (q2, rng2) = sarsa_run_model(
                    self.alpha(),
                    self.epsilon(),
                    mdp.trans(),
                    mdp.terminals(),
                    mdp.discount(),
                    mdp.initial(),
                    self.max_steps() as nat,
                    episodes as nat,
                    seeded(mdp.trans()),
                    *old(rng),
                );
                q@ == q2 && *final (rng) == rng2
            }),
    {
        let mut q = seed_q_map(mdp);
        self.run_with_q_map(mdp, episodes, rng, &mut q);
        q
    }

    /// Continue training a caller-owned table in place.  The start
    /// state must advertise an action: the first selection of each
    /// episode is unconditional.
    pub fn run_with_q_map(
        &self,
        mdp: &MapMdp,
        episodes: usize,
        rng: &mut rand_chacha::ChaCha20Rng,
        q_map: &mut QMap,
    )
        requires
            self.wf(),
            mdp.wf(),
            old(q_map).wf(),
            covers_all(mdp.trans(), old(q_map)@),
            possible_actions(mdp.trans(), mdp.initial()).len() > 0,
        ensures
            final (q_map).wf(),
            covers_all(mdp.trans(), final (q_map)@),
            ({
                let (q2, rng2) = sarsa_run_model(
                    self.alpha(),
                    self.epsilon(),
                    mdp.trans(),
                    mdp.terminals(),
                    mdp.discount(),
                    mdp.initial(),
                    self.max_steps() as nat,
                    episodes as nat,
                    old(q_map)@,
                    *old(rng),
                );
                final (q_map)@ == q2 && *final (rng) == rng2
            }),
    {
        let ghost trans = mdp.trans();
        let ghost terms = mdp.terminals();
        let ghost disc = mdp.discount();
        let ghost init = mdp.initial();
        let ghost q0 = q_map@;
        let ghost r0 = *rng;
        let mut ep: usize = 0;
        while ep < episodes
            invariant
                ep <= episodes,
                q_map.wf(),
                covers_all(trans, q_map@),
                ({
                    let (qm, rm) = sarsa_run_model(
                        self.alpha(),
                        self.epsilon(),
                        trans,
                        terms,
                        disc,
                        init,
                        self.max_steps() as nat,
                        ep as nat,
                        q0,
                        r0,
                    );
                    q_map@ == qm && *rng == rm
                }),
            decreases episodes - ep,
        {
            proof {
                lemma_sarsa_run_snoc(
                    self.alpha(),
                    self.epsilon(),
                    trans,
                    terms,
                    disc,
                    init,
                    self.max_steps() as nat,
                    ep as nat,
                    q0,
                    r0,
                );
            }
            let ghost eq = q_map@;
            let ghost er = *rng;
            let ghost episode_result = sarsa_episode_model(
                self.alpha(),
                self.epsilon(),
                trans,
                terms,
                disc,
                init,
                self.max_steps() as nat,
                eq,
                er,
            );
            let mut current_state = mdp.get_initial_state(rng);
            proof {
                lemma_covers_all_covered(trans, q_map@, current_state);
                lemma_selector_some_iff(
                    q_map@,
                    current_state,
                    possible_actions(trans, current_state),
                    self.epsilon(),
                    *rng,
                );
            }
            let sel0 = epsilon_greedy_policy(mdp, q_map, current_state, self.epsilon, rng);
            let mut current_action = sel0.unwrap();
            proof {
                lemma_possible_lookup(trans, current_state);
                let pa = possible_actions(trans, current_state);
                let i = choose|i: int| 0 <= i < pa.len() && pa[i] == current_action;
                assert(lookup(trans, (current_state, current_action)) is Some);
            }
            let mut steps: usize = 0;
            let mut done = mdp.is_terminal(current_state) || steps >= self.max_steps;
            while !done
                invariant
                    q_map.wf(),
                    covers_all(trans, q_map@),
                    steps <= self.max_steps(),
                    !done ==> !terms.contains(current_state) && steps < self.max_steps(),
                    !done ==> lookup(trans, (current_state, current_action)) is Some,
                    !done ==> sarsa_steps_model(
                        self.alpha(),
                        self.epsilon(),
                        trans,
                        terms,
                        disc,
                        q_map@,
                        *rng,
                        current_state,
                        current_action,
                        (self.max_steps() - steps) as nat,
                    ) == episode_result,
                    done ==> (q_map@, *rng) == episode_result,
                decreases (if done {
                    0int
                } else {
                    self.max_steps() - steps + 1
                }),
            {
                let ghost q_pre = q_map@;
                let ghost r_pre = *rng;
                let ghost s_pre = current_state;
                let ghost a_pre = current_action;
                let ghost left_pre = (self.max_steps() - steps) as nat;
                let outcome = mdp.perform_action((current_state, current_action), rng);
                let next_state = outcome.0;
                let reward = outcome.1;
                proof {
                    lemma_covers_all_covered(trans, q_map@, next_state);
                }
                let sel = epsilon_greedy_policy(mdp, q_map, next_state, self.epsilon, rng);
                if sel.is_none() {
                    proof {
                        assert(sarsa_steps_model(
                            self.alpha(),
                            self.epsilon(),
                            trans,
                            terms,
                            disc,
                            q_pre,
                            r_pre,
                            s_pre,
                            a_pre,
                            left_pre,
                        ) == (q_map@, *rng));
                    }
                    done = true;
                } else {
                    let next_action = sel.unwrap();
                    proof {
                        lemma_possible_lookup(trans, next_state);
                        let pa2 = possible_actions(trans, next_state);
                        let i2 = choose|i2: int| 0 <= i2 < pa2.len() && pa2[i2] == next_action;
                        assert(lookup(trans, (next_state, next_action)) is Some);
                    }
                    let next_q = get_or_zero(q_map, (next_state, next_action));
                    let current_q = get_or_zero(q_map, (current_state, current_action));
                    let new_q = apply_q_update(
                        current_q,
                        self.alpha,
                        reward,
                        mdp.get_discount_factor(),
                        next_q,
                    );
                    proof {
                        lemma_store_covers(trans, q_map@, (current_state, current_action), new_q);
                    }
                    q_map.set((current_state, current_action), new_q);
                    current_state = next_state;
                    current_action = next_action;
                    steps += 1;
                    done = mdp.is_terminal(current_state) || steps >= self.max_steps;
                    proof {
                        assert(sarsa_steps_model(
                            self.alpha(),
                            self.epsilon(),
                            trans,
                            terms,
                            disc,
                            q_pre,
                            r_pre,
                            s_pre,
                            a_pre,
                            left_pre,
                        ) == sarsa_steps_model(
                            self.alpha(),
                            self.epsilon(),
                            trans,
                            terms,
                            disc,
                            q_map@,
                            *rng,
                            current_state,
                            current_action,
                            (self.max_steps() - steps) as nat,
                        ));
                    }
                }
            }
            ep += 1;
        }
    }
}

} // verus!
