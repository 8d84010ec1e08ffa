//! Bias-corrected Q-Learning: every updated estimate is additionally
//! multiplied by `1 - beta`, with `beta = 1 / (bucket + 1)`.
//!
//! The bucket is trainer state that persists across calls: it is
//! incremented only on episodes whose running episode count is a
//! multiple of the configured rate, which throttles how fast the
//! correction fades.  The bucket saturates at the largest count whose
//! fixed-point image is representable; in practice it is never
//! reached.

use crate::algorithms::{apply_q_update, lemma_store_covers, q_update_fx, seed_q_map, seeded};
use crate::fixed::{div_fx, mul_fx, sub_fx, Fixed, SCALE};
use crate::mdp::{lemma_lookup_some_index, perform_model, possible_actions, MapMdp, Transition};
use crate::mdp::{IndexAction, IndexState};
use crate::policies::{
    covers_all, eps_greedy_model, epsilon_greedy_policy, greedy_ma_model, greedy_policy_ma,
    lemma_covers_all_covered, lemma_possible_lookup,
};
use crate::table::{lookup, store, PairKey, QMap};
use vstd::prelude::*;

verus! {

/// Largest correction bucket the fixed-point representation admits.
pub const BETA_DENOM_MAX: u64 = 9_000_000_000_000;

/// The bucket after one throttled increment.
pub open spec fn bump_denom(denom: u64) -> u64 {
    if denom < BETA_DENOM_MAX {
        (denom + 1) as u64
    } else {
        denom
    }
}

/// The correction factor `beta = 1 / (denom + 1)`.
pub open spec fn beta_of(denom: u64) -> Fixed {
    Fixed(div_fx(SCALE as int, (denom + 1) * (SCALE as int)) as i64)
}

/// One bias-corrected update:
/// `(q + alpha * (reward + gamma * target - q)) * (1 - beta)`.
pub open spec fn beta_q_update_fx(
    q: Fixed,
    alpha: Fixed,
    reward: Fixed,
    gamma: Fixed,
    target: Fixed,
    beta: Fixed,
) -> Fixed {
    Fixed(
        mul_fx(
            q_update_fx(q, alpha, reward, gamma, target).0 as int,
            sub_fx(SCALE as int, beta.0 as int),
        ) as i64,
    )
}

/// Apply the bias-corrected update to one estimate.
pub fn apply_beta_q_update(
    current_q: Fixed,
    alpha: Fixed,
    reward: Fixed,
    gamma: Fixed,
    target: Fixed,
    beta: Fixed,
) -> (r: Fixed)
    ensures
        r == beta_q_update_fx(current_q, alpha, reward, gamma, target, beta),
{
    apply_q_update(current_q, alpha, reward, gamma, target).mul(Fixed(SCALE).sub(beta))
}

/// What one in-episode step chain leaves behind; `beta` is fixed for
/// the whole episode.
pub open spec fn qlb_steps_model(
    alpha: Fixed,
    epsilon: Fixed,
    trans: Seq<(PairKey, Vec<Transition>)>,
    terms: Seq<IndexState>,
    disc: Fixed,
    beta: Fixed,
    q: Seq<(PairKey, Fixed)>,
    rng: rand_chacha::ChaCha20Rng,
    s: IndexState,
    steps_left: nat,
) -> (Seq<(PairKey, Fixed)>, rand_chacha::ChaCha20Rng)
    decreases steps_left,
{
    if steps_left == 0 || terms.contains(s) {
        (q, rng)
    } else {
        let (sel, rng1) = eps_greedy_model(trans, q, s, epsilon, rng);
        match sel {
            None => (q, rng1),
            Some(a) => {
                let (outcome, rng2) = perform_model(trans, (s, a), rng1);
                let s2 = outcome.0;
                let reward = outcome.1;
                let (best, rng3) = greedy_ma_model(q, s2, possible_actions(trans, s2), rng2);
                match best {
                    None => (q, rng3),
                    Some(b) => {
                        let bq = lookup(q, (s2, b)).unwrap();
                        let cq = lookup(q, (s, a)).unwrap();
                        let q2 = store(
                            q,
                            (s, a),
                            beta_q_update_fx(cq, alpha, reward, disc, bq, beta),
                        );
                        qlb_steps_model(
                            alpha,
                            epsilon,
                            trans,
                            terms,
                            disc,
                            beta,
                            q2,
                            rng3,
                            s2,
                            (steps_left - 1) as nat,
                        )
                    },
                }
            },
        }
    }
}

/// What one episode leaves behind, bucket bookkeeping included: the
/// bucket is bumped first when the episode count is a multiple of the
/// rate, then the whole episode runs under the resulting `beta`.
pub open spec fn qlb_episode_model(
    alpha: Fixed,
    epsilon: Fixed,
    rate: usize,
    trans: Seq<(PairKey, Vec<Transition>)>,
    terms: Seq<IndexState>,
    disc: Fixed,
    init: IndexState,
    max_steps: nat,
    q: Seq<(PairKey, Fixed)>,
    rng: rand_chacha::ChaCha20Rng,
    denom: u64,
    total: nat,
) -> (Seq<(PairKey, Fixed)>, rand_chacha::ChaCha20Rng, u64, nat)
    recommends
        rate > 0,
{
    let denom1 = if total % (rate as nat) == 0 {
        bump_denom(denom)
    } else {
        denom
    };
    let beta = beta_of(denom1);
    let (q1, rng1) = qlb_steps_model(
        alpha,
        epsilon,
        trans,
        terms,
        disc,
        beta,
        q,
        rng,
        init,
        max_steps,
    );
    (q1, rng1, denom1, total + 1)
}

/// What training for a number of episodes leaves behind: table,
/// generator, bucket, and running episode count.
pub open spec fn qlb_run_model(
    alpha: Fixed,
    epsilon: Fixed,
    rate: usize,
    trans: Seq<(PairKey, Vec<Transition>)>,
    terms: Seq<IndexState>,
    disc: Fixed,
    init: IndexState,
    max_steps: nat,
    episodes: nat,
    q: Seq<(PairKey, Fixed)>,
    rng: rand_chacha::ChaCha20Rng,
    denom: u64,
    total: nat,
) -> (Seq<(PairKey, Fixed)>, rand_chacha::ChaCha20Rng, u64, nat)
    decreases episodes,
{
    if episodes == 0 {
        (q, rng, denom, total)
    } else {
        let (q1, rng1, denom1, total1) = qlb_episode_model(
            alpha,
            epsilon,
            rate,
            trans,
            terms,
            disc,
            init,
            max_steps,
            q,
            rng,
            denom,
            total,
        );
        qlb_run_model(
            alpha,
            epsilon,
            rate,
            trans,
            terms,
            disc,
            init,
            max_steps,
            (episodes - 1) as nat,
            q1,
            rng1,
            denom1,
            total1,
        )
    }
}

/// Training splits: `n1 + n2` episodes in one call leave exactly what
/// `n1` episodes and then `n2` more leave, trainer state included.
/// This is the incremental-equivalence law for bias-corrected
/// Q-Learning.
pub proof fn lemma_qlb_run_split(
    alpha: Fixed,
    epsilon: Fixed,
    rate: usize,
    trans: Seq<(PairKey, Vec<Transition>)>,
    terms: Seq<IndexState>,
    disc: Fixed,
    init: IndexState,
    max_steps: nat,
    n1: nat,
    n2: nat,
    q: Seq<(PairKey, Fixed)>,
    rng: rand_chacha::ChaCha20Rng,
    denom: u64,
    total: nat,
)
    ensures
        qlb_run_model(
            alpha,
            epsilon,
            rate,
            trans,
            terms,
            disc,
            init,
            max_steps,
            n1 + n2,
            q,
            rng,
            denom,
            total,
        ) == ({
            let (q1, rng1, denom1, total1) = qlb_run_model(
                alpha,
                epsilon,
                rate,
                trans,
                terms,
                disc,
                init,
                max_steps,
                n1,
                q,
                rng,
                denom,
                total,
            );
            qlb_run_model(
                alpha,
                epsilon,
                rate,
                trans,
                terms,
                disc,
                init,
                max_steps,
                n2,
                q1,
                rng1,
                denom1,
                total1,
            )
        }),
    decreases n1,
{
    if n1 == 0 {
    } else {
        let (q1, rng1, denom1, total1) = qlb_episode_model(
            alpha,
            epsilon,
            rate,
            trans,
            terms,
            disc,
            init,
            max_steps,
            q,
            rng,
            denom,
            total,
        );
        lemma_qlb_run_split(
            alpha,
            epsilon,
            rate,
            trans,
            terms,
            disc,
            init,
            max_steps,
            (n1 - 1) as nat,
            n2,
            q1,
            rng1,
            denom1,
            total1,
        );
        assert(n1 + n2 - 1 == (n1 - 1) as nat + n2);
    }
}

/// One more episode after `n` is the episode applied to the result of
/// `n`.
proof fn lemma_qlb_run_snoc(
    alpha: Fixed,
    epsilon: Fixed,
    rate: usize,
    trans: Seq<(PairKey, Vec<Transition>)>,
    terms: Seq<IndexState>,
    disc: Fixed,
    init: IndexState,
    max_steps: nat,
    n: nat,
    q: Seq<(PairKey, Fixed)>,
    rng: rand_chacha::ChaCha20Rng,
    denom: u64,
    total: nat,
)
    ensures
        qlb_run_model(
            alpha,
            epsilon,
            rate,
            trans,
            terms,
            disc,
            init,
            max_steps,
            n + 1,
            q,
            rng,
            denom,
            total,
        ) == ({
            let (q1, rng1, denom1, total1) = qlb_run_model(
                alpha,
                epsilon,
                rate,
                trans,
                terms,
                disc,
                init,
                max_steps,
                n,
                q,
                rng,
                denom,
                total,
            );
            qlb_episode_model(
                alpha,
                epsilon,
                rate,
                trans,
                terms,
                disc,
                init,
                max_steps,
                q1,
                rng1,
                denom1,
                total1,
            )
        }),
{
    lemma_qlb_run_split(
        alpha,
        epsilon,
        rate,
        trans,
        terms,
        disc,
        init,
        max_steps,
        n,
        1,
        q,
        rng,
        denom,
        total,
    );
    let (q1, rng1, denom1, total1) = qlb_run_model(
        alpha,
        epsilon,
        rate,
        trans,
        terms,
        disc,
        init,
        max_steps,
        n,
        q,
        rng,
        denom,
        total,
    );
    let (q2, rng2, denom2, total2) = qlb_episode_model(
        alpha,
        epsilon,
        rate,
        trans,
        terms,
        disc,
        init,
        max_steps,
        q1,
        rng1,
        denom1,
        total1,
    );
    assert(qlb_run_model(
        alpha,
        epsilon,
        rate,
        trans,
        terms,
        disc,
        init,
        max_steps,
        0,
        q2,
        rng2,
        denom2,
        total2,
    ) == (q2, rng2, denom2, total2));
    assert(qlb_run_model(
        alpha,
        epsilon,
        rate,
        trans,
        terms,
        disc,
        init,
        max_steps,
        1,
        q1,
        rng1,
        denom1,
        total1,
    ) == (q2, rng2, denom2, total2));
}

/// The bias-corrected Q-Learning trainer.  The correction bucket and
/// episode count persist across training calls.
pub struct QLearningBeta {
    alpha: Fixed,
    epsilon: Fixed,
    max_steps: usize,
    rate: usize,
    beta_denom: u64,
    total_episodes: u64,
}

impl QLearningBeta {
    /// The exploration rate is a probability, the throttle rate is
    /// nonzero, and the bucket is within its saturation bound.
    pub open spec fn wf(&self) -> bool {
        &&& 0 <= self.epsilon().0 <= SCALE
        &&& self.rate() > 0
        &&& self.beta_denom() <= BETA_DENOM_MAX
    }

    pub fn new(alpha: Fixed, epsilon: Fixed, max_steps: usize, rate: usize) -> (r: QLearningBeta)
        requires
            0 <= epsilon.0 <= SCALE,
            rate > 0,
        ensures
            r.wf(),
            r.alpha() == alpha,
            r.epsilon() == epsilon,
            r.max_steps() == max_steps,
            r.rate() == rate,
            r.beta_denom() == 0,
            r.total_episodes() == 0,
    {
        QLearningBeta { alpha, epsilon, max_steps, rate, beta_denom: 0, total_episodes: 0 }
    }

    pub closed spec fn alpha(&self) -> Fixed {
        self.alpha
    }

    pub closed spec fn epsilon(&self) -> Fixed {
        self.epsilon
    }

    pub closed spec fn max_steps(&self) -> usize {
        self.max_steps
    }

    pub closed spec fn rate(&self) -> usize {
        self.rate
    }

    pub closed spec fn beta_denom(&self) -> u64 {
        self.beta_denom
    }

    pub closed spec fn total_episodes(&self) -> u64 {
        self.total_episodes
    }

    pub fn get_epsilon(&self) -> (r: Fixed)
        ensures
            r == self.epsilon(),
    {
        self.epsilon
    }

    /// Train on a fresh table seeded to zero over the advertised
    /// universe.
    pub fn run(&mut self, mdp: &MapMdp, episodes: usize, rng: &mut rand_chacha::ChaCha20Rng) -> (q: QMap)
        requires
            old(self).wf(),
            mdp.wf(),
            old(self).total_episodes() + episodes <= u64::MAX,
        ensures
            q.wf(),
            covers_all(mdp.trans(), q@),
            final (self).wf(),
            final (self).alpha() == old(self).alpha(),
            final (self).epsilon() == old(self).epsilon(),
            final (self).max_steps() == old(self).max_steps(),
            final (self).rate() == old(self).rate(),
            ({
                let (q2, rng2, denom2, total2) = qlb_run_model(
                    old(self).alpha(),
                    old(self).epsilon(),
                    old(self).rate(),
                    mdp.trans(),
                    mdp.terminals(),
                    mdp.discount(),
                    mdp.initial(),
                    old(self).max_steps() as nat,
                    episodes as nat,
                    seeded(mdp.trans()),
                    *old(rng),
                    old(self).beta_denom(),
                    old(self).total_episodes() as nat,
                );
                q@ == q2 && *final (rng) == rng2 && final (self).beta_denom() == denom2
                    && final (self).total_episodes() as nat == total2
            }),
    {
        let mut q = seed_q_map(mdp);
        self.run_with_q_map(mdp, episodes, rng, &mut q);
        q
    }

    /// Continue training a caller-owned table in place.
    pub fn run_with_q_map(
        &mut self,
        mdp: &MapMdp,
        episodes: usize,
        rng: &mut rand_chacha::ChaCha20Rng,
        q_map: &mut QMap,
    )
        requires
            old(self).wf(),
            mdp.wf(),
            old(q_map).wf(),
            covers_all(mdp.trans(), old(q_map)@),
            old(self).total_episodes() + episodes <= u64::MAX,
        ensures
            final (q_map).wf(),
            covers_all(mdp.trans(), final (q_map)@),
            final (self).wf(),
            final (self).alpha() == old(self).alpha(),
            final (self).epsilon() == old(self).epsilon(),
            final (self).max_steps() == old(self).max_steps(),
            final (self).rate() == old(self).rate(),
            ({
                let (q2, rng2, denom2, total2) = qlb_run_model(
                    old(self).alpha(),
                    old(self).epsilon(),
                    old(self).rate(),
                    mdp.trans(),
                    mdp.terminals(),
                    mdp.discount(),
                    mdp.initial(),
                    old(self).max_steps() as nat,
                    episodes as nat,
                    old(q_map)@,
                    *old(rng),
                    old(self).beta_denom(),
                    old(self).total_episodes() as nat,
                );
                final (q_map)@ == q2 && *final (rng) == rng2 && final (self).beta_denom() == denom2
                    && final (self).total_episodes() as nat == total2
            }),
    {
        let ghost trans = mdp.trans();
        let ghost terms = mdp.terminals();
        let ghost disc = mdp.discount();
        let ghost init = mdp.initial();
        let ghost q0 = q_map@;
        let ghost r0 = *rng;
        let ghost d0 = self.beta_denom;
        let ghost t0 = self.total_episodes as nat;
        let mut ep: usize = 0;
        while ep < episodes
            invariant
                ep <= episodes,
                q_map.wf(),
                covers_all(trans, q_map@),
                self.wf(),
                self.alpha() == old(self).alpha(),
                self.epsilon() == old(self).epsilon(),
                self.max_steps() == old(self).max_steps(),
                self.rate() == old(self).rate(),
                self.total_episodes() as nat == t0 + ep,
                ({
                    let (qm, rm, dm, tm) = qlb_run_model(
                        self.alpha(),
                        self.epsilon(),
                        self.rate(),
                        trans,
                        terms,
                        disc,
                        init,
                        self.max_steps() as nat,
                        ep as nat,
                        q0,
                        r0,
                        d0,
                        t0,
                    );
                    q_map@ == qm && *rng == rm && self.beta_denom() == dm
                        && self.total_episodes() as nat == tm
                }),
            decreases episodes - ep,
        {
            proof {
                lemma_qlb_run_snoc(
                    self.alpha(),
                    self.epsilon(),
                    self.rate(),
                    trans,
                    terms,
                    disc,
                    init,
                    self.max_steps() as nat,
                    ep as nat,
                    q0,
                    r0,
                    d0,
                    t0,
                );
            }
            if self.total_episodes % (self.rate as u64) == 0 {
                if self.beta_denom < BETA_DENOM_MAX {
                    self.beta_denom = self.beta_denom + 1;
                }
            }
            let beta = Fixed(SCALE).div(Fixed::from_int(self.beta_denom + 1));
            proof {
                assert(beta == beta_of(self.beta_denom()));
            }
            let ghost eq = q_map@;
            let ghost er = *rng;
            let ghost episode_steps_result = qlb_steps_model(
                self.alpha(),
                self.epsilon(),
                trans,
                terms,
                disc,
                beta,
                eq,
                er,
                init,
                self.max_steps() as nat,
            );
            let mut current_state = mdp.get_initial_state(rng);
            let mut steps: usize = 0;
            let mut done = mdp.is_terminal(current_state) || steps >= self.max_steps;
            while !done
                invariant
                    q_map.wf(),
                    covers_all(trans, q_map@),
                    self.wf(),
                    steps <= self.max_steps(),
                    !done ==> !terms.contains(current_state) && steps < self.max_steps(),
                    !done ==> qlb_steps_model(
                        self.alpha(),
                        self.epsilon(),
                        trans,
                        terms,
                        disc,
                        beta,
                        q_map@,
                        *rng,
                        current_state,
                        (self.max_steps() - steps) as nat,
                    ) == episode_steps_result,
                    done ==> (q_map@, *rng) == episode_steps_result,
                decreases (if done {
                    0int
                } else {
                    self.max_steps() - steps + 1
                }),
            {
                let ghost q_pre = q_map@;
                let ghost r_pre = *rng;
                let ghost s_pre = current_state;
                let ghost left_pre = (self.max_steps() - steps) as nat;
                proof {
                    lemma_covers_all_covered(trans, q_map@, current_state);
                }
                let sel = epsilon_greedy_policy(mdp, q_map, current_state, self.epsilon, rng);
                if sel.is_none() {
                    proof {
                        assert(qlb_steps_model(
                            self.alpha(),
                            self.epsilon(),
                            trans,
                            terms,
                            disc,
                            beta,
                            q_pre,
                            r_pre,
                            s_pre,
                            left_pre,
                        ) == (q_map@, *rng));
                    }
                    done = true;
                } else {
                    let selected_action = sel.unwrap();
                    proof {
                        lemma_possible_lookup(trans, current_state);
                        let pa = possible_actions(trans, current_state);
                        let i = choose|i: int| 0 <= i < pa.len() && pa[i] == selected_action;
                        assert(lookup(trans, (current_state, selected_action)) is Some);
                        lemma_lookup_some_index(trans, (current_state, selected_action));
                        let j = choose|j: int|
                            0 <= j < trans.len() && #[trigger] trans[j].0 == (
                            current_state,
                            selected_action,
                            );
                        assert(lookup(q_map@, (current_state, selected_action)) is Some);
                    }
                    let outcome = mdp.perform_action((current_state, selected_action), rng);
                    let next_state = outcome.0;
                    let reward = outcome.1;
                    let possible2 = mdp.get_possible_actions(next_state);
                    proof {
                        lemma_covers_all_covered(trans, q_map@, next_state);
                    }
                    let best = greedy_policy_ma(&possible2, q_map, next_state, rng);
                    if best.is_none() {
                        proof {
                            assert(qlb_steps_model(
                                self.alpha(),
                                self.epsilon(),
                                trans,
                                terms,
                                disc,
                                beta,
                                q_pre,
                                r_pre,
                                s_pre,
                                left_pre,
                            ) == (q_map@, *rng));
                        }
                        done = true;
                    } else {
                        let best_action = best.unwrap();
                        proof {
                            let pa2 = possible_actions(trans, next_state);
                            let i2 = choose|i2: int| 0 <= i2 < pa2.len() && pa2[i2] == best_action;
                            assert(lookup(q_map@, (next_state, best_action)) is Some);
                        }
                        let best_q = *q_map.get((next_state, best_action)).unwrap();
                        let current_q = *q_map.get((current_state, selected_action)).unwrap();
                        let new_q = apply_beta_q_update(
                            current_q,
                            self.alpha,
                            reward,
                            mdp.get_discount_factor(),
                            best_q,
                            beta,
                        );
                        proof {
                            lemma_store_covers(
                                trans,
                                q_map@,
                                (current_state, selected_action),
                                new_q,
                            );
                        }
                        q_map.set((current_state, selected_action), new_q);
                        current_state = next_state;
                        steps += 1;
                        done = mdp.is_terminal(current_state) || steps >= self.max_steps;
                        proof {
                            assert(qlb_steps_model(
                                self.alpha(),
                                self.epsilon(),
                                trans,
                                terms,
                                disc,
                                beta,
                                q_pre,
                                r_pre,
                                s_pre,
                                left_pre,
                            ) == qlb_steps_model(
                                self.alpha(),
                                self.epsilon(),
                                trans,
                                terms,
                                disc,
                                beta,
                                q_map@,
                                *rng,
                                current_state,
                                (self.max_steps() - steps) as nat,
                            ));
                        }
                    }
                }
            }
            self.total_episodes = self.total_episodes + 1;
            ep += 1;
        }
    }
}

} // verus!
