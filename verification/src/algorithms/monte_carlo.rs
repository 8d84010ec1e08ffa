//! First-visit Monte Carlo control.
//!
//! Each episode generates one bounded-length trajectory under
//! epsilon-greedy selection against the frozen table.  Afterwards,
//! every pair visited in the trajectory contributes the reward
//! observed at its first occurrence to that pair's running return
//! history, and every pair with a history gets its estimate set to the
//! history's mean.  The history is kept as a running sum and count per
//! pair — added in visit order, it equals the sum of the recorded
//! returns — and it persists across the episodes of one training call;
//! a fresh call starts a fresh history, so separate calls do not
//! continue each other's averages.

use crate::algorithms::{lemma_store_covers, seed_q_map, seeded};
use crate::fixed::{add_fx, clip, tdiv, Fixed, SCALE};
use crate::mdp::{perform_model, possible_actions, MapMdp, Transition};
use crate::mdp::{IndexAction, IndexState};
use crate::policies::{
    covers_all, eps_greedy_model, epsilon_greedy_policy, lemma_covers_all_covered,
    lemma_possible_lookup,
};
use crate::table::{lookup, store, PairKey, PairMap, QMap};
use vstd::prelude::*;

verus! {

/// One trajectory step: the state acted in, the action, the reward.
pub type Visit = (IndexState, IndexAction, Fixed);

/// A pair's return history: running sum and count.
pub type History = (Fixed, u64);

/// What one trajectory generation leaves behind: the visits in order,
/// and the generator.
pub open spec fn mc_traj_model(
    epsilon: Fixed,
    trans: Seq<(PairKey, Vec<Transition>)>,
    terms: Seq<IndexState>,
    q: Seq<(PairKey, Fixed)>,
    rng: rand_chacha::ChaCha20Rng,
    s: IndexState,
    steps_left: nat,
) -> (Seq<Visit>, rand_chacha::ChaCha20Rng)
    decreases steps_left,
{
    if steps_left == 0 || terms.contains(s) {
        (Seq::empty(), rng)
    } else {
        let (sel, rng1) = eps_greedy_model(trans, q, s, epsilon, rng);
        match sel {
            None => (Seq::empty(), rng1),
            Some(a) => {
                let (outcome, rng2) = perform_model(trans, (s, a), rng1);
                let s2 = outcome.0;
                let reward = outcome.1;
                let (rest, rng3) = mc_traj_model(
                    epsilon,
                    trans,
                    terms,
                    q,
                    rng2,
                    s2,
                    (steps_left - 1) as nat,
                );
                (seq![(s, a, reward)] + rest, rng3)
            },
        }
    }
}

/// The first-visit table of a trajectory: each visited pair maps to
/// the reward at its first occurrence.
pub open spec fn first_visits(traj: Seq<Visit>, g: Seq<(PairKey, Fixed)>) -> Seq<(PairKey, Fixed)>
    decreases traj.len(),
{
    if traj.len() == 0 {
        g
    } else {
        let v = traj[0];
        let g1 = if lookup(g, (v.0, v.1)) is None {
            store(g, (v.0, v.1), v.2)
        } else {
            g
        };
        first_visits(traj.drop_first(), g1)
    }
}

/// Record each first-visit return into the running histories.
pub open spec fn record_returns(
    g: Seq<(PairKey, Fixed)>,
    rets: Seq<(PairKey, History)>,
) -> Seq<(PairKey, History)>
    decreases g.len(),
{
    if g.len() == 0 {
        rets
    } else {
        let e = g[0];
        let rets1 = match lookup(rets, e.0) {
            Some(h) => store(
                rets,
                e.0,
                (
                    Fixed(add_fx(h.0.0 as int, e.1.0 as int) as i64),
                    if h.1 < u64::MAX {
                        (h.1 + 1) as u64
                    } else {
                        h.1
                    },
                ),
            ),
            None => store(rets, e.0, (e.1, 1u64)),
        };
        record_returns(g.drop_first(), rets1)
    }
}

/// Set every pair with a history to its history's mean, where the
/// table knows the pair.
pub open spec fn apply_means(
    rets: Seq<(PairKey, History)>,
    q: Seq<(PairKey, Fixed)>,
) -> Seq<(PairKey, Fixed)>
    decreases rets.len(),
{
    if rets.len() == 0 {
        q
    } else {
        let e = rets[0];
        let q1 = if lookup(q, e.0) is Some && e.1.1 >= 1 {
            store(q, e.0, Fixed(clip(tdiv(e.1.0.0 as int, e.1.1 as int)) as i64))
        } else {
            q
        };
        apply_means(rets.drop_first(), q1)
    }
}

/// What one episode leaves behind: estimates, histories, generator.
pub open spec fn mc_episode_model(
    epsilon: Fixed,
    trans: Seq<(PairKey, Vec<Transition>)>,
    terms: Seq<IndexState>,
    init: IndexState,
    max_steps: nat,
    q: Seq<(PairKey, Fixed)>,
    rets: Seq<(PairKey, History)>,
    rng: rand_chacha::ChaCha20Rng,
) -> (Seq<(PairKey, Fixed)>, Seq<(PairKey, History)>, rand_chacha::ChaCha20Rng) {
    let (traj, rng1) = mc_traj_model(epsilon, trans, terms, q, rng, init, max_steps);
    let g = first_visits(traj, Seq::empty());
    let rets1 = record_returns(g, rets);
    let q1 = apply_means(rets1, q);
    (q1, rets1, rng1)
}

/// What training for a number of episodes leaves behind.
pub open spec fn mc_run_model(
    epsilon: Fixed,
    trans: Seq<(PairKey, Vec<Transition>)>,
    terms: Seq<IndexState>,
    init: IndexState,
    max_steps: nat,
    episodes: nat,
    q: Seq<(PairKey, Fixed)>,
    rets: Seq<(PairKey, History)>,
    rng: rand_chacha::ChaCha20Rng,
) -> (Seq<(PairKey, Fixed)>, Seq<(PairKey, History)>, rand_chacha::ChaCha20Rng)
    decreases episodes,
{
    if episodes == 0 {
        (q, rets, rng)
    } else {
        let e = mc_episode_model(epsilon, trans, terms, init, max_steps, q, rets, rng);
        mc_run_model(
            epsilon,
            trans,
            terms,
            init,
            max_steps,
            (episodes - 1) as nat,
            e.0,
            e.1,
            e.2,
        )
    }
}

/// Training splits over the full state: `n1 + n2` episodes from a
/// given table, history and generator leave exactly what `n1` and then
/// `n2` episodes leave when the history is carried over.  (A fresh
/// training call starts with an empty history, so two separate calls
/// do not compose this way.)
pub proof fn lemma_mc_run_split(
    epsilon: Fixed,
    trans: Seq<(PairKey, Vec<Transition>)>,
    terms: Seq<IndexState>,
    init: IndexState,
    max_steps: nat,
    n1: nat,
    n2: nat,
    q: Seq<(PairKey, Fixed)>,
    rets: Seq<(PairKey, History)>,
    rng: rand_chacha::ChaCha20Rng,
)
    ensures
        mc_run_model(epsilon, trans, terms, init, max_steps, n1 + n2, q, rets, rng) == ({
            let r = mc_run_model(epsilon, trans, terms, init, max_steps, n1, q, rets, rng);
            mc_run_model(epsilon, trans, terms, init, max_steps, n2, r.0, r.1, r.2)
        }),
    decreases n1,
{
    if n1 == 0 {
    } else {
        let e = mc_episode_model(epsilon, trans, terms, init, max_steps, q, rets, rng);
        lemma_mc_run_split(
            epsilon,
            trans,
            terms,
            init,
            max_steps,
            (n1 - 1) as nat,
            n2,
            e.0,
            e.1,
            e.2,
        );
        assert(n1 + n2 - 1 == (n1 - 1) as nat + n2);
    }
}

/// One more episode after `n` is the episode applied to the result of
/// `n`.
proof fn lemma_mc_run_snoc(
    epsilon: Fixed,
    trans: Seq<(PairKey, Vec<Transition>)>,
    terms: Seq<IndexState>,
    init: IndexState,
    max_steps: nat,
    n: nat,
    q: Seq<(PairKey, Fixed)>,
    rets: Seq<(PairKey, History)>,
    rng: rand_chacha::ChaCha20Rng,
)
    ensures
        mc_run_model(epsilon, trans, terms, init, max_steps, n + 1, q, rets, rng) == ({
            let r = mc_run_model(epsilon, trans, terms, init, max_steps, n, q, rets, rng);
            mc_episode_model(epsilon, trans, terms, init, max_steps, r.0, r.1, r.2)
        }),
{
    lemma_mc_run_split(epsilon, trans, terms, init, max_steps, n, 1, q, rets, rng);
    let r = mc_run_model(epsilon, trans, terms, init, max_steps, n, q, rets, rng);
    let e = mc_episode_model(epsilon, trans, terms, init, max_steps, r.0, r.1, r.2);
    assert(mc_run_model(epsilon, trans, terms, init, max_steps, 0, e.0, e.1, e.2) == e);
    assert(mc_run_model(epsilon, trans, terms, init, max_steps, 1, r.0, r.1, r.2) == e);
}

/// The Monte Carlo trainer: exploration rate and the per-episode step
/// budget.
pub struct MonteCarlo {
    epsilon: Fixed,
    max_steps: usize,
}

impl MonteCarlo {
    /// The exploration rate is a probability.
    pub open spec fn wf(&self) -> bool {
        0 <= self.epsilon().0 <= SCALE
    }

    pub fn new(epsilon: Fixed, max_steps: usize) -> (r: MonteCarlo)
        requires
            0 <= epsilon.0 <= SCALE,
        ensures
            r.wf(),
            r.epsilon() == epsilon,
            r.max_steps() == max_steps,
    {
        MonteCarlo { epsilon, max_steps }
    }

    pub closed spec fn epsilon(&self) -> Fixed {
        self.epsilon
    }

    pub closed spec fn max_steps(&self) -> usize {
        self.max_steps
    }

    pub fn get_epsilon(&self) -> (r: Fixed)
        ensures
            r == self.epsilon(),
    {
        self.epsilon
    }

    /// Generate one trajectory under epsilon-greedy selection against
    /// the frozen table.
    pub fn generate_episode(
        &self,
        mdp: &MapMdp,
        q_map: &QMap,
        rng: &mut rand_chacha::ChaCha20Rng,
    ) -> (traj: Vec<Visit>)
        requires
            self.wf(),
            mdp.wf(),
            covers_all(mdp.trans(), q_map@),
        ensures
            ({
                let (tm, rng2) = mc_traj_model(
                    self.epsilon(),
                    mdp.trans(),
                    mdp.terminals(),
                    q_map@,
                    *old(rng),
                    mdp.initial(),
                    self.max_steps() as nat,
                );
                traj@ == tm && *final (rng) == rng2
            }),
    {
        let ghost trans = mdp.trans();
        let ghost terms = mdp.terminals();
        let ghost r0 = *rng;
        let mut traj: Vec<Visit> = Vec::new();
        let mut current_state = mdp.get_initial_state(rng);
        let ghost full = mc_traj_model(
            self.epsilon(),
            trans,
            terms,
            q_map@,
            r0,
            mdp.initial(),
            self.max_steps() as nat,
        );
        let mut steps: usize = 0;
        let mut done = mdp.is_terminal(current_state) || steps >= self.max_steps;
        proof {
            assert(traj@ =~= Seq::<Visit>::empty());
        }
        while !done
            invariant
                mdp.wf(),
                covers_all(trans, q_map@),
                trans == mdp.trans(),
                terms == mdp.terminals(),
                self.wf(),
                steps <= self.max_steps(),
                !done ==> !terms.contains(current_state) && steps < self.max_steps(),
                !done ==> ({
                    let (rest, rng2) = mc_traj_model(
                        self.epsilon(),
                        trans,
                        terms,
                        q_map@,
                        *rng,
                        current_state,
                        (self.max_steps() - steps) as nat,
                    );
                    traj@ + rest == full.0 && rng2 == full.1
                }),
                done ==> traj@ == full.0 && *rng == full.1,
            decreases (if done {
                0int
            } else {
                self.max_steps() - steps + 1
            }),
        {
            let ghost t_pre = traj@;
            let ghost r_pre = *rng;
            let ghost s_pre = current_state;
            let ghost left_pre = (self.max_steps() - steps) as nat;
            proof {
                lemma_covers_all_covered(trans, q_map@, current_state);
            }
            let sel = epsilon_greedy_policy(mdp, q_map, current_state, self.epsilon, rng);
            if sel.is_none() {
                proof {
                    assert(mc_traj_model(
                        self.epsilon(),
                        trans,
                        terms,
                        q_map@,
                        r_pre,
                        s_pre,
                        left_pre,
                    ).0 =~= Seq::<Visit>::empty());
                    assert(t_pre + Seq::<Visit>::empty() =~= t_pre);
                }
                done = true;
            } else {
                let selected_action = sel.unwrap();
                proof {
                    lemma_possible_lookup(trans, current_state);
                    let pa = possible_actions(trans, current_state);
                    let i = choose|i: int| 0 <= i < pa.len() && pa[i] == selected_action;
                    assert(lookup(trans, (current_state, selected_action)) is Some);
                }
                let outcome = mdp.perform_action((current_state, selected_action), rng);
                let next_state = outcome.0;
                let reward = outcome.1;
                traj.push((current_state, selected_action, reward));
                current_state = next_state;
                steps += 1;
                done = mdp.is_terminal(current_state) || steps >= self.max_steps;
                proof {
                    let (rest_pre, rng_pre2) = mc_traj_model(
                        self.epsilon(),
                        trans,
                        terms,
                        q_map@,
                        r_pre,
                        s_pre,
                        left_pre,
                    );
                    let (rest_now, rng_now2) = mc_traj_model(
                        self.epsilon(),
                        trans,
                        terms,
                        q_map@,
                        *rng,
                        current_state,
                        (self.max_steps() - steps) as nat,
                    );
                    assert(rest_pre =~= seq![(s_pre, selected_action, reward)] + rest_now);
                    assert(t_pre + rest_pre =~= traj@ + rest_now);
                }
            }
        }
        traj
    }

    /// Train on a fresh table seeded to zero over the advertised
    /// universe.
    pub fn run(&self, mdp: &MapMdp, episodes: usize, rng: &mut rand_chacha::ChaCha20Rng) -> (q: QMap)
        requires
            self.wf(),
            mdp.wf(),
        ensures
            q.wf(),
            covers_all(mdp.trans(), q@),
            ({
                let r = mc_run_model(
                    self.epsilon(),
                    mdp.trans(),
                    mdp.terminals(),
                    mdp.initial(),
                    self.max_steps() as nat,
                    episodes as nat,
                    seeded(mdp.trans()),
                    Seq::empty(),
                    *old(rng),
                );
                q@ == r.0 && *final (rng) == r.2
            }),
    {
        let mut q = seed_q_map(mdp);
        self.run_with_q_map(mdp, episodes, rng, &mut q);
        q
    }

    /// Continue training a caller-owned table in place.  The return
    /// history starts empty for each call and persists across its
    /// episodes.
    pub fn run_with_q_map(
        &self,
        mdp: &MapMdp,
        episodes: usize,
        rng: &mut rand_chacha::ChaCha20Rng,
        q_map: &mut QMap,
    )
        requires
            self.wf(),
            mdp.wf(),
            old(q_map).wf(),
            covers_all(mdp.trans(), old(q_map)@),
        ensures
            final (q_map).wf(),
            covers_all(mdp.trans(), final (q_map)@),
            ({
                let r = mc_run_model(
                    self.epsilon(),
                    mdp.trans(),
                    mdp.terminals(),
                    mdp.initial(),
                    self.max_steps() as nat,
                    episodes as nat,
                    old(q_map)@,
                    Seq::empty(),
                    *old(rng),
                );
                final (q_map)@ == r.0 && *final (rng) == r.2
            }),
    {
        let ghost trans = mdp.trans();
        let ghost terms = mdp.terminals();
        let ghost init = mdp.initial();
        let ghost q0 = q_map@;
        let ghost r0 = *rng;
        let mut histories: PairMap<History> = PairMap::new();
        proof {
            assert(histories@ =~= Seq::<(PairKey, History)>::empty());
        }
        let mut ep: usize = 0;
        while ep < episodes
            invariant
                ep <= episodes,
                q_map.wf(),
                histories.wf(),
                covers_all(trans, q_map@),
                ({
                    let r = mc_run_model(
                        self.epsilon(),
                        trans,
                        terms,
                        init,
                        self.max_steps() as nat,
                        ep as nat,
                        q0,
                        Seq::empty(),
                        r0,
                    );
                    q_map@ == r.0 && histories@ == r.1 && *rng == r.2
                }),
            decreases episodes - ep,
        {
            proof {
                lemma_mc_run_snoc(
                    self.epsilon(),
                    trans,
                    terms,
                    init,
                    self.max_steps() as nat,
                    ep as nat,
                    q0,
                    Seq::empty(),
                    r0,
                );
            }
            let traj = self.generate_episode(mdp, q_map, rng);
            // first-visit returns of this trajectory
            let mut g: QMap = PairMap::new();
            proof {
                assert(g@ =~= Seq::<(PairKey, Fixed)>::empty());
                assert(traj@.skip(0) =~= traj@);
            }
            let mut i: usize = 0;
            while i < traj.len()
                invariant
                    i <= traj@.len(),
                    g.wf(),
                    first_visits(traj@, Seq::empty()) == first_visits(traj@.skip(i as int), g@),
                decreases traj@.len() - i,
            {
                let v = traj[i];
                let ghost tail = traj@.skip(i as int);
                proof {
                    assert(tail[0] == traj@[i as int]);
                    assert(tail.drop_first() =~= traj@.skip(i + 1));
                }
                match g.get((v.0, v.1)) {
                    Some(_) => {},
                    None => {
                        g.set((v.0, v.1), v.2);
                    },
                }
                i += 1;
            }
            proof {
                assert(traj@.skip(traj@.len() as int) =~= Seq::<Visit>::empty());
            }
            // record the first-visit returns into the histories
            let ghost rets_pre = histories@;
            let ghost gfull = g@;
            proof {
                assert(g@.skip(0) =~= g@);
            }
            let mut j: usize = 0;
            while j < g.len()
                invariant
                    j <= gfull.len(),
                    gfull == g@,
                    histories.wf(),
                    record_returns(gfull, rets_pre) == record_returns(
                        gfull.skip(j as int),
                        histories@,
                    ),
                decreases gfull.len() - j,
            {
                let e = *g.entry_at(j);
                let ghost tail = gfull.skip(j as int);
                proof {
                    assert(tail[0] == gfull[j as int]);
                    assert(tail.drop_first() =~= gfull.skip(j + 1));
                }
                match histories.get(e.0) {
                    Some(h) => {
                        let hs = h.0;
                        let hc = h.1;
                        let ns = hs.add(e.1);
                        let nc = if hc < u64::MAX {
                            hc + 1
                        } else {
                            hc
                        };
                        histories.set(e.0, (ns, nc));
                    },
                    None => {
                        histories.set(e.0, (e.1, 1u64));
                    },
                }
                j += 1;
            }
            proof {
                assert(gfull.skip(gfull.len() as int) =~= Seq::<(PairKey, Fixed)>::empty());
            }
            // set every pair with a history to its history's mean
            let ghost q_pre = q_map@;
            let ghost rets_now = histories@;
            proof {
                assert(histories@.skip(0) =~= histories@);
            }
            let mut l: usize = 0;
            while l < histories.len()
                invariant
                    l <= rets_now.len(),
                    rets_now == histories@,
                    q_map.wf(),
                    covers_all(trans, q_map@),
                    apply_means(rets_now, q_pre) == apply_means(
                        rets_now.skip(l as int),
                        q_map@,
                    ),
                decreases rets_now.len() - l,
            {
                let e = *histories.entry_at(l);
                let ghost tail = rets_now.skip(l as int);
                proof {
                    assert(tail[0] == rets_now[l as int]);
                    assert(tail.drop_first() =~= rets_now.skip(l + 1));
                }
                let has = match q_map.get(e.0) {
                    Some(_) => true,
                    None => false,
                };
                if has && e.1.1 >= 1 {
                    let mean = e.1.0.div_count(e.1.1);
                    proof {
                        let target = clip(tdiv(e.1.0.0 as int, e.1.1 as int));
                        assert(mean == Fixed(target as i64));
                        lemma_store_covers(trans, q_map@, e.0, mean);
                    }
                    q_map.set(e.0, mean);
                }
                l += 1;
            }
            proof {
                assert(rets_now.skip(rets_now.len() as int) =~= Seq::<(PairKey, History)>::empty());
            }
            ep += 1;
        }
    }
}

} // verus!
