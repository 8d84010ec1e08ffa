//! Policy evaluation: run episodes against a frozen table and average
//! the collected reward.
//!
//! Evaluation reuses the policy selector — greedy, epsilon-greedy or
//! uniform-random — against the caller's table without changing it,
//! and returns the total reward averaged over the requested episodes.

use crate::fixed::{add_fx, clip, tdiv, Fixed, SCALE};
use crate::mdp::{perform_model, possible_actions, MapMdp, Transition};
use crate::mdp::{IndexAction, IndexState};
use crate::policies::{
    covers_all, eps_greedy_model, epsilon_greedy_policy, greedy_model, greedy_policy,
    lemma_covers_all_covered, lemma_possible_lookup, random_model, random_policy,
};
use crate::table::{lookup, PairKey, QMap};
use vstd::prelude::*;

verus! {

/// Which selector drives an evaluation run.
#[derive(Clone, Copy, Debug, PartialEq, Eq, Structural)]
pub enum EvalPolicy {
    Greedy,
    EpsilonGreedy(Fixed),
    Random,
}

impl EvalPolicy {
    /// An epsilon-greedy evaluation carries a probability.
    pub open spec fn wf(&self) -> bool {
        match *self {
            EvalPolicy::EpsilonGreedy(e) => 0 <= e.0 <= SCALE,
            _ => true,
        }
    }
}

/// What the configured selector returns on a state.
pub open spec fn select_model(
    kind: EvalPolicy,
    trans: Seq<(PairKey, Vec<Transition>)>,
    q: Seq<(PairKey, Fixed)>,
    s: IndexState,
    rng: rand_chacha::ChaCha20Rng,
) -> (Option<IndexAction>, rand_chacha::ChaCha20Rng) {
    match kind {
        EvalPolicy::Greedy => greedy_model(trans, q, s, rng),
        EvalPolicy::EpsilonGreedy(e) => eps_greedy_model(trans, q, s, e, rng),
        EvalPolicy::Random => random_model(trans, s, rng),
    }
}

/// What one evaluation episode accumulates from state `s` on.
pub open spec fn eval_steps_model(
    kind: EvalPolicy,
    trans: Seq<(PairKey, Vec<Transition>)>,
    terms: Seq<IndexState>,
    q: Seq<(PairKey, Fixed)>,
    rng: rand_chacha::ChaCha20Rng,
    s: IndexState,
    acc: Fixed,
    steps_left: nat,
) -> (Fixed, rand_chacha::ChaCha20Rng)
    decreases steps_left,
{
    if steps_left == 0 || terms.contains(s) {
        (acc, rng)
    } else {
        let (sel, rng1) = select_model(kind, trans, q, s, rng);
        match sel {
            None => (acc, rng1),
            Some(a) => {
                let (outcome, rng2) = perform_model(trans, (s, a), rng1);
                eval_steps_model(
                    kind,
                    trans,
                    terms,
                    q,
                    rng2,
                    outcome.0,
                    Fixed(add_fx(acc.0 as int, outcome.1.0 as int) as i64),
                    (steps_left - 1) as nat,
                )
            },
        }
    }
}

/// What a whole evaluation run accumulates.
pub open spec fn eval_run_model(
    kind: EvalPolicy,
    trans: Seq<(PairKey, Vec<Transition>)>,
    terms: Seq<IndexState>,
    init: IndexState,
    max_steps: nat,
    q: Seq<(PairKey, Fixed)>,
    episodes: nat,
    total: Fixed,
    rng: rand_chacha::ChaCha20Rng,
) -> (Fixed, rand_chacha::ChaCha20Rng)
    decreases episodes,
{
    if episodes == 0 {
        (total, rng)
    } else {
        let (er, rng1) = eval_steps_model(kind, trans, terms, q, rng, init, Fixed(0), max_steps);
        eval_run_model(
            kind,
            trans,
            terms,
            init,
            max_steps,
            q,
            (episodes - 1) as nat,
            Fixed(add_fx(total.0 as int, er.0 as int) as i64),
            rng1,
        )
    }
}

/// Run evaluation episodes under the configured selector and return
/// the average episode reward.
pub fn evaluate_policy(
    kind: EvalPolicy,
    mdp: &MapMdp,
    q_map: &QMap,
    episodes: usize,
    max_steps: usize,
    rng: &mut rand_chacha::ChaCha20Rng,
) -> (r: Fixed)
    requires
        kind.wf(),
        mdp.wf(),
        !(kind is Random) ==> covers_all(mdp.trans(), q_map@),
        episodes > 0,
    ensures
        ({
            let (total, rng2) = eval_run_model(
                kind,
                mdp.trans(),
                mdp.terminals(),
                mdp.initial(),
                max_steps as nat,
                q_map@,
                episodes as nat,
                Fixed(0),
                *old(rng),
            );
            r == Fixed(clip(tdiv(total.0 as int, episodes as int)) as i64) && *final (rng) == rng2
        }),
{
    let ghost trans = mdp.trans();
    let ghost terms = mdp.terminals();
    let ghost init = mdp.initial();
    let ghost r0 = *rng;
    let mut total = Fixed(0);
    let mut ep: usize = 0;
    while ep < episodes
        invariant
            ep <= episodes,
            trans == mdp.trans(),
            terms == mdp.terminals(),
            init == mdp.initial(),
            kind.wf(),
            mdp.wf(),
            !(kind is Random) ==> covers_all(trans, q_map@),
            ({
                let (tm, rm) = eval_run_model(
                    kind,
                    trans,
                    terms,
                    init,
                    max_steps as nat,
                    q_map@,
                    ep as nat,
                    Fixed(0),
                    r0,
                );
                total == tm && *rng == rm
            }),
        decreases episodes - ep,
    {
        proof {
            lemma_eval_run_snoc(
                kind,
                trans,
                terms,
                init,
                max_steps as nat,
                q_map@,
                ep as nat,
                Fixed(0),
                r0,
            );
        }
        let ghost er0 = *rng;
        let ghost episode_result = eval_steps_model(
            kind,
            trans,
            terms,
            q_map@,
            er0,
            init,
            Fixed(0),
            max_steps as nat,
        );
        let mut current_state = mdp.get_initial_state(rng);
        let mut episode_reward = Fixed(0);
        let mut steps: usize = 0;
        let mut done = mdp.is_terminal(current_state) || steps >= max_steps;
        while !done
            invariant
                kind.wf(),
                mdp.wf(),
                trans == mdp.trans(),
                terms == mdp.terminals(),
                !(kind is Random) ==> covers_all(trans, q_map@),
                steps <= max_steps,
                !done ==> !terms.contains(current_state) && steps < max_steps,
                !done ==> eval_steps_model(
                    kind,
                    trans,
                    terms,
                    q_map@,
                    *rng,
                    current_state,
                    episode_reward,
                    (max_steps - steps) as nat,
                ) == episode_result,
                done ==> (episode_reward, *rng) == episode_result,
            decreases (if done {
                0int
            } else {
                max_steps - steps + 1
            }),
        {
            let ghost acc_pre = episode_reward;
            let ghost r_pre = *rng;
            let ghost s_pre = current_state;
            let ghost left_pre = (max_steps - steps) as nat;
            proof {
                if !(kind is Random) {
                    lemma_covers_all_covered(trans, q_map@, current_state);
                }
            }
            let sel = match kind {
                EvalPolicy::Greedy => greedy_policy(mdp, q_map, current_state, rng),
                EvalPolicy::EpsilonGreedy(e) => epsilon_greedy_policy(
                    mdp,
                    q_map,
                    current_state,
                    e,
                    rng,
                ),
                EvalPolicy::Random => random_policy(mdp, current_state, rng),
            };
            if sel.is_none() {
                proof {
                    assert(eval_steps_model(
                        kind,
                        trans,
                        terms,
                        q_map@,
                        r_pre,
                        s_pre,
                        acc_pre,
                        left_pre,
                    ) == (episode_reward, *rng));
                }
                done = true;
            } else {
                let selected_action = sel.unwrap();
                proof {
                    lemma_possible_lookup(trans, current_state);
                    let pa = possible_actions(trans, current_state);
                    let i = choose|i: int| 0 <= i < pa.len() && pa[i] == selected_action;
                    assert(lookup(trans, (current_state, selected_action)) is Some);
                }
                let outcome = mdp.perform_action((current_state, selected_action), rng);
                episode_reward = episode_reward.add(outcome.1);
                current_state = outcome.0;
                steps += 1;
                done = mdp.is_terminal(current_state) || steps >= max_steps;
                proof {
                    assert(eval_steps_model(
                        kind,
                        trans,
                        terms,
                        q_map@,
                        r_pre,
                        s_pre,
                        acc_pre,
                        left_pre,
                    ) == eval_steps_model(
                        kind,
                        trans,
                        terms,
                        q_map@,
                        *rng,
                        current_state,
                        episode_reward,
                        (max_steps - steps) as nat,
                    ));
                }
            }
        }
        total = total.add(episode_reward);
        ep += 1;
    }
    total.div_count(episodes as u64)
}

/// One more evaluation episode after `n` is the episode applied to the
/// result of `n`.
proof fn lemma_eval_run_snoc(
    kind: EvalPolicy,
    trans: Seq<(PairKey, Vec<Transition>)>,
    terms: Seq<IndexState>,
    init: IndexState,
    max_steps: nat,
    q: Seq<(PairKey, Fixed)>,
    n: nat,
    total: Fixed,
    rng: rand_chacha::ChaCha20Rng,
)
    ensures
        eval_run_model(kind, trans, terms, init, max_steps, q, n + 1, total, rng) == ({
            let (tm, rm) = eval_run_model(kind, trans, terms, init, max_steps, q, n, total, rng);
            let (er, rng1) = eval_steps_model(kind, trans, terms, q, rm, init, Fixed(0), max_steps);
            (Fixed(add_fx(tm.0 as int, er.0 as int) as i64), rng1)
        }),
    decreases n,
{
    if n == 0 {
        let (er, rng1) = eval_steps_model(kind, trans, terms, q, rng, init, Fixed(0), max_steps);
        let t1 = Fixed(add_fx(total.0 as int, er.0 as int) as i64);
        assert(eval_run_model(kind, trans, terms, init, max_steps, q, 0, t1, rng1) == (t1, rng1));
    } else {
        let (er, rng1) = eval_steps_model(kind, trans, terms, q, rng, init, Fixed(0), max_steps);
        lemma_eval_run_snoc(
            kind,
            trans,
            terms,
            init,
            max_steps,
            q,
            (n - 1) as nat,
            Fixed(add_fx(total.0 as int, er.0 as int) as i64),
            rng1,
        );
    }
}

/// Average reward of evaluation under epsilon-greedy selection.
pub fn evaluate_epsilon_greedy_policy(
    mdp: &MapMdp,
    q_map: &QMap,
    episodes: usize,
    max_steps: usize,
    epsilon: Fixed,
    rng: &mut rand_chacha::ChaCha20Rng,
) -> (r: Fixed)
    requires
        mdp.wf(),
        covers_all(mdp.trans(), q_map@),
        0 <= epsilon.0 <= SCALE,
        episodes > 0,
    ensures
        ({
            let (total, rng2) = eval_run_model(
                EvalPolicy::EpsilonGreedy(epsilon),
                mdp.trans(),
                mdp.terminals(),
                mdp.initial(),
                max_steps as nat,
                q_map@,
                episodes as nat,
                Fixed(0),
                *old(rng),
            );
            r == Fixed(clip(tdiv(total.0 as int, episodes as int)) as i64) && *final (rng) == rng2
        }),
{
    evaluate_policy(EvalPolicy::EpsilonGreedy(epsilon), mdp, q_map, episodes, max_steps, rng)
}

/// Average reward of evaluation under greedy selection.
pub fn evaluate_greedy_policy(
    mdp: &MapMdp,
    q_map: &QMap,
    episodes: usize,
    max_steps: usize,
    rng: &mut rand_chacha::ChaCha20Rng,
) -> (r: Fixed)
    requires
        mdp.wf(),
        covers_all(mdp.trans(), q_map@),
        episodes > 0,
    ensures
        ({
            let (total, rng2) = eval_run_model(
                EvalPolicy::Greedy,
                mdp.trans(),
                mdp.terminals(),
                mdp.initial(),
                max_steps as nat,
                q_map@,
                episodes as nat,
                Fixed(0),
                *old(rng),
            );
            r == Fixed(clip(tdiv(total.0 as int, episodes as int)) as i64) && *final (rng) == rng2
        }),
{
    evaluate_policy(EvalPolicy::Greedy, mdp, q_map, episodes, max_steps, rng)
}

/// Average reward of evaluation under uniform-random selection.
pub fn evaluate_random_policy(
    mdp: &MapMdp,
    episodes: usize,
    max_steps: usize,
    rng: &mut rand_chacha::ChaCha20Rng,
) -> (r: Fixed)
    requires
        mdp.wf(),
        episodes > 0,
    ensures
        ({
            let (total, rng2) = eval_run_model(
                EvalPolicy::Random,
                mdp.trans(),
                mdp.terminals(),
                mdp.initial(),
                max_steps as nat,
                Seq::empty(),
                episodes as nat,
                Fixed(0),
                *old(rng),
            );
            r == Fixed(clip(tdiv(total.0 as int, episodes as int)) as i64) && *final (rng) == rng2
        }),
{
    let empty_q = QMap::new();
    proof {
        assert(empty_q@ =~= Seq::<(PairKey, Fixed)>::empty());
    }
    evaluate_policy(EvalPolicy::Random, mdp, &empty_q, episodes, max_steps, rng)
}

} // verus!
