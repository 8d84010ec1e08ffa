//! Dyna-Q: model-based planning, one family under orthogonal flags.
//!
//! Per real step: an optional direct Q-Learning update
//! (`direct_learning`); a model update — a deterministic environment
//! stores the observed reward as-is, a stochastic one counts the
//! visited successor and stores the frequency-weighted reward proxy
//! `reward * (count(successor) / total(state, action))`; and `k`
//! planning passes, each sampling a uniformly random pair *present in
//! the model* and applying a Q-Learning-style update from its stored
//! reward and successor (skipped, non-fatally, when the successor
//! advertises no action).  With `bias_correction` every updated
//! estimate is additionally multiplied by `1 - beta`,
//! `beta = 1 / (bucket + 1)`, the bucket advancing only on episodes
//! whose running count is a multiple of `beta_rate`; the optional
//! converging rate replaces alpha by `1 / sqrt(bucket + 1)`.
//!
//! The learned model and the visitation counts persist across training
//! calls; keys looked up during planning must stay within the MDP the
//! trainer is used with.

use crate::algorithms::q_learning_beta::{
    apply_beta_q_update, beta_of, beta_q_update_fx, bump_denom, BETA_DENOM_MAX,
};
use crate::algorithms::{get_or_zero, lemma_store_covers, or_zero, seed_q_map, seeded};
use crate::fixed::{div_fx, isqrt, sqrt_floor, tdiv, Fixed, SCALE};
use crate::mdp::{
    lemma_lookup_some_index, lemma_store_entries, perform_model, possible_actions, MapMdp,
    Transition,
};
use crate::mdp::{IndexAction, IndexState};
use crate::policies::{
    covers_all, eps_greedy_model, epsilon_greedy_policy, greedy_model, greedy_policy,
    lemma_covers_all_covered, lemma_possible_lookup,
};
use crate::rng::{draw_next, draw_value};
use crate::table::{
    group_total, lemma_group_total_at_least, lemma_lookup3_store3, lemma_store_len, lookup,
    lookup3, store, store3, PairKey, PairMap, QMap, TripleKey, TripleMap,
};
use vstd::prelude::*;

verus! {

/// The orthogonal switches of the Dyna-Q family.
#[derive(Clone, Copy, Debug, PartialEq, Eq, Structural)]
pub struct DynaConfig {
    /// Learning rate.
    pub alpha: Fixed,
    /// Exploration rate.
    pub epsilon: Fixed,
    /// Planning passes per real step.
    pub k: usize,
    /// Per-episode step budget.
    pub max_steps: usize,
    /// Deterministic environment: store rewards as observed.
    pub deterministic: bool,
    /// Apply the direct Q-Learning update on real experience.
    pub direct_learning: bool,
    /// Multiply updates by `1 - beta` and track the bucket.
    pub bias_correction: bool,
    /// Episodes between bucket advances.
    pub beta_rate: usize,
    /// Replace alpha by `1 / sqrt(bucket + 1)`.
    pub converging_alpha: bool,
}

impl DynaConfig {
    /// The exploration rate is a probability; bias correction needs a
    /// nonzero throttle rate.
    pub open spec fn wf(&self) -> bool {
        &&& 0 <= self.epsilon.0 <= SCALE
        &&& self.bias_correction ==> self.beta_rate > 0
    }
}

/// The learning rate `1 / sqrt(bucket + 1)` of the converging variant.
pub open spec fn converging_alpha_of(denom: u64) -> Fixed {
    Fixed(
        div_fx(
            SCALE as int,
            sqrt_floor((denom + 1) * (SCALE as int) * (SCALE as int)),
        ) as i64,
    )
}

/// Compute `1 / sqrt(bucket + 1)` in fixed point.
pub fn converging_alpha(denom: u64) -> (r: Fixed)
    requires
        denom <= BETA_DENOM_MAX,
    ensures
        r == converging_alpha_of(denom),
{
    proof {
        vstd::arithmetic::mul::lemma_mul_inequality(
            denom as int + 1,
            9000000000001,
            SCALE as int,
        );
        vstd::arithmetic::mul::lemma_mul_inequality(
            (denom as int + 1) * (SCALE as int),
            9000000000001000000,
            SCALE as int,
        );
    }
    let y: u128 = ((denom as u128) + 1) * (SCALE as u128) * (SCALE as u128);
    let s = isqrt(y);
    proof {
        assert(s * s <= y);
        assert(y >= (SCALE as u128) * (SCALE as u128));
        if s < SCALE as u128 {
            assert((s + 1) * (s + 1) <= (SCALE as int) * (SCALE as int)) by (nonlinear_arith)
                requires
                    0 <= s,
                    s + 1 <= SCALE as int,
            ;
        }
        if s > 4398046511104u128 {
            assert(s * s > 19342813113834066795298816u128) by (nonlinear_arith)
                requires
                    s > 4398046511104u128,
            ;
        }
    }
    Fixed(SCALE).div(Fixed(s as i64))
}

/// The frequency weight `count / total`, at most one.
pub open spec fn freq_frac(count: u64, total: int) -> Fixed
    recommends
        total > 0,
{
    let f = tdiv(count * (SCALE as int), total);
    Fixed(
        (if f > SCALE as int {
            SCALE as int
        } else {
            f
        }) as i64,
    )
}

/// Compute the frequency weight in fixed point.
pub fn freq_of(count: u64, total: u128) -> (r: Fixed)
    requires
        total > 0,
    ensures
        r == freq_frac(count, total as int),
{
    proof {
        vstd::arithmetic::mul::lemma_mul_inequality(
            count as int,
            0xffff_ffff_ffff_ffff,
            SCALE as int,
        );
    }
    let num: u128 = (count as u128) * (SCALE as u128);
    let f: u128 = num / total;
    if f > SCALE as u128 {
        Fixed(SCALE)
    } else {
        Fixed(f as i64)
    }
}

/// Every key the learned model holds is advertised by the MDP.
pub open spec fn model_ok(
    trans: Seq<(PairKey, Vec<Transition>)>,
    m: Seq<(PairKey, (Fixed, IndexState))>,
) -> bool {
    forall|j: int| 0 <= j < m.len() ==> lookup(trans, (#[trigger] m[j]).0) is Some
}

/// Writing an advertised key keeps the model within the MDP.
proof fn lemma_model_store_ok(
    trans: Seq<(PairKey, Vec<Transition>)>,
    m: Seq<(PairKey, (Fixed, IndexState))>,
    k: PairKey,
    v: (Fixed, IndexState),
)
    requires
        model_ok(trans, m),
        lookup(trans, k) is Some,
    ensures
        model_ok(trans, store(m, k, v)),
{
    lemma_store_entries(m, k, v);
    let t = store(m, k, v);
    assert forall|j: int| 0 <= j < t.len() implies lookup(trans, (#[trigger] t[j]).0) is Some by {
        if t[j] == (k, v) {
        } else {
            let l = choose|l: int| 0 <= l < m.len() && m[l] == t[j];
            assert(lookup(trans, m[l].0) is Some);
        }
    }
}

/// What the `k` planning passes leave behind: each pass samples one
/// model entry uniformly and applies the update, skipping entries
/// whose successor advertises no action.
pub open spec fn dyna_plan(
    alpha_ep: Fixed,
    beta: Fixed,
    trans: Seq<(PairKey, Vec<Transition>)>,
    disc: Fixed,
    q: Seq<(PairKey, Fixed)>,
    model: Seq<(PairKey, (Fixed, IndexState))>,
    rng: rand_chacha::ChaCha20Rng,
    k_left: nat,
) -> (Seq<(PairKey, Fixed)>, rand_chacha::ChaCha20Rng)
    decreases k_left,
{
    if k_left == 0 || model.len() == 0 {
        (q, rng)
    } else {
        let idx = draw_value(rng, model.len() as u64) as int;
        let rng1 = draw_next(rng, model.len() as u64);
        let key = model[idx].0;
        let m_reward = model[idx].1.0;
        let m_next = model[idx].1.1;
        let (best, rng2) = greedy_model(trans, q, m_next, rng1);
        match best {
            None => dyna_plan(alpha_ep, beta, trans, disc, q, model, rng2, (k_left - 1) as nat),
            Some(b) => {
                let bq = lookup(q, (m_next, b)).unwrap();
                let cq = or_zero(lookup(q, key));
                let q2 = store(q, key, beta_q_update_fx(cq, alpha_ep, m_reward, disc, bq, beta));
                dyna_plan(alpha_ep, beta, trans, disc, q2, model, rng2, (k_left - 1) as nat)
            },
        }
    }
}

/// What one in-episode step chain leaves behind: estimates, learned
/// model, visitation counts, and the generator.
pub open spec fn dyna_steps(
    cfg: DynaConfig,
    alpha_ep: Fixed,
    beta: Fixed,
    trans: Seq<(PairKey, Vec<Transition>)>,
    terms: Seq<IndexState>,
    disc: Fixed,
    q: Seq<(PairKey, Fixed)>,
    model: Seq<(PairKey, (Fixed, IndexState))>,
    t: Seq<(TripleKey, u64)>,
    rng: rand_chacha::ChaCha20Rng,
    s: IndexState,
    steps_left: nat,
) -> (
    Seq<(PairKey, Fixed)>,
    Seq<(PairKey, (Fixed, IndexState))>,
    Seq<(TripleKey, u64)>,
    rand_chacha::ChaCha20Rng,
)
    decreases steps_left,
{
    if steps_left == 0 || terms.contains(s) {
        (q, model, t, rng)
    } else {
        let (sel, rng1) = eps_greedy_model(trans, q, s, cfg.epsilon, rng);
        match sel {
            None => (q, model, t, rng1),
            Some(a) => {
                let (outcome, rng2) = perform_model(trans, (s, a), rng1);
                let s2 = outcome.0;
                let reward = outcome.1;
                if cfg.direct_learning && greedy_model(trans, q, s2, rng2).0 is None {
                    // the direct update found no greedy action: the
                    // episode ends here
                    (q, model, t, greedy_model(trans, q, s2, rng2).1)
                } else {
                    let q1 = if cfg.direct_learning {
                        let b = greedy_model(trans, q, s2, rng2).0.unwrap();
                        let bq = lookup(q, (s2, b)).unwrap();
                        let cq = or_zero(lookup(q, (s, a)));
                        store(q, (s, a), beta_q_update_fx(cq, alpha_ep, reward, disc, bq, beta))
                    } else {
                        q
                    };
                    let rng3 = if cfg.direct_learning {
                        greedy_model(trans, q, s2, rng2).1
                    } else {
                        rng2
                    };
                    let t1 = if cfg.deterministic {
                        t
                    } else {
                        let oldc = match lookup3(t, (s, a, s2)) {
                            Some(c) => c,
                            None => 0u64,
                        };
                        store3(
                            t,
                            (s, a, s2),
                            if oldc < u64::MAX {
                                (oldc + 1) as u64
                            } else {
                                oldc
                            },
                        )
                    };
                    let m_reward = if cfg.deterministic {
                        reward
                    } else {
                        let c = lookup3(t1, (s, a, s2)).unwrap();
                        Fixed(
                            crate::fixed::mul_fx(
                                reward.0 as int,
                                freq_frac(c, group_total(t1, (s, a))).0 as int,
                            ) as i64,
                        )
                    };
                    let model1 = store(model, (s, a), (m_reward, s2));
                    let (q2, rng4) = dyna_plan(
                        alpha_ep,
                        beta,
                        trans,
                        disc,
                        q1,
                        model1,
                        rng3,
                        cfg.k as nat,
                    );
                    dyna_steps(
                        cfg,
                        alpha_ep,
                        beta,
                        trans,
                        terms,
                        disc,
                        q2,
                        model1,
                        t1,
                        rng4,
                        s2,
                        (steps_left - 1) as nat,
                    )
                }
            },
        }
    }
}

/// What one episode leaves behind, bucket bookkeeping included: the
/// episode's rates come from the bucket as it stands, then the bucket
/// is advanced on episodes whose running count is a multiple of the
/// rate.
pub open spec fn dyna_episode(
    cfg: DynaConfig,
    trans: Seq<(PairKey, Vec<Transition>)>,
    terms: Seq<IndexState>,
    disc: Fixed,
    init: IndexState,
    q: Seq<(PairKey, Fixed)>,
    model: Seq<(PairKey, (Fixed, IndexState))>,
    t: Seq<(TripleKey, u64)>,
    rng: rand_chacha::ChaCha20Rng,
    denom: u64,
    total: nat,
) -> (
    Seq<(PairKey, Fixed)>,
    Seq<(PairKey, (Fixed, IndexState))>,
    Seq<(TripleKey, u64)>,
    rand_chacha::ChaCha20Rng,
    u64,
    nat,
)
    recommends
        cfg.wf(),
{
    let alpha_ep = if cfg.bias_correction && cfg.converging_alpha {
        converging_alpha_of(denom)
    } else {
        cfg.alpha
    };
    let beta = if cfg.bias_correction {
        beta_of(denom)
    } else {
        Fixed(0)
    };
    let denom1 = if cfg.bias_correction && total % (cfg.beta_rate as nat) == 0 {
        bump_denom(denom)
    } else {
        denom
    };
    let r = dyna_steps(
        cfg,
        alpha_ep,
        beta,
        trans,
        terms,
        disc,
        q,
        model,
        t,
        rng,
        init,
        cfg.max_steps as nat,
    );
    (r.0, r.1, r.2, r.3, denom1, total + 1)
}

/// What training for a number of episodes leaves behind.
pub open spec fn dyna_run(
    cfg: DynaConfig,
    trans: Seq<(PairKey, Vec<Transition>)>,
    terms: Seq<IndexState>,
    disc: Fixed,
    init: IndexState,
    episodes: nat,
    q: Seq<(PairKey, Fixed)>,
    model: Seq<(PairKey, (Fixed, IndexState))>,
    t: Seq<(TripleKey, u64)>,
    rng: rand_chacha::ChaCha20Rng,
    denom: u64,
    total: nat,
) -> (
    Seq<(PairKey, Fixed)>,
    Seq<(PairKey, (Fixed, IndexState))>,
    Seq<(TripleKey, u64)>,
    rand_chacha::ChaCha20Rng,
    u64,
    nat,
)
    decreases episodes,
{
    if episodes == 0 {
        (q, model, t, rng, denom, total)
    } else {
        let e = dyna_episode(cfg, trans, terms, disc, init, q, model, t, rng, denom, total);
        dyna_run(
            cfg,
            trans,
            terms,
            disc,
            init,
            (episodes - 1) as nat,
            e.0,
            e.1,
            e.2,
            e.3,
            e.4,
            e.5,
        )
    }
}

/// Training splits: `n1 + n2` episodes in one call leave exactly what
/// `n1` episodes and then `n2` more leave — table, model, counts,
/// generator and bucket alike.  This is the incremental-equivalence
/// law for the Dyna-Q family.
pub proof fn lemma_dyna_run_split(
    cfg: DynaConfig,
    trans: Seq<(PairKey, Vec<Transition>)>,
    terms: Seq<IndexState>,
    disc: Fixed,
    init: IndexState,
    n1: nat,
    n2: nat,
    q: Seq<(PairKey, Fixed)>,
    model: Seq<(PairKey, (Fixed, IndexState))>,
    t: Seq<(TripleKey, u64)>,
    rng: rand_chacha::ChaCha20Rng,
    denom: u64,
    total: nat,
)
    ensures
        dyna_run(cfg, trans, terms, disc, init, n1 + n2, q, model, t, rng, denom, total) == ({
            let r = dyna_run(cfg, trans, terms, disc, init, n1, q, model, t, rng, denom, total);
            dyna_run(cfg, trans, terms, disc, init, n2, r.0, r.1, r.2, r.3, r.4, r.5)
        }),
    decreases n1,
{
    if n1 == 0 {
    } else {
        let e = dyna_episode(cfg, trans, terms, disc, init, q, model, t, rng, denom, total);
        lemma_dyna_run_split(
            cfg,
            trans,
            terms,
            disc,
            init,
            (n1 - 1) as nat,
            n2,
            e.0,
            e.1,
            e.2,
            e.3,
            e.4,
            e.5,
        );
        assert(n1 + n2 - 1 == (n1 - 1) as nat + n2);
    }
}

/// One more episode after `n` is the episode applied to the result of
/// `n`.
proof fn lemma_dyna_run_snoc(
    cfg: DynaConfig,
    trans: Seq<(PairKey, Vec<Transition>)>,
    terms: Seq<IndexState>,
    disc: Fixed,
    init: IndexState,
    n: nat,
    q: Seq<(PairKey, Fixed)>,
    model: Seq<(PairKey, (Fixed, IndexState))>,
    t: Seq<(TripleKey, u64)>,
    rng: rand_chacha::ChaCha20Rng,
    denom: u64,
    total: nat,
)
    ensures
        dyna_run(cfg, trans, terms, disc, init, n + 1, q, model, t, rng, denom, total) == ({
            let r = dyna_run(cfg, trans, terms, disc, init, n, q, model, t, rng, denom, total);
            dyna_episode(cfg, trans, terms, disc, init, r.0, r.1, r.2, r.3, r.4, r.5)
        }),
{
    lemma_dyna_run_split(cfg, trans, terms, disc, init, n, 1, q, model, t, rng, denom, total);
    let r = dyna_run(cfg, trans, terms, disc, init, n, q, model, t, rng, denom, total);
    let e = dyna_episode(cfg, trans, terms, disc, init, r.0, r.1, r.2, r.3, r.4, r.5);
    assert(dyna_run(cfg, trans, terms, disc, init, 0, e.0, e.1, e.2, e.3, e.4, e.5) == e);
    assert(dyna_run(cfg, trans, terms, disc, init, 1, r.0, r.1, r.2, r.3, r.4, r.5) == e);
}

/// The planning passes touch only keys already in the model, so the
/// estimate table keeps covering the advertised pairs.
proof fn lemma_dyna_plan_covers(
    alpha_ep: Fixed,
    beta: Fixed,
    trans: Seq<(PairKey, Vec<Transition>)>,
    disc: Fixed,
    q: Seq<(PairKey, Fixed)>,
    model: Seq<(PairKey, (Fixed, IndexState))>,
    rng: rand_chacha::ChaCha20Rng,
    k_left: nat,
)
    requires
        covers_all(trans, q),
    ensures
        covers_all(trans, dyna_plan(alpha_ep, beta, trans, disc, q, model, rng, k_left).0),
    decreases k_left,
{
    if k_left == 0 || model.len() == 0 {
    } else {
        let idx = draw_value(rng, model.len() as u64) as int;
        let rng1 = draw_next(rng, model.len() as u64);
        let key = model[idx].0;
        let m_reward = model[idx].1.0;
        let m_next = model[idx].1.1;
        let (best, rng2) = greedy_model(trans, q, m_next, rng1);
        match best {
            None => {
                lemma_dyna_plan_covers(
                    alpha_ep,
                    beta,
                    trans,
                    disc,
                    q,
                    model,
                    rng2,
                    (k_left - 1) as nat,
                );
            },
            Some(b) => {
                let bq = lookup(q, (m_next, b)).unwrap();
                let cq = or_zero(lookup(q, key));
                let q2 = store(q, key, beta_q_update_fx(cq, alpha_ep, m_reward, disc, bq, beta));
                lemma_store_covers(
                    trans,
                    q,
                    key,
                    beta_q_update_fx(cq, alpha_ep, m_reward, disc, bq, beta),
                );
                lemma_dyna_plan_covers(
                    alpha_ep,
                    beta,
                    trans,
                    disc,
                    q2,
                    model,
                    rng2,
                    (k_left - 1) as nat,
                );
            },
        }
    }
}

/// Model cardinality: one episode's step chain adds at most one model
/// entry per real step — the acted pair's entry is written
/// (overwritten, not accumulated: `lemma_lookup_store` says the write
/// replaces what the key held) — so after `E` real steps the model
/// holds at most `E` more distinct pairs than before.
pub proof fn lemma_dyna_steps_model_growth(
    cfg: DynaConfig,
    alpha_ep: Fixed,
    beta: Fixed,
    trans: Seq<(PairKey, Vec<Transition>)>,
    terms: Seq<IndexState>,
    disc: Fixed,
    q: Seq<(PairKey, Fixed)>,
    model: Seq<(PairKey, (Fixed, IndexState))>,
    t: Seq<(TripleKey, u64)>,
    rng: rand_chacha::ChaCha20Rng,
    s: IndexState,
    steps_left: nat,
)
    requires
        crate::table::sorted(model),
    ensures
        ({
            let r = dyna_steps(cfg, alpha_ep, beta, trans, terms, disc, q, model, t, rng, s, steps_left);
            r.1.len() <= model.len() + steps_left && crate::table::sorted(r.1)
        }),
    decreases steps_left,
{
    if steps_left == 0 || terms.contains(s) {
    } else {
        let (sel, rng1) = eps_greedy_model(trans, q, s, cfg.epsilon, rng);
        match sel {
            None => {},
            Some(a) => {
                let (outcome, rng2) = perform_model(trans, (s, a), rng1);
                let s2 = outcome.0;
                let reward = outcome.1;
                if cfg.direct_learning && greedy_model(trans, q, s2, rng2).0 is None {
                } else {
                    let q1 = if cfg.direct_learning {
                        let b = greedy_model(trans, q, s2, rng2).0.unwrap();
                        let bq = lookup(q, (s2, b)).unwrap();
                        let cq = or_zero(lookup(q, (s, a)));
                        store(q, (s, a), beta_q_update_fx(cq, alpha_ep, reward, disc, bq, beta))
                    } else {
                        q
                    };
                    let rng3 = if cfg.direct_learning {
                        greedy_model(trans, q, s2, rng2).1
                    } else {
                        rng2
                    };
                    let t1 = if cfg.deterministic {
                        t
                    } else {
                        let oldc = match lookup3(t, (s, a, s2)) {
                            Some(c) => c,
                            None => 0u64,
                        };
                        store3(
                            t,
                            (s, a, s2),
                            if oldc < u64::MAX {
                                (oldc + 1) as u64
                            } else {
                                oldc
                            },
                        )
                    };
                    let m_reward = if cfg.deterministic {
                        reward
                    } else {
                        let c = lookup3(t1, (s, a, s2)).unwrap();
                        Fixed(
                            crate::fixed::mul_fx(
                                reward.0 as int,
                                freq_frac(c, group_total(t1, (s, a))).0 as int,
                            ) as i64,
                        )
                    };
                    let model1 = store(model, (s, a), (m_reward, s2));
                    crate::table::lemma_store_sorted(model, (s, a), (m_reward, s2));
                    lemma_store_len(model, (s, a), (m_reward, s2));
                    let (q2, rng4) = dyna_plan(
                        alpha_ep,
                        beta,
                        trans,
                        disc,
                        q1,
                        model1,
                        rng3,
                        cfg.k as nat,
                    );
                    lemma_dyna_steps_model_growth(
                        cfg,
                        alpha_ep,
                        beta,
                        trans,
                        terms,
                        disc,
                        q2,
                        model1,
                        t1,
                        rng4,
                        s2,
                        (steps_left - 1) as nat,
                    );
                }
            },
        }
    }
}

/// Model cardinality over a whole run: training for `n` episodes with
/// a step budget of `m` adds at most `n * m` entries to the model.
pub proof fn lemma_dyna_run_model_growth(
    cfg: DynaConfig,
    trans: Seq<(PairKey, Vec<Transition>)>,
    terms: Seq<IndexState>,
    disc: Fixed,
    init: IndexState,
    episodes: nat,
    q: Seq<(PairKey, Fixed)>,
    model: Seq<(PairKey, (Fixed, IndexState))>,
    t: Seq<(TripleKey, u64)>,
    rng: rand_chacha::ChaCha20Rng,
    denom: u64,
    total: nat,
)
    requires
        crate::table::sorted(model),
    ensures
        ({
            let r = dyna_run(cfg, trans, terms, disc, init, episodes, q, model, t, rng, denom, total);
            r.1.len() <= model.len() + episodes * (cfg.max_steps as nat) && crate::table::sorted(
                r.1,
            )
        }),
    decreases episodes,
{
    if episodes == 0 {
        vstd::arithmetic::mul::lemma_mul_basics(cfg.max_steps as int);
    } else {
        let e = dyna_episode(cfg, trans, terms, disc, init, q, model, t, rng, denom, total);
        let alpha_ep = if cfg.bias_correction && cfg.converging_alpha {
            converging_alpha_of(denom)
        } else {
            cfg.alpha
        };
        let beta = if cfg.bias_correction {
            beta_of(denom)
        } else {
            Fixed(0)
        };
        lemma_dyna_steps_model_growth(
            cfg,
            alpha_ep,
            beta,
            trans,
            terms,
            disc,
            q,
            model,
            t,
            rng,
            init,
            cfg.max_steps as nat,
        );
        lemma_dyna_run_model_growth(
            cfg,
            trans,
            terms,
            disc,
            init,
            (episodes - 1) as nat,
            e.0,
            e.1,
            e.2,
            e.3,
            e.4,
            e.5,
        );
        vstd::arithmetic::mul::lemma_mul_is_distributive_add_other_way(
            cfg.max_steps as int,
            episodes as int - 1,
            1,
        );
        vstd::arithmetic::mul::lemma_mul_basics(cfg.max_steps as int);
    }
}

/// The Dyna-Q trainer.  The learned model, the visitation counts, the
/// correction bucket and the episode count persist across training
/// calls.
pub struct DynaQ {
    config: DynaConfig,
    model: PairMap<(Fixed, IndexState)>,
    t_table: TripleMap<u64>,
    beta_denom: u64,
    total_episodes: u64,
}

impl DynaQ {
    pub closed spec fn config(&self) -> DynaConfig {
        self.config
    }

    pub closed spec fn model_view(&self) -> Seq<(PairKey, (Fixed, IndexState))> {
        self.model@
    }

    pub closed spec fn t_view(&self) -> Seq<(TripleKey, u64)> {
        self.t_table@
    }

    pub closed spec fn beta_denom(&self) -> u64 {
        self.beta_denom
    }

    pub closed spec fn total_episodes(&self) -> u64 {
        self.total_episodes
    }

    /// Sane configuration, a sorted model, and a bucket within its
    /// saturation bound.
    pub open spec fn wf(&self) -> bool {
        &&& self.config().wf()
        &&& crate::table::sorted(self.model_view())
        &&& self.beta_denom() <= BETA_DENOM_MAX
    }

    /// A basic Dyna-Q trainer: no bias correction.
    pub fn new(
        alpha: Fixed,
        epsilon: Fixed,
        k: usize,
        max_steps: usize,
        deterministic: bool,
        direct_learning: bool,
    ) -> (r: DynaQ)
        requires
            0 <= epsilon.0 <= SCALE,
        ensures
            r.wf(),
            r.config() == (DynaConfig {
                alpha,
                epsilon,
                k,
                max_steps,
                deterministic,
                direct_learning,
                bias_correction: false,
                beta_rate: 1,
                converging_alpha: false,
            }),
            r.model_view() =~= Seq::<(PairKey, (Fixed, IndexState))>::empty(),
            r.t_view() =~= Seq::<(TripleKey, u64)>::empty(),
            r.beta_denom() == 0,
            r.total_episodes() == 0,
    {
        DynaQ {
            config: DynaConfig {
                alpha,
                epsilon,
                k,
                max_steps,
                deterministic,
                direct_learning,
                bias_correction: false,
                beta_rate: 1,
                converging_alpha: false,
            },
            model: PairMap::new(),
            t_table: TripleMap::new(),
            beta_denom: 0,
            total_episodes: 0,
        }
    }

    /// A bias-corrected Dyna-Q trainer, with every switch explicit.
    pub fn new_with_settings(
        alpha: Fixed,
        epsilon: Fixed,
        k: usize,
        max_steps: usize,
        deterministic: bool,
        beta_rate: usize,
        converging_alpha: bool,
        direct_learning: bool,
    ) -> (r: DynaQ)
        requires
            0 <= epsilon.0 <= SCALE,
            beta_rate > 0,
        ensures
            r.wf(),
            r.config() == (DynaConfig {
                alpha,
                epsilon,
                k,
                max_steps,
                deterministic,
                direct_learning,
                bias_correction: true,
                beta_rate,
                converging_alpha,
            }),
            r.model_view() =~= Seq::<(PairKey, (Fixed, IndexState))>::empty(),
            r.t_view() =~= Seq::<(TripleKey, u64)>::empty(),
            r.beta_denom() == 0,
            r.total_episodes() == 0,
    {
        DynaQ {
            config: DynaConfig {
                alpha,
                epsilon,
                k,
                max_steps,
                deterministic,
                direct_learning,
                bias_correction: true,
                beta_rate,
                converging_alpha,
            },
            model: PairMap::new(),
            t_table: TripleMap::new(),
            beta_denom: 0,
            total_episodes: 0,
        }
    }

    /// Read access to the learned model, for diagnostics.
    pub fn get_model(&self) -> (r: &PairMap<(Fixed, IndexState)>)
        ensures
            r@ == self.model_view(),
    {
        &self.model
    }

    /// Train on a fresh table seeded to zero over the advertised
    /// universe.
    pub fn run(&mut self, mdp: &MapMdp, episodes: usize, rng: &mut rand_chacha::ChaCha20Rng) -> (q: QMap)
        requires
            old(self).wf(),
            mdp.wf(),
            model_ok(mdp.trans(), old(self).model_view()),
            old(self).total_episodes() + episodes <= u64::MAX,
        ensures
            q.wf(),
            covers_all(mdp.trans(), q@),
            final (self).wf(),
            final (self).config() == old(self).config(),
            model_ok(mdp.trans(), final (self).model_view()),
            ({
                let r = dyna_run(
                    old(self).config(),
                    mdp.trans(),
                    mdp.terminals(),
                    mdp.discount(),
                    mdp.initial(),
                    episodes as nat,
                    seeded(mdp.trans()),
                    old(self).model_view(),
                    old(self).t_view(),
                    *old(rng),
                    old(self).beta_denom(),
                    old(self).total_episodes() as nat,
                );
                q@ == r.0 && final (self).model_view() == r.1 && final (self).t_view() == r.2
                    && *final (rng) == r.3 && final (self).beta_denom() == r.4
                    && final (self).total_episodes() as nat == r.5
            }),
    {
        let mut q = seed_q_map(mdp);
        self.run_with_q_map(mdp, episodes, rng, &mut q);
        q
    }

    /// Continue training a caller-owned table in place.
    pub fn run_with_q_map(
        &mut self,
        mdp: &MapMdp,
        episodes: usize,
        rng: &mut rand_chacha::ChaCha20Rng,
        q_map: &mut QMap,
    )
        requires
            old(self).wf(),
            mdp.wf(),
            old(q_map).wf(),
            covers_all(mdp.trans(), old(q_map)@),
            model_ok(mdp.trans(), old(self).model_view()),
            old(self).total_episodes() + episodes <= u64::MAX,
        ensures
            final (q_map).wf(),
            covers_all(mdp.trans(), final (q_map)@),
            final (self).wf(),
            final (self).config() == old(self).config(),
            model_ok(mdp.trans(), final (self).model_view()),
            ({
                let r = dyna_run(
                    old(self).config(),
                    mdp.trans(),
                    mdp.terminals(),
                    mdp.discount(),
                    mdp.initial(),
                    episodes as nat,
                    old(q_map)@,
                    old(self).model_view(),
                    old(self).t_view(),
                    *old(rng),
                    old(self).beta_denom(),
                    old(self).total_episodes() as nat,
                );
                final (q_map)@ == r.0 && final (self).model_view() == r.1 && final (self).t_view()
                    == r.2 && *final (rng) == r.3 && final (self).beta_denom() == r.4
                    && final (self).total_episodes() as nat == r.5
            }),
    {
        let ghost cfg = self.config();
        let ghost trans = mdp.trans();
        let ghost terms = mdp.terminals();
        let ghost disc = mdp.discount();
        let ghost init = mdp.initial();
        let ghost q0 = q_map@;
        let ghost m0 = self.model@;
        let ghost t0 = self.t_table@;
        let ghost r0 = *rng;
        let ghost d0 = self.beta_denom;
        let ghost n0 = self.total_episodes as nat;
        let mut ep: usize = 0;
        while ep < episodes
            invariant
                ep <= episodes,
                q_map.wf(),
                covers_all(trans, q_map@),
                self.wf(),
                self.config() == cfg,
                model_ok(trans, self.model_view()),
                self.total_episodes() as nat == n0 + ep,
                ({
                    let r = dyna_run(
                        cfg,
                        trans,
                        terms,
                        disc,
                        init,
                        ep as nat,
                        q0,
                        m0,
                        t0,
                        r0,
                        d0,
                        n0,
                    );
                    q_map@ == r.0 && self.model_view() == r.1 && self.t_view() == r.2 && *rng
                        == r.3 && self.beta_denom() == r.4 && self.total_episodes() as nat == r.5
                }),
            decreases episodes - ep,
        {
            proof {
                lemma_dyna_run_snoc(
                    cfg,
                    trans,
                    terms,
                    disc,
                    init,
                    ep as nat,
                    q0,
                    m0,
                    t0,
                    r0,
                    d0,
                    n0,
                );
            }
            let alpha_ep = if self.config.bias_correction && self.config.converging_alpha {
                converging_alpha(self.beta_denom)
            } else {
                self.config.alpha
            };
            let beta = if self.config.bias_correction {
                let b = Fixed(SCALE).div(Fixed::from_int(self.beta_denom + 1));
                proof {
                    assert(b == beta_of(self.beta_denom()));
                }
                b
            } else {
                Fixed(0)
            };
            if self.config.bias_correction {
                if self.total_episodes % (self.config.beta_rate as u64) == 0 {
                    if self.beta_denom < BETA_DENOM_MAX {
                        self.beta_denom = self.beta_denom + 1;
                    }
                }
            }
            let ghost d1 = self.beta_denom;
            let ghost eq = q_map@;
            let ghost em = self.model@;
            let ghost et = self.t_table@;
            let ghost er = *rng;
            let ghost steps_result = dyna_steps(
                cfg,
                alpha_ep,
                beta,
                trans,
                terms,
                disc,
                eq,
                em,
                et,
                er,
                init,
                cfg.max_steps as nat,
            );
            let mut current_state = mdp.get_initial_state(rng);
            let mut steps: usize = 0;
            let mut done = mdp.is_terminal(current_state) || steps >= self.config.max_steps;
            while !done
                invariant
                    q_map.wf(),
                    covers_all(trans, q_map@),
                    self.wf(),
                    self.config() == cfg,
                    model_ok(trans, self.model_view()),
                    self.beta_denom() == d1,
                    self.total_episodes() as nat == n0 + ep,
                    steps <= cfg.max_steps,
                    !done ==> !terms.contains(current_state) && steps < cfg.max_steps,
                    !done ==> dyna_steps(
                        cfg,
                        alpha_ep,
                        beta,
                        trans,
                        terms,
                        disc,
                        q_map@,
                        self.model_view(),
                        self.t_view(),
                        *rng,
                        current_state,
                        (cfg.max_steps - steps) as nat,
                    ) == steps_result,
                    done ==> (q_map@, self.model_view(), self.t_view(), *rng) == steps_result,
                decreases (if done {
                    0int
                } else {
                    cfg.max_steps - steps + 1
                }),
            {
                let ghost q_pre = q_map@;
                let ghost m_pre = self.model@;
                let ghost t_pre = self.t_table@;
                let ghost r_pre = *rng;
                let ghost s_pre = current_state;
                let ghost left_pre = (cfg.max_steps - steps) as nat;
                proof {
                    lemma_covers_all_covered(trans, q_map@, current_state);
                }
                let sel = epsilon_greedy_policy(mdp, q_map, current_state, self.config.epsilon, rng);
                if sel.is_none() {
                    proof {
                        assert(dyna_steps(
                            cfg,
                            alpha_ep,
                            beta,
                            trans,
                            terms,
                            disc,
                            q_pre,
                            m_pre,
                            t_pre,
                            r_pre,
                            s_pre,
                            left_pre,
                        ) == (q_map@, self.model_view(), self.t_view(), *rng));
                    }
                    done = true;
                } else {
                    let selected_action = sel.unwrap();
                    proof {
                        lemma_possible_lookup(trans, current_state);
                        let pa = possible_actions(trans, current_state);
                        let i = choose|i: int| 0 <= i < pa.len() && pa[i] == selected_action;
                        assert(lookup(trans, (current_state, selected_action)) is Some);
                    }
                    let outcome = mdp.perform_action((current_state, selected_action), rng);
                    let next_state = outcome.0;
                    let reward = outcome.1;
                    let mut broke = false;
                    if self.config.direct_learning {
                        proof {
                            lemma_covers_all_covered(trans, q_map@, next_state);
                        }
                        let best = greedy_policy(mdp, q_map, next_state, rng);
                        if best.is_none() {
                            proof {
                                assert(dyna_steps(
                                    cfg,
                                    alpha_ep,
                                    beta,
                                    trans,
                                    terms,
                                    disc,
                                    q_pre,
                                    m_pre,
                                    t_pre,
                                    r_pre,
                                    s_pre,
                                    left_pre,
                                ) == (q_map@, self.model_view(), self.t_view(), *rng));
                            }
                            broke = true;
                        } else {
                            let best_action = best.unwrap();
                            proof {
                                lemma_possible_lookup(trans, next_state);
                                let pa2 = possible_actions(trans, next_state);
                                let ib = choose|ib: int|
                                    0 <= ib < pa2.len() && pa2[ib] == best_action;
                                assert(lookup(q_map@, (next_state, best_action)) is Some);
                            }
                            let best_q = *q_map.get((next_state, best_action)).unwrap();
                            let current_q = get_or_zero(q_map, (current_state, selected_action));
                            let new_q = apply_beta_q_update(
                                current_q,
                                alpha_ep,
                                reward,
                                mdp.get_discount_factor(),
                                best_q,
                                beta,
                            );
                            proof {
                                lemma_store_covers(
                                    trans,
                                    q_map@,
                                    (current_state, selected_action),
                                    new_q,
                                );
                            }
                            q_map.set((current_state, selected_action), new_q);
                        }
                    }
                    if broke {
                        done = true;
                    } else {
                        // model update
                        let m_reward = if self.config.deterministic {
                            reward
                        } else {
                            let key3 = (current_state, selected_action, next_state);
                            let oldc = match self.t_table.get(key3) {
                                Some(c) => *c,
                                None => 0u64,
                            };
                            let newc = if oldc < u64::MAX {
                                oldc + 1
                            } else {
                                oldc
                            };
                            self.t_table.set(key3, newc);
                            proof {
                                lemma_lookup3_store3(t_pre, key3, newc, key3);
                                lemma_group_total_at_least(self.t_table@, key3);
                            }
                            let total = self.t_table.pair_total((current_state, selected_action));
                            let frac = freq_of(newc, total);
                            let mr = reward.mul(frac);
                            proof {
                                let target = crate::fixed::mul_fx(
                                    reward.0 as int,
                                    frac.0 as int,
                                );
                                assert(i64::MIN <= target <= i64::MAX);
                                assert(mr == Fixed(target as i64));
                            }
                            mr
                        };
                        proof {
                            lemma_model_store_ok(
                                trans,
                                self.model@,
                                (current_state, selected_action),
                                (m_reward, next_state),
                            );
                            lemma_store_len(
                                self.model@,
                                (current_state, selected_action),
                                (m_reward, next_state),
                            );
                        }
                        self.model.set((current_state, selected_action), (m_reward, next_state));
                        // planning
                        let ghost q_plan0 = q_map@;
                        let ghost m_plan = self.model@;
                        let ghost r_plan0 = *rng;
                        let mut pass: usize = 0;
                        while pass < self.config.k
                            invariant
                                q_map.wf(),
                                covers_all(trans, q_map@),
                                self.wf(),
                                self.config() == cfg,
                                model_ok(trans, self.model_view()),
                                pass <= cfg.k,
                                self.model@ == m_plan,
                                m_plan.len() > 0,
                                dyna_plan(
                                    alpha_ep,
                                    beta,
                                    trans,
                                    disc,
                                    q_map@,
                                    m_plan,
                                    *rng,
                                    (cfg.k - pass) as nat,
                                ) == dyna_plan(
                                    alpha_ep,
                                    beta,
                                    trans,
                                    disc,
                                    q_plan0,
                                    m_plan,
                                    r_plan0,
                                    cfg.k as nat,
                                ),
                            decreases cfg.k - pass,
                        {
                            let ghost qp_pre = q_map@;
                            let ghost rp_pre = *rng;
                            let len = self.model.len();
                            let idx = crate::rng::draw_below(rng, len as u64) as usize;
                            let entry = self.model.entry_at(idx);
                            let key = entry.0;
                            let m_rew = entry.1.0;
                            let m_next = entry.1.1;
                            proof {
                                lemma_covers_all_covered(trans, q_map@, m_next);
                            }
                            let best2 = greedy_policy(mdp, q_map, m_next, rng);
                            match best2 {
                                None => {},
                                Some(sel2) => {
                                    proof {
                                        lemma_possible_lookup(trans, m_next);
                                        let pa3 = possible_actions(trans, m_next);
                                        let i3 = choose|i3: int|
                                            0 <= i3 < pa3.len() && pa3[i3] == sel2;
                                        assert(lookup(q_map@, (m_next, sel2)) is Some);
                                    }
                                    let best_q2 = *q_map.get((m_next, sel2)).unwrap();
                                    let cur_q2 = get_or_zero(q_map, key);
                                    let new_q2 = apply_beta_q_update(
                                        cur_q2,
                                        alpha_ep,
                                        m_rew,
                                        mdp.get_discount_factor(),
                                        best_q2,
                                        beta,
                                    );
                                    proof {
                                        lemma_store_covers(trans, q_map@, key, new_q2);
                                    }
                                    q_map.set(key, new_q2);
                                },
                            }
                            pass += 1;
                            proof {
                                assert(dyna_plan(
                                    alpha_ep,
                                    beta,
                                    trans,
                                    disc,
                                    qp_pre,
                                    m_plan,
                                    rp_pre,
                                    (cfg.k - (pass - 1)) as nat,
                                ) == dyna_plan(
                                    alpha_ep,
                                    beta,
                                    trans,
                                    disc,
                                    q_map@,
                                    m_plan,
                                    *rng,
                                    (cfg.k - pass) as nat,
                                ));
                            }
                        }
                        current_state = next_state;
                        steps += 1;
                        done = mdp.is_terminal(current_state) || steps >= self.config.max_steps;
                        proof {
                            assert(dyna_plan(
                                alpha_ep,
                                beta,
                                trans,
                                disc,
                                q_map@,
                                m_plan,
                                *rng,
                                0,
                            ) == (q_map@, *rng));
                            assert(dyna_steps(
                                cfg,
                                alpha_ep,
                                beta,
                                trans,
                                terms,
                                disc,
                                q_pre,
                                m_pre,
                                t_pre,
                                r_pre,
                                s_pre,
                                left_pre,
                            ) == dyna_steps(
                                cfg,
                                alpha_ep,
                                beta,
                                trans,
                                terms,
                                disc,
                                q_map@,
                                self.model_view(),
                                self.t_view(),
                                *rng,
                                current_state,
                                (cfg.max_steps - steps) as nat,
                            ));
                        }
                    }
                }
            }
            self.total_episodes = self.total_episodes + 1;
            ep += 1;
        }
    }
}

} // verus!
