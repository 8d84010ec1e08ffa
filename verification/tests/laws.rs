use rand::SeedableRng;
use tabular_rl::algorithms::dyna_q::DynaQ;
use tabular_rl::algorithms::monte_carlo::MonteCarlo;
use tabular_rl::algorithms::q_learning::QLearning;
use tabular_rl::algorithms::q_learning_beta::QLearningBeta;
use tabular_rl::algorithms::q_learning_lambda::QLearningLambda;
use tabular_rl::algorithms::sarsa_lambda::SarsaLambda;
use tabular_rl::algorithms::value_iteration::value_iteration;
use tabular_rl::algorithms::Trace;
use tabular_rl::fixed::Fixed;
use tabular_rl::mdp::{IndexAction, IndexState, MapMdp, Transition};
use tabular_rl::policies::greedy_policy;

fn tr(prob: i64, next: usize, reward: i64) -> Transition {
    Transition {
        prob: Fixed(prob),
        next: IndexState(next),
        reward: Fixed(reward),
    }
}

/// A deterministic three-state chain: state 0 steps to 1 for nothing,
/// state 1 steps to the terminal state 2 for one, state 2 self-loops
/// for nothing.  One action everywhere, discount one.
fn chain_mdp() -> MapMdp {
    let mut mdp = MapMdp::new(Fixed(1_000_000), IndexState(0));
    mdp.add_transition_vector((IndexState(0), IndexAction(0)), vec![tr(1_000_000, 1, 0)])
        .unwrap();
    mdp.add_transition_vector(
        (IndexState(1), IndexAction(0)),
        vec![tr(1_000_000, 2, 1_000_000)],
    )
    .unwrap();
    mdp.add_transition_vector((IndexState(2), IndexAction(0)), vec![tr(1_000_000, 2, 0)])
        .unwrap();
    mdp.add_terminal_state(IndexState(2));
    mdp
}

/// A two-state fixture with a known fixed point: state 0 earns two and
/// moves to state 1, which self-loops for nothing.  With discount one
/// half the optimal values are exactly 2 and 0.
#[test]
fn value_iteration_converges() {
    let mut mdp = MapMdp::new(Fixed(500_000), IndexState(0));
    mdp.add_transition_vector(
        (IndexState(0), IndexAction(0)),
        vec![tr(1_000_000, 1, 2_000_000)],
    )
    .unwrap();
    mdp.add_transition_vector((IndexState(1), IndexAction(0)), vec![tr(1_000_000, 1, 0)])
        .unwrap();

    let v = value_iteration(&mdp, Fixed(1_000), Fixed(500_000), 100);
    assert_eq!(v.get(IndexState(0)), Some(&Fixed(2_000_000)));
    assert_eq!(v.get(IndexState(1)), Some(&Fixed(0)));
}

/// One exact temporal-difference step: from a zero table, a sure
/// reward of ten with learning rate one tenth moves the estimate to
/// exactly one.
#[test]
fn q_learning_single_step_formula() {
    let mut mdp = MapMdp::new(Fixed(900_000), IndexState(0));
    mdp.add_transition_vector(
        (IndexState(0), IndexAction(0)),
        vec![tr(1_000_000, 1, 10_000_000)],
    )
    .unwrap();
    mdp.add_transition_vector((IndexState(1), IndexAction(0)), vec![tr(1_000_000, 1, 0)])
        .unwrap();
    mdp.add_terminal_state(IndexState(1));

    let mut rng = rand_chacha::ChaCha20Rng::seed_from_u64(7);
    let algo = QLearning::new(Fixed(100_000), Fixed(0), 10);
    let q = algo.run(&mdp, 1, &mut rng);
    assert_eq!(
        q.get((IndexState(0), IndexAction(0))),
        Some(&Fixed(1_000_000))
    );
}

/// The trace policies: Accumulating adds exactly one, Replacing sets
/// exactly one, Dutch decays by one minus alpha and adds one.
#[test]
fn eligibility_trace_policies() {
    let alpha = Fixed(100_000);
    assert_eq!(
        Trace::Accumulating.calculate(Fixed(0), alpha),
        Fixed(1_000_000)
    );
    assert_eq!(
        Trace::Accumulating.calculate(Fixed(750_000), alpha),
        Fixed(1_750_000)
    );
    assert_eq!(
        Trace::Replacing.calculate(Fixed(750_000), alpha),
        Fixed(1_000_000)
    );
    assert_eq!(
        Trace::Dutch.calculate(Fixed(1_000_000), alpha),
        Fixed(1_900_000)
    );
}

/// Eligibility decay observed through the estimates: on the chain with
/// learning rate one and trace decay one half, the earlier pair's
/// estimate receives the later temporal-difference error scaled by
/// exactly `gamma * lambda`.
#[test]
fn eligibility_trace_decay() {
    let mdp = chain_mdp();
    let mut rng = rand_chacha::ChaCha20Rng::seed_from_u64(3);
    let algo = QLearningLambda::new(
        Fixed(1_000_000),
        Fixed(0),
        Fixed(500_000),
        10,
        Trace::Accumulating,
    );
    let q = algo.run(&mdp, 1, &mut rng);
    // the acted pair at state 1 takes the full error of one; the pair
    // at state 0, one step older, takes it scaled by gamma * lambda
    assert_eq!(
        q.get((IndexState(1), IndexAction(0))),
        Some(&Fixed(1_000_000))
    );
    assert_eq!(
        q.get((IndexState(0), IndexAction(0))),
        Some(&Fixed(500_000))
    );
}

/// The on-policy trace algorithm starts each episode with an *empty*
/// trace table, and the acted pair's credit only touches a trace that
/// is already present — so the very first step of an episode earns no
/// credit, a behaviour kept as-is.
#[test]
fn sarsa_lambda_trace_decay() {
    let mdp = chain_mdp();
    let mut rng = rand_chacha::ChaCha20Rng::seed_from_u64(3);
    let algo = SarsaLambda::new(
        Fixed(1_000_000),
        Fixed(0),
        Fixed(500_000),
        10,
        Trace::Accumulating,
    );
    let q = algo.run(&mdp, 2, &mut rng);
    // the pair acted on the second step of an episode carries a full
    // trace of one and takes the whole error
    assert_eq!(
        q.get((IndexState(1), IndexAction(0))),
        Some(&Fixed(1_000_000))
    );
    // the episode's first pair never gets its trace credited
    assert_eq!(q.get((IndexState(0), IndexAction(0))), Some(&Fixed(0)));
}

/// With no sweep budget, value iteration returns its input table.
#[test]
fn value_iteration_budget_exhaustion() {
    let mdp = chain_mdp();
    let v = value_iteration(&mdp, Fixed(1_000), Fixed(500_000), 0);
    assert_eq!(v.get(IndexState(0)), None);
}

/// Model cardinality: after an episode of two real steps the learned
/// model holds exactly the two visited pairs, and repeating episodes
/// overwrites them instead of accumulating.
#[test]
fn dyna_q_model_cardinality() {
    let mdp = chain_mdp();
    let mut rng = rand_chacha::ChaCha20Rng::seed_from_u64(5);
    let mut algo = DynaQ::new(Fixed(100_000), Fixed(0), 3, 10, true, true);
    let _ = algo.run(&mdp, 1, &mut rng);
    assert_eq!(algo.get_model().len(), 2);
    let mut q = algo.run(&mdp, 1, &mut rng);
    algo.run_with_q_map(&mdp, 3, &mut rng, &mut q);
    assert_eq!(algo.get_model().len(), 2);
}

/// Trainer-state equivalence for the Dyna-Q family: ten episodes in
/// one call leave the same table as five and five on a trainer that
/// carries its model across the calls.
#[test]
fn dyna_q_equivalence() {
    let mdp = chain_mdp();

    let mut rng = rand_chacha::ChaCha20Rng::seed_from_u64(0);
    let mut a1 = DynaQ::new_with_settings(Fixed(100_000), Fixed(100_000), 2, 50, false, 2, true, true);
    let q1 = a1.run(&mdp, 10, &mut rng);

    let mut rng = rand_chacha::ChaCha20Rng::seed_from_u64(0);
    let mut a2 = DynaQ::new_with_settings(Fixed(100_000), Fixed(100_000), 2, 50, false, 2, true, true);
    let mut q2 = a2.run(&mdp, 5, &mut rng);
    a2.run_with_q_map(&mdp, 5, &mut rng, &mut q2);

    assert_eq!(q1, q2);
}

/// The same split for the bias-corrected one-step trainer, bucket
/// state included.
#[test]
fn q_learning_beta_equivalence() {
    let mdp = chain_mdp();

    let mut rng = rand_chacha::ChaCha20Rng::seed_from_u64(1);
    let mut a1 = QLearningBeta::new(Fixed(100_000), Fixed(100_000), 50, 3);
    let q1 = a1.run(&mdp, 12, &mut rng);

    let mut rng = rand_chacha::ChaCha20Rng::seed_from_u64(1);
    let mut a2 = QLearningBeta::new(Fixed(100_000), Fixed(100_000), 50, 3);
    let mut q2 = a2.run(&mdp, 6, &mut rng);
    a2.run_with_q_map(&mdp, 6, &mut rng, &mut q2);

    assert_eq!(q1, q2);
}

/// The same split for the trace algorithm.
#[test]
fn q_learning_lambda_equivalence() {
    let mdp = chain_mdp();
    let algo = QLearningLambda::new(
        Fixed(100_000),
        Fixed(100_000),
        Fixed(500_000),
        50,
        Trace::Dutch,
    );

    let mut rng = rand_chacha::ChaCha20Rng::seed_from_u64(9);
    let q1 = algo.run(&mdp, 8, &mut rng);

    let mut rng = rand_chacha::ChaCha20Rng::seed_from_u64(9);
    let mut q2 = algo.run(&mdp, 4, &mut rng);
    algo.run_with_q_map(&mdp, 4, &mut rng, &mut q2);

    assert_eq!(q1, q2);
}

/// One bias-corrected step: `(0 + 0.1 * 10) * (1 - 1/2)` is exactly
/// one half.
#[test]
fn q_learning_beta_single_step_formula() {
    let mut mdp = MapMdp::new(Fixed(900_000), IndexState(0));
    mdp.add_transition_vector(
        (IndexState(0), IndexAction(0)),
        vec![tr(1_000_000, 1, 10_000_000)],
    )
    .unwrap();
    mdp.add_transition_vector((IndexState(1), IndexAction(0)), vec![tr(1_000_000, 1, 0)])
        .unwrap();
    mdp.add_terminal_state(IndexState(1));

    let mut rng = rand_chacha::ChaCha20Rng::seed_from_u64(2);
    let mut algo = QLearningBeta::new(Fixed(100_000), Fixed(0), 10, 1);
    let q = algo.run(&mdp, 1, &mut rng);
    assert_eq!(
        q.get((IndexState(0), IndexAction(0))),
        Some(&Fixed(500_000))
    );
}

/// First-visit Monte Carlo: a sure reward of ten gives a mean of ten
/// after one episode, and still ten after another.
#[test]
fn monte_carlo_mean() {
    let mut mdp = MapMdp::new(Fixed(900_000), IndexState(0));
    mdp.add_transition_vector(
        (IndexState(0), IndexAction(0)),
        vec![tr(1_000_000, 1, 10_000_000)],
    )
    .unwrap();
    mdp.add_transition_vector((IndexState(1), IndexAction(0)), vec![tr(1_000_000, 1, 0)])
        .unwrap();
    mdp.add_terminal_state(IndexState(1));

    let mut rng = rand_chacha::ChaCha20Rng::seed_from_u64(4);
    let algo = MonteCarlo::new(Fixed(0), 10);
    let mut q = algo.run(&mdp, 1, &mut rng);
    assert_eq!(
        q.get((IndexState(0), IndexAction(0))),
        Some(&Fixed(10_000_000))
    );
    algo.run_with_q_map(&mdp, 1, &mut rng, &mut q);
    assert_eq!(
        q.get((IndexState(0), IndexAction(0))),
        Some(&Fixed(10_000_000))
    );
}

/// The documented greedy tie fallback: on a state whose two actions
/// are exactly tied, repeated seeded calls select each action at least
/// once — the choice falls back to a uniform pick over all advertised
/// actions.
#[test]
fn selector_fallback_on_ties() {
    let mut mdp = MapMdp::new(Fixed(900_000), IndexState(0));
    mdp.add_transition_vector((IndexState(0), IndexAction(0)), vec![tr(1_000_000, 0, 0)])
        .unwrap();
    mdp.add_transition_vector((IndexState(0), IndexAction(1)), vec![tr(1_000_000, 0, 0)])
        .unwrap();
    let q = tabular_rl::algorithms::seed_q_map(&mdp);

    let mut seen0 = false;
    let mut seen1 = false;
    for seed in 0..64u64 {
        let mut rng = rand_chacha::ChaCha20Rng::seed_from_u64(seed);
        match greedy_policy(&mdp, &q, IndexState(0), &mut rng) {
            Some(IndexAction(0)) => seen0 = true,
            Some(IndexAction(1)) => seen1 = true,
            other => panic!("unexpected selection {:?}", other),
        }
    }
    assert!(seen0 && seen1);
}

/// Epsilon at its extremes: zero always exploits the better action,
/// one always explores uniformly.
#[test]
fn epsilon_greedy_extremes() {
    let mut mdp = MapMdp::new(Fixed(900_000), IndexState(0));
    mdp.add_transition_vector((IndexState(0), IndexAction(0)), vec![tr(1_000_000, 0, 0)])
        .unwrap();
    mdp.add_transition_vector((IndexState(0), IndexAction(1)), vec![tr(1_000_000, 0, 0)])
        .unwrap();
    let mut q = tabular_rl::algorithms::seed_q_map(&mdp);
    q.set((IndexState(0), IndexAction(0)), Fixed(1_000_000));

    for seed in 0..32u64 {
        let mut rng = rand_chacha::ChaCha20Rng::seed_from_u64(seed);
        let a = tabular_rl::policies::epsilon_greedy_policy(
            &mdp,
            &q,
            IndexState(0),
            Fixed(0),
            &mut rng,
        );
        assert_eq!(a, Some(IndexAction(0)));
    }
    let mut seen1 = false;
    for seed in 0..64u64 {
        let mut rng = rand_chacha::ChaCha20Rng::seed_from_u64(seed);
        if tabular_rl::policies::epsilon_greedy_policy(
            &mdp,
            &q,
            IndexState(0),
            Fixed(1_000_000),
            &mut rng,
        ) == Some(IndexAction(1))
        {
            seen1 = true;
        }
    }
    assert!(seen1);
}

/// The preserved quirk of the tie rule: with an odd number of three or
/// more tied actions the fold ends holding the last action, so the
/// random fallback is never reached.
#[test]
fn selector_tie_odd_count_keeps_last() {
    let mut mdp = MapMdp::new(Fixed(900_000), IndexState(0));
    for a in 0..3 {
        mdp.add_transition_vector((IndexState(0), IndexAction(a)), vec![tr(1_000_000, 0, 0)])
            .unwrap();
    }
    let q = tabular_rl::algorithms::seed_q_map(&mdp);
    for seed in 0..32u64 {
        let mut rng = rand_chacha::ChaCha20Rng::seed_from_u64(seed);
        assert_eq!(
            greedy_policy(&mdp, &q, IndexState(0), &mut rng),
            Some(IndexAction(2))
        );
    }
}
