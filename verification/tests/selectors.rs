use rand::SeedableRng;
use tabular_rl::algorithms::monte_carlo::MonteCarlo;
use tabular_rl::algorithms::seed_q_map;
use tabular_rl::eval::{evaluate_epsilon_greedy_policy, evaluate_random_policy};
use tabular_rl::fixed::Fixed;
use tabular_rl::mdp::{IndexAction, IndexState, MapMdp, Transition};
use tabular_rl::policies::{epsilon_greedy_policy_ma, greedy_policy_ma, random_policy_ma};

fn tr(prob: i64, next: usize, reward: i64) -> Transition {
    Transition {
        prob: Fixed(prob),
        next: IndexState(next),
        reward: Fixed(reward),
    }
}

fn chain_mdp() -> MapMdp {
    let mut mdp = MapMdp::new(Fixed(1_000_000), IndexState(0));
    mdp.add_transition_vector((IndexState(0), IndexAction(0)), vec![tr(1_000_000, 1, 0)])
        .unwrap();
    mdp.add_transition_vector(
        (IndexState(1), IndexAction(0)),
        vec![tr(1_000_000, 2, 1_000_000)],
    )
    .unwrap();
    mdp.add_transition_vector((IndexState(2), IndexAction(0)), vec![tr(1_000_000, 2, 0)])
        .unwrap();
    mdp.add_terminal_state(IndexState(2));
    mdp
}

#[test]
fn greedy_over_given_actions_takes_the_maximum() {
    let mut mdp = MapMdp::new(Fixed(900_000), IndexState(0));
    mdp.add_transition_vector((IndexState(0), IndexAction(0)), vec![tr(1_000_000, 0, 0)])
        .unwrap();
    mdp.add_transition_vector((IndexState(0), IndexAction(1)), vec![tr(1_000_000, 0, 0)])
        .unwrap();
    let mut q = seed_q_map(&mdp);
    q.set((IndexState(0), IndexAction(1)), Fixed(1_000_000));

    let actions = vec![IndexAction(0), IndexAction(1)];
    for seed in 0..16u64 {
        let mut rng = rand_chacha::ChaCha20Rng::seed_from_u64(seed);
        assert_eq!(
            greedy_policy_ma(&actions, &q, IndexState(0), &mut rng),
            Some(IndexAction(1))
        );
        let mut rng = rand_chacha::ChaCha20Rng::seed_from_u64(seed);
        assert_eq!(
            epsilon_greedy_policy_ma(&actions, &q, IndexState(0), Fixed(0), &mut rng),
            Some(IndexAction(1))
        );
    }
    // the empty list signals episode end without a draw
    let mut rng = rand_chacha::ChaCha20Rng::seed_from_u64(0);
    let none: Vec<IndexAction> = Vec::new();
    assert_eq!(random_policy_ma(&none, &mut rng), None);
}

#[test]
fn trajectory_generation_records_every_visit() {
    let mdp = chain_mdp();
    let q = seed_q_map(&mdp);
    let algo = MonteCarlo::new(Fixed(0), 10);
    let mut rng = rand_chacha::ChaCha20Rng::seed_from_u64(21);
    let traj = algo.generate_episode(&mdp, &q, &mut rng);
    assert_eq!(
        traj,
        vec![
            (IndexState(0), IndexAction(0), Fixed(0)),
            (IndexState(1), IndexAction(0), Fixed(1_000_000)),
        ]
    );
}

#[test]
fn evaluation_variants_average_exactly() {
    let mdp = chain_mdp();
    let q = seed_q_map(&mdp);
    // a single advertised action makes every selector deterministic:
    // each episode collects exactly one unit of reward
    let mut rng = rand_chacha::ChaCha20Rng::seed_from_u64(31);
    let avg = evaluate_random_policy(&mdp, 4, 10, &mut rng);
    assert_eq!(avg, Fixed(1_000_000));
    let mut rng = rand_chacha::ChaCha20Rng::seed_from_u64(31);
    let avg = evaluate_epsilon_greedy_policy(&mdp, &q, 4, 10, Fixed(500_000), &mut rng);
    assert_eq!(avg, Fixed(1_000_000));
}
