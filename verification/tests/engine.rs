use rand::SeedableRng;
use tabular_rl::algorithms::q_learning::QLearning;
use tabular_rl::algorithms::sarsa::Sarsa;
use tabular_rl::fixed::Fixed;
use tabular_rl::mdp::{IndexAction, IndexState, MapMdp, Transition};

fn tr(prob: i64, next: usize, reward: i64) -> Transition {
    Transition {
        prob: Fixed(prob),
        next: IndexState(next),
        reward: Fixed(reward),
    }
}

/// The regression fixture: state 0 chooses between a risky jump to the
/// terminal state and a self-loop; state 1 mostly bounces back with a
/// rare large-reward escape; state 2 is terminal.
fn create_test_mdp() -> MapMdp {
    let mut mdp = MapMdp::new(Fixed(900_000), IndexState(0));
    mdp.add_transition_vector(
        (IndexState(0), IndexAction(0)),
        vec![tr(200_000, 1, 1_000_000), tr(800_000, 2, 10_000_000)],
    )
    .unwrap();
    mdp.add_transition_vector(
        (IndexState(0), IndexAction(1)),
        vec![tr(1_000_000, 0, -1_000_000)],
    )
    .unwrap();
    mdp.add_transition_vector(
        (IndexState(1), IndexAction(0)),
        vec![tr(1_000_000, 1, -1_000_000)],
    )
    .unwrap();
    mdp.add_transition_vector(
        (IndexState(1), IndexAction(1)),
        vec![tr(990_000, 0, -2_000_000), tr(10_000, 2, 1_000_000_000)],
    )
    .unwrap();
    mdp.add_terminal_state(IndexState(2));
    mdp
}

#[test]
fn test_q_learning() {
    let mut rng = rand_chacha::ChaCha20Rng::seed_from_u64(212);
    let mdp = create_test_mdp();
    let algo = QLearning::new(Fixed(100_000), Fixed(100_000), 5);
    let q_map = algo.run(&mdp, 1, &mut rng);

    assert_eq!(q_map.get((IndexState(0), IndexAction(0))), Some(&Fixed(0)));
    assert_eq!(
        q_map.get((IndexState(0), IndexAction(1))),
        Some(&Fixed(-100_000))
    );
    assert_eq!(q_map.get((IndexState(1), IndexAction(0))), Some(&Fixed(0)));
    assert_eq!(q_map.get((IndexState(1), IndexAction(1))), Some(&Fixed(0)));
}

#[test]
fn test_sarsa() {
    let mut rng = rand_chacha::ChaCha20Rng::seed_from_u64(8);
    let mdp = create_test_mdp();
    let algo = Sarsa::new(Fixed(100_000), Fixed(100_000), 5);
    let q_map = algo.run(&mdp, 1, &mut rng);

    assert_eq!(q_map.get((IndexState(0), IndexAction(0))), Some(&Fixed(0)));
    assert_eq!(
        q_map.get((IndexState(0), IndexAction(1))),
        Some(&Fixed(-100_000))
    );
    assert_eq!(q_map.get((IndexState(1), IndexAction(0))), Some(&Fixed(0)));
    assert_eq!(q_map.get((IndexState(1), IndexAction(1))), Some(&Fixed(0)));
}

const EPISODES: usize = 1000;

#[test]
fn test_sarsa_equivalence() {
    let mdp = create_test_mdp();
    let algo = Sarsa::new(Fixed(100_000), Fixed(100_000), 1000);

    let mut rng = rand_chacha::ChaCha20Rng::seed_from_u64(0);
    let q_map_1 = algo.run(&mdp, EPISODES, &mut rng);

    let mut rng = rand_chacha::ChaCha20Rng::seed_from_u64(0);
    let mut q_map_2 = algo.run(&mdp, EPISODES / 2, &mut rng);
    algo.run_with_q_map(&mdp, EPISODES / 2, &mut rng, &mut q_map_2);

    assert_eq!(q_map_1, q_map_2);
}

#[test]
fn test_q_learning_equivalence() {
    let mdp = create_test_mdp();
    let algo = QLearning::new(Fixed(100_000), Fixed(100_000), 1000);

    let mut rng = rand_chacha::ChaCha20Rng::seed_from_u64(0);
    let q_map_1 = algo.run(&mdp, EPISODES, &mut rng);

    let mut rng = rand_chacha::ChaCha20Rng::seed_from_u64(0);
    let mut q_map_2 = algo.run(&mdp, EPISODES / 2, &mut rng);
    algo.run_with_q_map(&mdp, EPISODES / 2, &mut rng, &mut q_map_2);

    assert_eq!(q_map_1, q_map_2);
}
