use rand::SeedableRng;
use tabular_rl::envs::blackjack::{BlackjackAction, BlackjackMdp, BlackjackState};
use tabular_rl::envs::cliff_walking::{build_mdp, CliffWalkingAction, CliffWalkingState};
use tabular_rl::envs::my_intersection::{IntersectionState, LightAction, LightState};
use tabular_rl::eval::evaluate_greedy_policy;
use tabular_rl::fixed::Fixed;
use tabular_rl::mdp::{IndexAction, IndexState, MapMdp, MdpError, Transition};
use tabular_rl::multiagent::intersection::{Action, MAState};
use tabular_rl::policies::random_policy;

fn tr(prob: i64, next: usize, reward: i64) -> Transition {
    Transition {
        prob: Fixed(prob),
        next: IndexState(next),
        reward: Fixed(reward),
    }
}

#[test]
fn registration_rejects_duplicates_and_bad_weights() {
    let mut mdp = MapMdp::new(Fixed(900_000), IndexState(0));
    assert_eq!(
        mdp.add_transition_vector((IndexState(0), IndexAction(0)), vec![tr(1_000_000, 0, 0)]),
        Ok(())
    );
    assert_eq!(
        mdp.add_transition_vector((IndexState(0), IndexAction(0)), vec![tr(1_000_000, 0, 0)]),
        Err(MdpError::DuplicateStateAction)
    );
    // probabilities must sum to exactly one
    assert_eq!(
        mdp.add_transition_vector(
            (IndexState(0), IndexAction(1)),
            vec![tr(400_000, 0, 0), tr(400_000, 0, 0)]
        ),
        Err(MdpError::InvalidTransitions)
    );
    // an empty transition list is unusable
    assert_eq!(
        mdp.add_transition_vector((IndexState(0), IndexAction(1)), vec![]),
        Err(MdpError::InvalidTransitions)
    );
    // a negative probability is unusable
    assert_eq!(
        mdp.add_transition_vector(
            (IndexState(0), IndexAction(1)),
            vec![tr(-1, 0, 0), tr(1_000_001, 0, 0)]
        ),
        Err(MdpError::InvalidTransitions)
    );
}

#[test]
fn sampling_follows_the_registered_weights() {
    let mut mdp = MapMdp::new(Fixed(900_000), IndexState(0));
    // a sure transition is always taken, whatever the generator holds
    mdp.add_transition_vector(
        (IndexState(0), IndexAction(0)),
        vec![tr(1_000_000, 7, 3_000_000)],
    )
    .unwrap();
    // a zero-weight outcome is never taken
    mdp.add_transition_vector(
        (IndexState(0), IndexAction(1)),
        vec![tr(0, 1, 0), tr(1_000_000, 2, -1_000_000)],
    )
    .unwrap();
    for seed in 0..32u64 {
        let mut rng = rand_chacha::ChaCha20Rng::seed_from_u64(seed);
        let (next, reward) = mdp.perform_action((IndexState(0), IndexAction(0)), &mut rng);
        assert_eq!((next, reward), (IndexState(7), Fixed(3_000_000)));
        let (next, reward) = mdp.perform_action((IndexState(0), IndexAction(1)), &mut rng);
        assert_eq!((next, reward), (IndexState(2), Fixed(-1_000_000)));
    }
}

#[test]
fn random_selection_reaches_every_action() {
    let mut mdp = MapMdp::new(Fixed(900_000), IndexState(0));
    for a in 0..3 {
        mdp.add_transition_vector((IndexState(0), IndexAction(a)), vec![tr(1_000_000, 0, 0)])
            .unwrap();
    }
    let mut seen = [false; 3];
    for seed in 0..64u64 {
        let mut rng = rand_chacha::ChaCha20Rng::seed_from_u64(seed);
        let a = random_policy(&mdp, IndexState(0), &mut rng).unwrap();
        seen[a.0] = true;
    }
    assert_eq!(seen, [true, true, true]);
    // no advertised action signals episode end
    let mut rng = rand_chacha::ChaCha20Rng::seed_from_u64(0);
    assert_eq!(random_policy(&mdp, IndexState(1), &mut rng), None);
}

#[test]
fn cliff_walking_grid_shape() {
    let m = build_mdp();
    assert_eq!(m.num_pairs(), 192);
    assert_eq!(m.get_discount_factor(), Fixed(1_000_000));
    let mut rng = rand_chacha::ChaCha20Rng::seed_from_u64(0);
    assert_eq!(m.get_initial_state(&mut rng), IndexState(36));
    assert!(!m.is_terminal(IndexState(36)));
    for col in 1..12 {
        assert!(m.is_terminal(IndexState(36 + col)));
    }
    let actions = m.get_possible_actions(IndexState(36));
    assert_eq!(
        actions,
        vec![IndexAction(0), IndexAction(1), IndexAction(2), IndexAction(3)]
    );
}

#[test]
fn cliff_walking_moves() {
    let m = build_mdp();
    let mut rng = rand_chacha::ChaCha20Rng::seed_from_u64(0);
    let right = CliffWalkingAction::Right.to_index();
    let up = CliffWalkingAction::Up.to_index();
    let start = CliffWalkingState(3, 0).to_index();
    assert_eq!(start, IndexState(36));
    // stepping right from the start walks onto the cliff
    let (next, reward) = m.perform_action((start, right), &mut rng);
    assert_eq!((next, reward), (IndexState(37), Fixed(-100_000_000)));
    // stepping up costs one step
    let (next, reward) = m.perform_action((start, up), &mut rng);
    assert_eq!((next, reward), (IndexState(24), Fixed(-1_000_000)));
    // stepping right into the goal from (2, 11) costs one step
    let (next, reward) = m.perform_action(
        (CliffWalkingState(2, 11).to_index(), CliffWalkingAction::Down.to_index()),
        &mut rng,
    );
    assert_eq!((next, reward), (IndexState(47), Fixed(0)));
}

#[test]
fn greedy_evaluation_averages_the_collected_reward() {
    let mut mdp = MapMdp::new(Fixed(900_000), IndexState(0));
    mdp.add_transition_vector(
        (IndexState(0), IndexAction(0)),
        vec![tr(1_000_000, 1, 10_000_000)],
    )
    .unwrap();
    mdp.add_transition_vector((IndexState(1), IndexAction(0)), vec![tr(1_000_000, 1, 0)])
        .unwrap();
    mdp.add_terminal_state(IndexState(1));
    let q = tabular_rl::algorithms::seed_q_map(&mdp);
    let mut rng = rand_chacha::ChaCha20Rng::seed_from_u64(11);
    let avg = evaluate_greedy_policy(&mdp, &q, 3, 10, &mut rng);
    assert_eq!(avg, Fixed(10_000_000));
}

#[test]
fn blackjack_vocabulary() {
    let game = BlackjackMdp;
    assert!(!game.is_terminal(BlackjackState::Running(15, 4, false)));
    assert!(game.is_terminal(BlackjackState::Win));
    assert!(game.is_terminal(BlackjackState::Draw));
    assert!(game.is_terminal(BlackjackState::Loss));
    assert_eq!(
        game.get_possible_actions(BlackjackState::Running(15, 4, false)),
        vec![BlackjackAction::Hit, BlackjackAction::Stick]
    );
    let mut rng = rand_chacha::ChaCha20Rng::seed_from_u64(17);
    for _ in 0..100 {
        let card = game.draw_card(&mut rng);
        assert!((1..=10).contains(&card));
    }
    assert_eq!(game.action_index(BlackjackAction::Stick), IndexAction(1));
}

#[test]
fn intersection_state_enumeration() {
    let s = IntersectionState {
        light_state: LightState::EastWestOpen,
        ns_cars: 2,
        ew_cars: 1,
    };
    assert_eq!(s.to_index(3), IndexState(16 + 8 + 1));
    let joint = MAState::compose(
        LightState::NorthSouthOpen,
        LightState::ChangingToEW,
        1,
        2,
        3,
        4,
    );
    assert_eq!(joint.ns_cars_1, 1);
    assert_eq!(joint.ew_cars_2, 4);
    assert_eq!(
        Action(LightAction::Stay, LightAction::Change).to_index(),
        IndexAction(3)
    );
}
