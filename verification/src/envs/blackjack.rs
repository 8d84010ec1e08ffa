//! The card-game environment's state and action vocabulary.

use crate::mdp::IndexAction;
use crate::rng::{draw_next, draw_value};
use vstd::prelude::*;

verus! {

/// The dealer side of the card game.
pub struct BlackjackMdp;

/// Player sum (12 to 21), dealer card (1 to 10), usable ace — or a
/// finished round.
#[derive(Clone, Copy, Debug, PartialEq, Eq, Structural, Hash)]
pub enum BlackjackState {
    Running(u8, u8, bool),
    Win,
    Draw,
    Loss,
}

#[derive(Clone, Copy, Debug, PartialEq, Eq, Structural, Hash)]
pub enum BlackjackAction {
    Hit,
    Stick,
}

impl BlackjackMdp {
    /// Draw one card: a value from 1 to 10, uniformly.
    pub fn draw_card(&self, rng: &mut rand_chacha::ChaCha20Rng) -> (r: u8)
        ensures
            1 <= r <= 10,
            r == draw_value(*old(rng), 10) + 1,
            *final (rng) == draw_next(*old(rng), 10),
    {
        (crate::rng::draw_below(rng, 10) as u8) + 1
    }

    /// Both actions are always offered while a round runs.
    pub fn get_possible_actions(&self, _state: BlackjackState) -> (r: Vec<BlackjackAction>)
        ensures
            r@ =~= seq![BlackjackAction::Hit, BlackjackAction::Stick],
    {
        let mut r: Vec<BlackjackAction> = Vec::new();
        r.push(BlackjackAction::Hit);
        r.push(BlackjackAction::Stick);
        r
    }

    /// A round is over exactly when it has been decided.
    pub fn is_terminal(&self, state: BlackjackState) -> (r: bool)
        ensures
            r == !(state is Running),
    {
        match state {
            BlackjackState::Running(_, _, _) => false,
            BlackjackState::Win => true,
            BlackjackState::Draw => true,
            BlackjackState::Loss => true,
        }
    }

    /// The engine-facing id of an action.
    pub fn action_index(&self, action: BlackjackAction) -> (r: IndexAction)
        ensures
            r.0 == (if action is Hit {
                0int
            } else {
                1int
            }),
    {
        match action {
            BlackjackAction::Hit => IndexAction(0),
            BlackjackAction::Stick => IndexAction(1),
        }
    }
}

} // verus!
