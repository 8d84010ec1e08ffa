//! The two-intersection scenario's joint state and action vocabulary.

use crate::envs::my_intersection::{light_rank, LightAction, LightState};
use vstd::prelude::*;

verus! {

/// The joint configuration of both intersections: each light's phase
/// and the cars waiting on each axis of each.
#[derive(Clone, Copy, Debug, PartialEq, Eq, Structural, Hash)]
pub struct MAState {
    pub light_state_1: LightState,
    pub light_state_2: LightState,
    pub ns_cars_1: u8,
    pub ew_cars_1: u8,
    pub ns_cars_2: u8,
    pub ew_cars_2: u8,
}

impl MAState {
    /// Assemble a joint state from its parts.
    pub fn compose(
        light_state_1: LightState,
        light_state_2: LightState,
        ns_cars_1: u8,
        ew_cars_1: u8,
        ns_cars_2: u8,
        ew_cars_2: u8,
    ) -> (r: MAState)
        ensures
            r == (MAState { light_state_1, light_state_2, ns_cars_1, ew_cars_1, ns_cars_2, ew_cars_2 }),
    {
        MAState { light_state_1, light_state_2, ns_cars_1, ew_cars_1, ns_cars_2, ew_cars_2 }
    }

    /// Within bounds for intersections holding at most `max_cars` on
    /// each axis.
    pub open spec fn bounded(&self, max_cars: u8) -> bool {
        &&& self.ns_cars_1 <= max_cars
        &&& self.ew_cars_1 <= max_cars
        &&& self.ns_cars_2 <= max_cars
        &&& self.ew_cars_2 <= max_cars
    }
}

/// One joint move: an action for each light.
#[derive(Clone, Copy, Debug, PartialEq, Eq, Structural, Hash)]
pub struct Action(pub LightAction, pub LightAction);

/// The rank of a light action in the action enumeration.
pub open spec fn action_rank(a: LightAction) -> int {
    match a {
        LightAction::Change => 0,
        LightAction::Stay => 1,
        LightAction::WaitForChange => 2,
    }
}

impl Action {
    /// The engine-facing id of a joint move: first light's action in
    /// the outer block.
    pub fn to_index(self) -> (r: crate::mdp::IndexAction)
        ensures
            r.0 == action_rank(self.0) * 3 + action_rank(self.1),
    {
        let r0: usize = match self.0 {
            LightAction::Change => 0,
            LightAction::Stay => 1,
            LightAction::WaitForChange => 2,
        };
        let r1: usize = match self.1 {
            LightAction::Change => 0,
            LightAction::Stay => 1,
            LightAction::WaitForChange => 2,
        };
        crate::mdp::IndexAction(r0 * 3 + r1)
    }
}

} // verus!
