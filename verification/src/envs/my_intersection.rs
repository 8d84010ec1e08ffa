//! The traffic-intersection environment's state and action
//! vocabulary: a light phase and two bounded queue lengths.

use crate::mdp::IndexState;
use vstd::prelude::*;

verus! {

/// Phase of the traffic light.
#[derive(Clone, Copy, Debug, PartialEq, Eq, Structural, Hash)]
pub enum LightState {
    NorthSouthOpen,
    EastWestOpen,
    ChangingToNS,
    ChangingToEW,
}

/// What the controller may do with the light.
#[derive(Clone, Copy, Debug, PartialEq, Eq, Structural, Hash)]
pub enum LightAction {
    Change,
    Stay,
    WaitForChange,
}

/// One intersection configuration: light phase and the cars waiting
/// on each axis.
#[derive(Clone, Copy, Debug, PartialEq, Eq, Structural, Hash)]
pub struct IntersectionState {
    pub light_state: LightState,
    pub ns_cars: usize,
    pub ew_cars: usize,
}

/// The rank of a light phase in the state enumeration.
pub open spec fn light_rank(l: LightState) -> int {
    match l {
        LightState::NorthSouthOpen => 0,
        LightState::EastWestOpen => 1,
        LightState::ChangingToNS => 2,
        LightState::ChangingToEW => 3,
    }
}

impl IntersectionState {
    /// Within bounds for an intersection holding at most `max_cars`
    /// on each axis.
    pub open spec fn bounded(&self, max_cars: usize) -> bool {
        self.ns_cars <= max_cars && self.ew_cars <= max_cars
    }

    /// The engine-facing id of a configuration: phases enumerate the
    /// outer blocks, then north-south cars, then east-west cars.
    pub fn to_index(self, max_cars: usize) -> (r: IndexState)
        requires
            self.bounded(max_cars),
            (max_cars + 1) * (max_cars + 1) * 4 <= usize::MAX,
        ensures
            r.0 == light_rank(self.light_state) * ((max_cars + 1) * (max_cars + 1))
                + self.ns_cars * (max_cars + 1) + self.ew_cars,
    {
        proof {
            lemma_index_bounds(
                light_rank(self.light_state),
                self.ns_cars as int,
                self.ew_cars as int,
                max_cars as int,
            );
        }
        proof {
            assert((max_cars as int + 1) * (max_cars as int + 1) <= usize::MAX && max_cars as int
                + 1 <= usize::MAX) by (nonlinear_arith)
                requires
                    (max_cars as int + 1) * (max_cars as int + 1) * 4 <= usize::MAX,
                    0 <= max_cars as int,
            ;
        }
        let block = (max_cars + 1) * (max_cars + 1);
        let rank: usize = match self.light_state {
            LightState::NorthSouthOpen => 0,
            LightState::EastWestOpen => 1,
            LightState::ChangingToNS => 2,
            LightState::ChangingToEW => 3,
        };
        IndexState(rank * block + self.ns_cars * (max_cars + 1) + self.ew_cars)
    }
}

/// The enumeration stays within the advertised block bounds.
proof fn lemma_index_bounds(rank: int, ns: int, ew: int, max_cars: int)
    requires
        0 <= rank < 4,
        0 <= ns <= max_cars,
        0 <= ew <= max_cars,
        (max_cars + 1) * (max_cars + 1) * 4 <= usize::MAX,
    ensures
        rank * ((max_cars + 1) * (max_cars + 1)) + ns * (max_cars + 1) + ew <= usize::MAX,
        0 <= rank * ((max_cars + 1) * (max_cars + 1)),
        0 <= ns * (max_cars + 1),
{
    let b = (max_cars + 1) * (max_cars + 1);
    assert(rank * b + ns * (max_cars + 1) + ew < 4 * b && 0 <= rank * b && 0 <= ns * (max_cars
        + 1)) by (nonlinear_arith)
        requires
            0 <= rank < 4,
            0 <= ns <= max_cars,
            0 <= ew <= max_cars,
            b == (max_cars + 1) * (max_cars + 1),
    ;
    assert(4 * b <= usize::MAX) by (nonlinear_arith)
        requires
            b == (max_cars + 1) * (max_cars + 1),
            (max_cars + 1) * (max_cars + 1) * 4 <= usize::MAX,
    ;
}

} // verus!
