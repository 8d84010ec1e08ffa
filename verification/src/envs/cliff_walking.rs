//! The cliff-walking grid world: 4 rows by 12 columns, a start cell at
//! the lower left, a goal at the lower right, and a cliff between
//! them.  Every move costs one; stepping onto the cliff costs one
//! hundred; reaching the goal costs nothing.  Moves into a wall stay
//! in place.  The lower row past the start is terminal.

use crate::fixed::{Fixed, SCALE};
use crate::mdp::{IndexAction, IndexState, MapMdp, Transition};
use crate::rng::sum_u64;
use crate::table::{key_lt, lemma_lookup_absent, lemma_lookup_at_entry, lemma_store_append, lookup};
use vstd::prelude::*;

verus! {

/// A grid cell by row (0 at the top) and column.
#[derive(Clone, Copy, Debug, PartialEq, Eq, Structural, Hash)]
pub struct CliffWalkingState(pub usize, pub usize);

#[derive(Clone, Copy, Debug, PartialEq, Eq, Structural, Hash)]
pub enum CliffWalkingAction {
    Up,
    Down,
    Left,
    Right,
}

/// Rows of the grid.
pub const ROWS: usize = 4;

/// Columns of the grid.
pub const COLS: usize = 12;

impl CliffWalkingState {
    /// The engine-facing id of a cell: row-major position.
    pub fn to_index(self) -> (r: IndexState)
        requires
            self.0 < ROWS,
            self.1 < COLS,
        ensures
            r.0 == self.0 * 12 + self.1,
    {
        IndexState(self.0 * COLS + self.1)
    }
}

impl CliffWalkingAction {
    /// The engine-facing id of a move.
    pub fn to_index(self) -> (r: IndexAction)
        ensures
            r.0 == match self {
                CliffWalkingAction::Up => 0int,
                CliffWalkingAction::Down => 1int,
                CliffWalkingAction::Left => 2int,
                CliffWalkingAction::Right => 3int,
            },
    {
        match self {
            CliffWalkingAction::Up => IndexAction(0),
            CliffWalkingAction::Down => IndexAction(1),
            CliffWalkingAction::Left => IndexAction(2),
            CliffWalkingAction::Right => IndexAction(3),
        }
    }
}

/// A sure transition to the given cell with the given reward units.
pub open spec fn cliff_arrow(row: int, col: int, units: int) -> Transition {
    Transition {
        prob: Fixed(SCALE),
        next: IndexState((row * 12 + col) as usize),
        reward: Fixed(units as i64),
    }
}

/// The single transition of one cell and move: walls keep the walker
/// in place at step cost; moving onto the cliff costs one hundred;
/// reaching the goal costs nothing; every other move costs one step.
pub open spec fn cliff_transition(row: int, col: int, a: int) -> Transition {
    if a == 0 {
        if row == 0 {
            cliff_arrow(row, col, -1000000)
        } else {
            cliff_arrow(row - 1, col, -1000000)
        }
    } else if a == 1 {
        if row + 1 == 4 {
            cliff_arrow(row, col, -1000000)
        } else {
            cliff_arrow(
                row + 1,
                col,
                if row + 1 == 3 && 1 <= col <= 10 {
                    -100000000
                } else if row + 1 == 3 && col == 11 {
                    0
                } else {
                    -1000000
                },
            )
        }
    } else if a == 2 {
        if col == 0 {
            cliff_arrow(row, col, -1000000)
        } else {
            cliff_arrow(row, col - 1, -1000000)
        }
    } else {
        if col + 1 == 12 {
            cliff_arrow(row, col, -1000000)
        } else {
            cliff_arrow(
                row,
                col + 1,
                if row == 3 && 1 <= col + 1 <= 10 {
                    -100000000
                } else if row == 3 && col + 1 == 11 {
                    0
                } else {
                    -1000000
                },
            )
        }
    }
}

/// Build the cliff-walking grid as an engine MDP: one sure transition
/// per cell and move, discount one, start at the lower-left cell, and
/// the lower row past the start terminal.
pub fn build_mdp() -> (r: MapMdp)
    ensures
        r.wf(),
        r.initial() == IndexState(36),
        r.discount() == Fixed(SCALE),
        r.pairs().len() == 192,
        forall|i: int|
            0 <= i < 192 ==> #[trigger] r.pairs()[i] == (
                IndexState((i / 4) as usize),
                IndexAction((i % 4) as usize),
            ),
        r.terminals().len() == 11,
        forall|i: int| 0 <= i < 11 ==> #[trigger] r.terminals()[i] == IndexState((37 + i) as usize),
        forall|row: int, col: int, a: int|
            0 <= row < 4 && 0 <= col < 12 && 0 <= a < 4 ==> ({
                let l = #[trigger] lookup(
                    r.trans(),
                    (IndexState((row * 12 + col) as usize), IndexAction(a as usize)),
                );
                l is Some && l.unwrap()@ =~= seq![cliff_transition(row, col, a)]
            }),
{
    let mut m = MapMdp::new(Fixed(SCALE), IndexState(36));
    let mut i: usize = 0;
    while i < 192
        invariant
            i <= 192,
            m.wf(),
            m.initial() == IndexState(36),
            m.discount() == Fixed(SCALE),
            m.terminals().len() == 0,
            m.pairs().len() == i,
            m.trans().len() == i,
            forall|j: int|
                0 <= j < i ==> #[trigger] m.pairs()[j] == (
                    IndexState((j / 4) as usize),
                    IndexAction((j % 4) as usize),
                ),
            forall|j: int|
                0 <= j < i ==> (#[trigger] m.trans()[j]).0 == (
                    IndexState((j / 4) as usize),
                    IndexAction((j % 4) as usize),
                ),
            forall|j: int|
                0 <= j < i ==> (#[trigger] m.trans()[j]).1@ =~= seq![
                    cliff_transition(((j / 4) / 12) as int, ((j / 4) % 12) as int, (j % 4) as int),
                ],
        decreases 192 - i,
    {
        let sid = i / 4;
        let a = i % 4;
        let row = sid / 12;
        let col = sid % 12;
        // the move's single transition
        let t: Transition = if a == 0 {
            if row == 0 {
                arrow(row, col, -1000000)
            } else {
                arrow(row - 1, col, -1000000)
            }
        } else if a == 1 {
            if row + 1 == 4 {
                arrow(row, col, -1000000)
            } else {
                arrow(
                    row + 1,
                    col,
                    if row + 1 == 3 && 1 <= col && col <= 10 {
                        -100000000
                    } else if row + 1 == 3 && col == 11 {
                        0
                    } else {
                        -1000000
                    },
                )
            }
        } else if a == 2 {
            if col == 0 {
                arrow(row, col, -1000000)
            } else {
                arrow(row, col - 1, -1000000)
            }
        } else {
            if col + 1 == 12 {
                arrow(row, col, -1000000)
            } else {
                arrow(
                    row,
                    col + 1,
                    if row == 3 && 1 <= col + 1 && col + 1 <= 10 {
                        -100000000
                    } else if row == 3 && col + 1 == 11 {
                        0
                    } else {
                        -1000000
                    },
                )
            }
        };
        proof {
            assert(t == cliff_transition(row as int, col as int, a as int));
        }
        let mut tvec: Vec<Transition> = Vec::new();
        tvec.push(t);
        let ghost tvg = tvec;
        let ghost trans_pre = m.trans();
        let key = (IndexState(sid), IndexAction(a));
        proof {
            assert forall|j: int| 0 <= j < trans_pre.len() implies key_lt(
                (#[trigger] trans_pre[j]).0,
                key,
            ) by {
                assert(trans_pre[j].0 == (
                    IndexState((j / 4) as usize),
                    IndexAction((j % 4) as usize),
                ));
                assert(j / 4 < i / 4 || (j / 4 == i / 4 && j % 4 < i % 4)) by (nonlinear_arith)
                    requires
                        0 <= j < i as int,
                ;
            }
            assert forall|j: int| 0 <= j < trans_pre.len() implies (#[trigger] trans_pre[j]).0
                != key by {
                assert(key_lt(trans_pre[j].0, key));
            }
            lemma_lookup_absent(trans_pre, key);
            lemma_single_trans_wf(tvg@);
            lemma_store_append(trans_pre, key, tvg);
        }
        let res = m.add_transition_vector(key, tvec);
        proof {
            assert(res is Ok);
            assert(m.trans() == crate::table::store(trans_pre, key, tvg));
            assert(m.trans() =~= trans_pre.push((key, tvg)));
            assert forall|j: int| 0 <= j < i + 1 implies (#[trigger] m.trans()[j]).0 == (
                IndexState((j / 4) as usize),
                IndexAction((j % 4) as usize),
            ) && (#[trigger] m.trans()[j]).1@ =~= seq![
                cliff_transition(((j / 4) / 12) as int, ((j / 4) % 12) as int, (j % 4) as int),
            ] by {
                if j < i {
                    assert(m.trans()[j] == trans_pre[j]);
                } else {
                    assert(m.trans()[j] == (key, tvg));
                    assert(j / 4 == sid && j % 4 == a);
                    assert((j / 4) / 12 == row as int && (j / 4) % 12 == col as int);
                }
            }
        }
        i += 1;
    }
    let mut k: usize = 0;
    while k < 11
        invariant
            k <= 11,
            m.wf(),
            m.initial() == IndexState(36),
            m.discount() == Fixed(SCALE),
            m.pairs().len() == 192,
            forall|j: int|
                0 <= j < 192 ==> #[trigger] m.pairs()[j] == (
                    IndexState((j / 4) as usize),
                    IndexAction((j % 4) as usize),
                ),
            forall|j: int|
                0 <= j < 192 ==> (#[trigger] m.trans()[j]).0 == (
                    IndexState((j / 4) as usize),
                    IndexAction((j % 4) as usize),
                ),
            forall|j: int|
                0 <= j < 192 ==> (#[trigger] m.trans()[j]).1@ =~= seq![
                    cliff_transition(((j / 4) / 12) as int, ((j / 4) % 12) as int, (j % 4) as int),
                ],
            m.terminals().len() == k,
            forall|j: int|
                0 <= j < k ==> #[trigger] m.terminals()[j] == IndexState((37 + j) as usize),
            m.trans().len() == 192,
        decreases 11 - k,
    {
        m.add_terminal_state(IndexState(37 + k));
        k += 1;
    }
    proof {
        assert forall|row: int, col: int, a: int|
            0 <= row < 4 && 0 <= col < 12 && 0 <= a < 4 implies ({
            let l = #[trigger] lookup(
                m.trans(),
                (IndexState((row * 12 + col) as usize), IndexAction(a as usize)),
            );
            l is Some && l.unwrap()@ =~= seq![cliff_transition(row, col, a)]
        }) by {
            let j = (row * 12 + col) * 4 + a;
            assert(0 <= j < 192) by (nonlinear_arith)
                requires
                    0 <= row < 4,
                    0 <= col < 12,
                    0 <= a < 4,
                    j == (row * 12 + col) * 4 + a,
            ;
            assert(j / 4 == row * 12 + col && j % 4 == a) by (nonlinear_arith)
                requires
                    0 <= a < 4,
                    j == (row * 12 + col) * 4 + a,
                    0 <= row * 12 + col,
            ;
            assert((j / 4) / 12 == row && (j / 4) % 12 == col) by (nonlinear_arith)
                requires
                    j / 4 == row * 12 + col,
                    0 <= col < 12,
                    0 <= row,
            ;
            assert(m.trans()[j].0 == (
                IndexState((row * 12 + col) as usize),
                IndexAction(a as usize),
            ));
            lemma_lookup_at_entry(m.trans(), j);
        }
    }
    m
}

/// A sure transition built at run time.
fn arrow(row: usize, col: usize, units: i64) -> (r: Transition)
    requires
        row < 4,
        col < 12,
    ensures
        r == cliff_arrow(row as int, col as int, units as int),
{
    Transition { prob: Fixed(SCALE), next: IndexState(row * 12 + col), reward: Fixed(units) }
}

/// A single sure transition carries exactly the full weight.
proof fn lemma_single_trans_wf(ts: Seq<Transition>)
    requires
        ts.len() == 1,
        ts[0].prob.0 == SCALE,
    ensures
        crate::mdp::trans_wf(ts),
{
    let w = crate::mdp::weights_of(ts);
    assert(w.len() == 1 && w[0] == SCALE as u64);
    assert(w.drop_first() =~= Seq::<u64>::empty());
    assert(sum_u64(Seq::<u64>::empty()) == 0);
    assert(sum_u64(w) == SCALE);
}

} // verus!
