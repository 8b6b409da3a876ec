//! Per-coordinate cell state tracking: the authoritative collection of
//! hidden/flagged/revealed marks, with maintained counters.

use vstd::prelude::*;

use crate::coord::{cell_index, in_bounds, lemma_cell_index_bounds, Coord};
use crate::GameError;

verus! {

/// The state a cell is in. Every cell is in exactly one of the three.
#[derive(Clone, Copy, Debug, PartialEq, Eq, Structural)]
pub enum CellState {
    Hidden,
    Flagged,
    Revealed,
}

/// How many entries of `s` hold state `t`.
pub open spec fn count_state(s: Seq<CellState>, t: CellState) -> nat
    decreases s.len(),
{
    if s.len() == 0 {
        0
    } else {
        count_state(s.drop_last(), t) + (if s.last() == t {
            1nat
        } else {
            0nat
        })
    }
}

/// A state count never exceeds the number of cells.
pub proof fn lemma_count_le_len(s: Seq<CellState>, t: CellState)
    ensures
        count_state(s, t) <= s.len(),
    decreases s.len(),
{
    if s.len() > 0 {
        lemma_count_le_len(s.drop_last(), t);
    }
}

/// Hidden, flagged and revealed cells together account for every cell.
pub proof fn lemma_count_partition(s: Seq<CellState>)
    ensures
        count_state(s, CellState::Hidden) + count_state(s, CellState::Flagged) + count_state(
            s,
            CellState::Revealed,
        ) == s.len(),
    decreases s.len(),
{
    if s.len() > 0 {
        lemma_count_partition(s.drop_last());
    }
}

/// Appending one entry raises exactly the count of its state.
pub proof fn lemma_count_push(s: Seq<CellState>, v: CellState, t: CellState)
    ensures
        count_state(s.push(v), t) == count_state(s, t) + (if v == t {
            1nat
        } else {
            0nat
        }),
{
    assert(s.push(v).drop_last() =~= s);
}

/// Overwriting one entry moves at most one unit of count between the old
/// state and the new one.
pub proof fn lemma_count_update(s: Seq<CellState>, i: int, v: CellState, t: CellState)
    requires
        0 <= i < s.len(),
    ensures
        count_state(s.update(i, v), t) == count_state(s, t) - (if s[i] == t {
            1int
        } else {
            0int
        }) + (if v == t {
            1int
        } else {
            0int
        }),
    decreases s.len(),
{
    if i == s.len() - 1 {
        assert(s.update(i, v).drop_last() =~= s.drop_last());
        assert(s.update(i, v).last() == v);
    } else {
        assert(s.update(i, v).drop_last() =~= s.drop_last().update(i, v));
        assert(s.update(i, v).last() == s.last());
        lemma_count_update(s.drop_last(), i, v, t);
    }
}

/// A state that occurs at some index contributes to its count.
pub proof fn lemma_count_pos(s: Seq<CellState>, i: int, t: CellState)
    requires
        0 <= i < s.len(),
        s[i] == t,
    ensures
        count_state(s, t) >= 1,
    decreases s.len(),
{
    if i < s.len() - 1 {
        lemma_count_pos(s.drop_last(), i, t);
    }
}

/// On a consistent store the three counters account for every cell: revealed
/// plus hidden plus flagged cells equal the board size, at all times.
pub proof fn lemma_counters_partition(s: CellStore)
    requires
        s.wf(),
    ensures
        s.revealed + count_state(s.states@, CellState::Hidden) + s.flagged == s.width * s.height,
{
    lemma_count_partition(s.states@);
}

/// Flagging a hidden cell and unflagging it returns the store to exactly its
/// prior state: nothing else is cached or left behind.
pub proof fn lemma_flag_roundtrip(s: Seq<CellState>, i: int)
    requires
        0 <= i < s.len(),
        s[i] == CellState::Hidden,
    ensures
        s.update(i, CellState::Flagged).update(i, CellState::Hidden) == s,
{
    assert(s.update(i, CellState::Flagged).update(i, CellState::Hidden) =~= s);
}

/// The authoritative store of cell states, keyed by coordinate through the
/// row-major index, with revealed/flagged counters maintained on every write.
pub struct CellStore {
    pub width: u32,
    pub height: u32,
    pub states: Vec<CellState>,
    pub revealed: usize,
    pub flagged: usize,
}

impl CellStore {
    /// Number of cells on the board.
    pub open spec fn total(self) -> int {
        self.width * self.height
    }

    /// The store is consistent: one state per cell, counters exact.
    pub open spec fn wf(self) -> bool {
        &&& self.states@.len() == self.total()
        &&& self.revealed == count_state(self.states@, CellState::Revealed)
        &&& self.flagged == count_state(self.states@, CellState::Flagged)
    }

    /// The state recorded for coordinate `c`.
    pub open spec fn state_at(self, c: Coord) -> CellState {
        self.states@[cell_index(self.width, c)]
    }

    /// A fresh store with every cell hidden.
    pub fn new(width: u32, height: u32) -> (r: CellStore)
        requires
            width * height <= usize::MAX,
        ensures
            r.wf(),
            r.width == width,
            r.height == height,
            r.states@.len() == width * height,
            forall|i: int| 0 <= i < r.states@.len() ==> r.states@[i] == CellState::Hidden,
            r.revealed == 0,
            r.flagged == 0,
    {
        let n: usize = (width as usize) * (height as usize);
        let mut states: Vec<CellState> = Vec::new();
        while states.len() < n
            invariant
                states@.len() <= n,
                forall|i: int| 0 <= i < states@.len() ==> states@[i] == CellState::Hidden,
                count_state(states@, CellState::Revealed) == 0,
                count_state(states@, CellState::Flagged) == 0,
            decreases n - states@.len(),
        {
            proof {
                lemma_count_push(states@, CellState::Hidden, CellState::Revealed);
                lemma_count_push(states@, CellState::Hidden, CellState::Flagged);
            }
            states.push(CellState::Hidden);
        }
        CellStore { width, height, states, revealed: 0, flagged: 0 }
    }

    /// Row-major index of an on-board coordinate.
    fn idx(&self, c: Coord) -> (r: usize)
        requires
            self.wf(),
            in_bounds(c, self.width, self.height),
        ensures
            r == cell_index(self.width, c),
            r < self.states@.len(),
    {
        let n = self.states.len();
        proof {
            lemma_cell_index_bounds(self.width, self.height, c);
            assert(c.y * self.width + c.x < n);
        }
        (c.y as usize) * (self.width as usize) + (c.x as usize)
    }

    /// Current state of a valid coordinate; `Hidden` until first touched.
    pub fn state_of(&self, c: Coord) -> (r: CellState)
        requires
            self.wf(),
            in_bounds(c, self.width, self.height),
        ensures
            r == self.state_at(c),
    {
        let i = self.idx(c);
        self.states[i]
    }

    /// Overwrite one cell's state, keeping the counters exact.
    fn set(&mut self, c: Coord, v: CellState)
        requires
            old(self).wf(),
            in_bounds(c, old(self).width, old(self).height),
        ensures
            final(self).wf(),
            final(self).width == old(self).width,
            final(self).height == old(self).height,
            final(self).states@ == old(self).states@.update(cell_index(old(self).width, c), v),
            final(self).revealed == count_state(final(self).states@, CellState::Revealed),
            final(self).flagged == count_state(final(self).states@, CellState::Flagged),
    {
        let i = self.idx(c);
        let n = self.states.len();
        let was = self.states[i];
        proof {
            lemma_count_update(self.states@, i as int, v, CellState::Revealed);
            lemma_count_update(self.states@, i as int, v, CellState::Flagged);
            lemma_count_le_len(self.states@.update(i as int, v), CellState::Revealed);
            lemma_count_le_len(self.states@.update(i as int, v), CellState::Flagged);
            assert(count_state(self.states@.update(i as int, v), CellState::Revealed) <= n);
            assert(count_state(self.states@.update(i as int, v), CellState::Flagged) <= n);
            if was == CellState::Revealed {
                lemma_count_pos(self.states@, i as int, CellState::Revealed);
            }
            if was == CellState::Flagged {
                lemma_count_pos(self.states@, i as int, CellState::Flagged);
            }
        }
        self.states[i] = v;
        if was == CellState::Revealed {
            self.revealed = self.revealed - 1;
        }
        if was == CellState::Flagged {
            self.flagged = self.flagged - 1;
        }
        if v == CellState::Revealed {
            self.revealed = self.revealed + 1;
        }
        if v == CellState::Flagged {
            self.flagged = self.flagged + 1;
        }
    }

    /// Transition a cell to `Revealed`. Idempotent on a revealed cell;
    /// rejected with `InvalidTransition` on a flagged cell, which must be
    /// unflagged explicitly first.
    pub fn reveal_cell(&mut self, c: Coord) -> (r: Result<(), GameError>)
        requires
            old(self).wf(),
            in_bounds(c, old(self).width, old(self).height),
        ensures
            final(self).wf(),
            final(self).width == old(self).width,
            final(self).height == old(self).height,
            old(self).state_at(c) == CellState::Flagged ==> r == Err::<(), GameError>(
                GameError::InvalidTransition,
            ) && *final(self) == *old(self),
            old(self).state_at(c) != CellState::Flagged ==> r == Ok::<(), GameError>(()),
            old(self).state_at(c) == CellState::Revealed ==> *final(self) == *old(self),
            old(self).state_at(c) == CellState::Hidden ==> {
                &&& final(self).states@ == old(self).states@.update(
                    cell_index(old(self).width, c),
                    CellState::Revealed,
                )
                &&& final(self).revealed == old(self).revealed + 1
                &&& final(self).flagged == old(self).flagged
            },
    {
        let was = self.state_of(c);
        match was {
            CellState::Flagged => Err(GameError::InvalidTransition),
            CellState::Revealed => Ok(()),
            CellState::Hidden => {
                proof {
                    lemma_cell_index_bounds(self.width, self.height, c);
                    lemma_count_update(
                        self.states@,
                        cell_index(self.width, c),
                        CellState::Revealed,
                        CellState::Revealed,
                    );
                    lemma_count_update(
                        self.states@,
                        cell_index(self.width, c),
                        CellState::Revealed,
                        CellState::Flagged,
                    );
                }
                self.set(c, CellState::Revealed);
                Ok(())
            },
        }
    }

    /// Set or clear the flag mark. A revealed cell is left untouched: flags
    /// only apply to non-revealed cells. Returns whether anything changed.
    pub fn set_flag(&mut self, c: Coord, on: bool) -> (changed: bool)
        requires
            old(self).wf(),
            in_bounds(c, old(self).width, old(self).height),
        ensures
            final(self).wf(),
            final(self).width == old(self).width,
            final(self).height == old(self).height,
            changed == (if on {
                old(self).state_at(c) == CellState::Hidden
            } else {
                old(self).state_at(c) == CellState::Flagged
            }),
            !changed ==> *final(self) == *old(self),
            changed ==> {
                &&& final(self).states@ == old(self).states@.update(
                    cell_index(old(self).width, c),
                    if on {
                        CellState::Flagged
                    } else {
                        CellState::Hidden
                    },
                )
                &&& final(self).revealed == old(self).revealed
                &&& final(self).flagged == old(self).flagged + (if on {
                    1int
                } else {
                    -1int
                })
            },
    {
        let was = self.state_of(c);
        let target = if on {
            CellState::Flagged
        } else {
            CellState::Hidden
        };
        if was == CellState::Revealed || was == target {
            return false;
        }
        proof {
            lemma_cell_index_bounds(self.width, self.height, c);
            lemma_count_update(
                self.states@,
                cell_index(self.width, c),
                target,
                CellState::Revealed,
            );
            lemma_count_update(self.states@, cell_index(self.width, c), target, CellState::Flagged);
        }
        self.set(c, target);
        true
    }

    /// Number of revealed cells, maintained as a counter rather than a scan.
    pub fn count_revealed(&self) -> (r: usize)
        ensures
            r == self.revealed,
    {
        self.revealed
    }

    /// Number of flagged cells, maintained as a counter rather than a scan.
    pub fn count_flagged(&self) -> (r: usize)
        ensures
            r == self.flagged,
    {
        self.flagged
    }

    /// Number of hidden cells: whatever the other two counters leave over.
    pub fn count_hidden(&self) -> (r: usize)
        requires
            self.wf(),
        ensures
            r == count_state(self.states@, CellState::Hidden),
    {
        proof {
            lemma_count_partition(self.states@);
        }
        self.states.len() - self.revealed - self.flagged
    }
}

} // verus!
