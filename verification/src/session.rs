//! One playthrough: the session controller owns the grid, the cell store and
//! the pending-reveal queue, runs the flood-fill clearing algorithm under a
//! step budget, and evaluates the win/loss condition.

use vstd::prelude::*;

use std::collections::VecDeque;

use crate::cells::{lemma_count_le_len, CellState, CellStore};
use crate::coord::{
    cell_index, in_bounds, is_adjacent, lemma_cell_index_bounds, lemma_cell_index_injective, Coord,
};
use crate::grid::{count_adjacent, lemma_count_adjacent_zero, Grid};
use crate::GameError;

verus! {

/// Where the playthrough stands. Entering `Won` or `Lost` freezes every
/// reveal and flag operation.
#[derive(Clone, Copy, Debug, PartialEq, Eq, Structural)]
pub enum SessionStatus {
    Playing,
    Won,
    Lost,
}

/// One observable state change, surfaced to the rendering layer. The
/// adjacency count is carried for cells revealed by clearing and absent for
/// flag changes and end-of-game mine display.
#[derive(Clone, Copy, Debug, PartialEq, Eq)]
pub struct CellDelta {
    pub coord: Coord,
    pub new_state: CellState,
    pub adjacency_count: Option<u32>,
}

/// A session is startable exactly when the board is non-trivial, fits in
/// memory, and leaves at least one safe cell for the first click.
pub open spec fn session_config_ok(width: u32, height: u32, mine_count: u32) -> bool {
    &&& width * height <= usize::MAX
    &&& mine_count + 1 <= width * height
}

/// One playthrough from grid generation to win/loss/reset.
pub struct Session {
    pub grid: Grid,
    pub cells: CellStore,
    pub queue: VecDeque<Coord>,
    pub status: SessionStatus,
    pub mine_count: u32,
    pub mines_placed: bool,
}

impl Session {
    /// Number of cells on the board.
    pub open spec fn total(self) -> int {
        self.grid.width * self.grid.height
    }

    /// Whether `c` lies on this session's board.
    pub open spec fn on_board(self, c: Coord) -> bool {
        in_bounds(c, self.grid.width, self.grid.height)
    }

    /// The state the store records for `c`.
    pub open spec fn state_at(self, c: Coord) -> CellState {
        self.cells.state_at(c)
    }

    /// Whether a mine sits at `c`.
    pub open spec fn mine_at(self, c: Coord) -> bool {
        self.grid.mines@.contains(c)
    }

    /// Number of mines among the neighbors of `c`.
    pub open spec fn adj_at(self, c: Coord) -> nat {
        count_adjacent(self.grid.mines@, c)
    }

    /// The session invariant: grid and store agree on the board, the mine
    /// count is fixed and feasible, the queue stays on the board, no reveal
    /// happens before mines are placed, mines are only ever revealed by the
    /// losing move, and `Won` stands exactly on the winning counts.
    pub open spec fn wf(self) -> bool {
        &&& self.grid.wf()
        &&& self.cells.wf()
        &&& self.cells.width == self.grid.width
        &&& self.cells.height == self.grid.height
        &&& self.total() <= usize::MAX
        &&& self.mine_count + 1 <= self.total()
        &&& (if self.mines_placed {
            self.grid.mines@.len() == self.mine_count as int
        } else {
            self.grid.mines@.len() == 0
        })
        &&& (!self.mines_placed ==> self.cells.revealed == 0 && self.queue@.len() == 0)
        &&& forall|i: int|
            0 <= i < self.queue@.len() ==> in_bounds(
                #[trigger] self.queue@[i],
                self.grid.width,
                self.grid.height,
            )
        &&& (self.status != SessionStatus::Lost ==> forall|i: int|
            0 <= i < self.grid.mines@.len() ==> self.cells.state_at(#[trigger] self.grid.mines@[i])
                != CellState::Revealed)
        &&& (self.status == SessionStatus::Won ==> self.mines_placed && self.win_counts())
    }

    /// The winning counts: every non-mine cell revealed and as many flags as
    /// mines.
    pub open spec fn win_counts(self) -> bool {
        &&& self.cells.revealed == self.total() - self.mine_count
        &&& self.cells.flagged == self.mine_count as int
    }

    /// No clearing work is silently dropped: any unrevealed, unflagged
    /// neighbor of a revealed zero-adjacency cell still waits in the queue.
    /// Holds from the start and through every operation except removing a
    /// flag, which may orphan a cell that the flag had walled off.
    pub open spec fn pending_closed(self) -> bool {
        forall|c: Coord, n: Coord|
            {
                &&& self.on_board(c)
                &&& self.on_board(n)
                &&& #[trigger] is_adjacent(c, n)
                &&& self.state_at(c) == CellState::Revealed
                &&& !self.mine_at(c)
                &&& self.adj_at(c) == 0
                &&& self.state_at(n) != CellState::Revealed
                &&& self.state_at(n) != CellState::Flagged
            } ==> self.queue@.contains(n)
    }

    /// How much clearing work can still happen: every reveal retires one
    /// cell for good and every processed queue entry spawns at most eight
    /// new ones.
    pub open spec fn work_measure(self) -> int {
        9 * (self.total() - self.cells.revealed) + self.queue@.len()
    }

    /// Current terminal state of the session.
    pub fn session_status(&self) -> (r: SessionStatus)
        ensures
            r == self.status,
    {
        self.status
    }

    /// The mine coordinates, consumed by the end-of-game display.
    pub fn bomb_coordinates(&self) -> (r: &Vec<Coord>)
        ensures
            r@ == self.grid.mines@,
    {
        self.grid.bombs()
    }

    /// Re-evaluate the win condition after a state change: every non-mine
    /// cell revealed and every mine flagged, checked over the maintained
    /// counters.
    fn evaluate_win(&mut self)
        requires
            old(self).wf(),
            old(self).status == SessionStatus::Playing,
        ensures
            final(self).wf(),
            final(self).grid == old(self).grid,
            final(self).cells == old(self).cells,
            final(self).queue == old(self).queue,
            final(self).mine_count == old(self).mine_count,
            final(self).mines_placed == old(self).mines_placed,
            final(self).status == (if old(self).win_counts() {
                SessionStatus::Won
            } else {
                SessionStatus::Playing
            }),
    {
        let total = self.cells.states.len();
        if self.cells.count_revealed() == total - (self.mine_count as usize)
            && self.cells.count_flagged() == self.mine_count as usize {
            self.status = SessionStatus::Won;
        }
    }

    /// Process the front queue entry. An entry that is already revealed,
    /// flagged or a mine is skipped without a state change; any other entry
    /// is revealed, and when its adjacency count is zero its unrevealed,
    /// unflagged neighbors join the queue: a numbered cell is a flood-fill
    /// boundary.
    fn step(&mut self) -> (r: Option<CellDelta>)
        requires
            old(self).wf(),
            old(self).status == SessionStatus::Playing,
            old(self).queue@.len() > 0,
        ensures
            final(self).wf(),
            final(self).grid == old(self).grid,
            final(self).status == old(self).status,
            final(self).mine_count == old(self).mine_count,
            final(self).mines_placed == old(self).mines_placed,
            final(self).work_measure() < old(self).work_measure(),
            old(self).pending_closed() ==> final(self).pending_closed(),
            final(self).cells.flagged == old(self).cells.flagged,
            final(self).cells.width == old(self).cells.width,
            final(self).cells.height == old(self).cells.height,
            forall|t: int|
                0 <= t < final(self).queue@.len() ==> old(self).queue@.contains(
                    #[trigger] final(self).queue@[t],
                ) || (r is Some && old(self).adj_at(old(self).queue@[0]) == 0 && is_adjacent(
                    old(self).queue@[0],
                    final(self).queue@[t],
                )),
            final(self).queue@.len() >= old(self).queue@.len() - 1,
            forall|u: int|
                1 <= u < old(self).queue@.len() ==> final(self).queue@[u - 1] == #[trigger] old(
                    self,
                ).queue@[u],
            match r {
                None => {
                    &&& final(self).cells == old(self).cells
                    &&& final(self).queue@ == old(self).queue@.subrange(
                        1,
                        old(self).queue@.len() as int,
                    )
                    &&& (old(self).state_at(old(self).queue@[0]) == CellState::Revealed || old(self).state_at(old(self).queue@[0]) == CellState::Flagged || old(self).mine_at(
                        old(self).queue@[0],
                    ))
                },
                Some(d) => {
                    let front = old(self).queue@[0];
                    &&& d.coord == front
                    &&& old(self).state_at(front) == CellState::Hidden
                    &&& !old(self).mine_at(front)
                    &&& final(self).cells.states@ == old(self).cells.states@.update(
                        cell_index(old(self).grid.width, front),
                        CellState::Revealed,
                    )
                    &&& final(self).cells.revealed == old(self).cells.revealed + 1
                    &&& d.new_state == CellState::Revealed
                    &&& (d.adjacency_count matches Some(a) && a == old(self).adj_at(front))
                },
            },
    {
        let front_opt = self.queue.pop_front();
        let front = match front_opt {
            Some(f) => f,
            None => {
                proof {
                    assert(false);
                }
                Coord::new(0, 0)
            },
        };
        let ghost rest = self.queue@;
        let w = self.grid.width;
        let h = self.grid.height;
        proof {
            assert(old(self).queue@[0] == front);
            assert(in_bounds(front, w, h));
            assert forall|i: int| 0 <= i < rest.len() implies in_bounds(
                #[trigger] rest[i],
                w,
                h,
            ) by {
                assert(rest[i] == old(self).queue@[i + 1]);
            }
        }
        let front_is_mine = self.grid.is_mine(front);
        let front_state = self.cells.state_of(front);
        if front_is_mine || front_state == CellState::Revealed || front_state
            == CellState::Flagged {
            proof {
                if old(self).pending_closed() {
                    assert forall|a: Coord, n: Coord|
                        {
                            &&& self.on_board(a)
                            &&& self.on_board(n)
                            &&& #[trigger] is_adjacent(a, n)
                            &&& self.state_at(a) == CellState::Revealed
                            &&& !self.mine_at(a)
                            &&& self.adj_at(a) == 0
                            &&& self.state_at(n) != CellState::Revealed
                            &&& self.state_at(n) != CellState::Flagged
                        } implies self.queue@.contains(n) by {
                        lemma_dequeue_membership(old(self).queue@, n);
                        if n == front {
                            assert(old(self).state_at(front) != CellState::Revealed && old(self).state_at(front) != CellState::Flagged);
                            assert(old(self).mine_at(front));
                            let t = choose|t: int|
                                0 <= t < self.grid.mines@.len() && self.grid.mines@[t] == front;
                            lemma_count_adjacent_zero(self.grid.mines@, a);
                            assert(!is_adjacent(a, self.grid.mines@[t]));
                            assert(false);
                        }
                    }
                }
            }
            return None;
        }
        proof {
            assert(self.grid.mines@.len() <= u32::MAX);
        }
        let adj = self.grid.adjacent_mines(front);
        let _revealed = self.cells.reveal_cell(front);
        proof {
            lemma_mines_stay_unrevealed(*old(self), *self, front, CellState::Revealed);
            lemma_cell_index_bounds(w, h, front);
        }
        if adj > 0 {
            proof {
                assert forall|t: int|
                    0 <= t < self.queue@.len() implies old(self).queue@.contains(
                    #[trigger] self.queue@[t],
                ) by {
                    assert(old(self).queue@[t + 1] == self.queue@[t]);
                }
                if old(self).pending_closed() {
                    lemma_reveal_numbered_keeps_closed(*old(self), *self, front);
                }
            }
            return Some(
                CellDelta {
                    coord: front,
                    new_state: CellState::Revealed,
                    adjacency_count: Some(adj),
                },
            );
        }
        let nbrs = neighbors(front, w, h);
        let mut i: usize = 0;
        while i < nbrs.len()
            invariant
                old(self).wf(),
                self.grid == old(self).grid,
                self.status == old(self).status,
                self.mine_count == old(self).mine_count,
                self.mines_placed == old(self).mines_placed,
                self.cells.wf(),
                self.cells.width == w,
                self.cells.height == h,
                w == old(self).grid.width,
                h == old(self).grid.height,
                in_bounds(front, w, h),
                self.cells.states@ == old(self).cells.states@.update(
                    cell_index(w, front),
                    CellState::Revealed,
                ),
                self.cells.revealed == old(self).cells.revealed + 1,
                self.cells.flagged == old(self).cells.flagged,
                i <= nbrs@.len(),
                nbrs@.len() <= 8,
                forall|t: int|
                    0 <= t < nbrs@.len() ==> in_bounds(#[trigger] nbrs@[t], w, h) && is_adjacent(
                        front,
                        nbrs@[t],
                    ),
                self.queue@.len() <= rest.len() + i,
                self.queue@.len() >= rest.len(),
                forall|u: int| 0 <= u < rest.len() ==> self.queue@[u] == #[trigger] rest[u],
                forall|x: Coord| #[trigger] rest.contains(x) ==> self.queue@.contains(x),
                forall|t: int|
                    0 <= t < i && old(self).state_at(#[trigger] nbrs@[t]) != CellState::Revealed
                        && old(self).state_at(nbrs@[t]) != CellState::Flagged
                        ==> self.queue@.contains(nbrs@[t]),
                forall|q: int| 0 <= q < self.queue@.len() ==> in_bounds(#[trigger] self.queue@[q], w, h),
                forall|t: int|
                    0 <= t < self.queue@.len() ==> old(self).queue@.contains(
                        #[trigger] self.queue@[t],
                    ) || is_adjacent(front, self.queue@[t]),
            decreases nbrs@.len() - i,
        {
            let n = nbrs[i];
            proof {
                lemma_cell_index_bounds(w, h, n);
                lemma_cell_index_bounds(w, h, front);
                if cell_index(w, n) == cell_index(w, front) {
                    lemma_cell_index_injective(w, h, n, front);
                }
                assert(self.cells.state_at(n) == old(self).state_at(n));
            }
            let ns = self.cells.state_of(n);
            if !(ns == CellState::Revealed || ns == CellState::Flagged) {
                proof {
                    lemma_seq_push_contains(self.queue@, n);
                }
                self.queue.push_back(n);
            }
            i = i + 1;
        }
        proof {
            assert forall|u: int|
                1 <= u < old(self).queue@.len() implies self.queue@[u - 1] == #[trigger] old(
                self,
            ).queue@[u] by {
                assert(self.queue@[u - 1] == rest[u - 1]);
            }
            if old(self).pending_closed() {
                assert forall|a: Coord, n: Coord|
                    {
                        &&& self.on_board(a)
                        &&& self.on_board(n)
                        &&& #[trigger] is_adjacent(a, n)
                        &&& self.state_at(a) == CellState::Revealed
                        &&& !self.mine_at(a)
                        &&& self.adj_at(a) == 0
                        &&& self.state_at(n) != CellState::Revealed
                        &&& self.state_at(n) != CellState::Flagged
                    } implies self.queue@.contains(n) by {
                    lemma_cell_index_bounds(w, h, a);
                    lemma_cell_index_bounds(w, h, n);
                    if cell_index(w, n) == cell_index(w, front) {
                        lemma_cell_index_injective(w, h, n, front);
                    }
                    assert(n != front);
                    assert(old(self).state_at(n) == self.state_at(n));
                    if a == front {
                        assert(nbrs@.contains(n));
                        let t = choose|t: int| 0 <= t < nbrs@.len() && nbrs@[t] == n;
                        assert(self.queue@.contains(nbrs@[t]));
                    } else {
                        if cell_index(w, a) == cell_index(w, front) {
                            lemma_cell_index_injective(w, h, a, front);
                        }
                        assert(old(self).state_at(a) == CellState::Revealed);
                        assert(old(self).queue@.contains(n));
                        lemma_dequeue_membership(old(self).queue@, n);
                        assert(rest.contains(n));
                    }
                }
            }
        }
        Some(CellDelta { coord: front, new_state: CellState::Revealed, adjacency_count: Some(adj) })
    }

    /// Drain queued clearing work, processing at most `step_budget` queue
    /// entries, and re-evaluate the win condition. The entries processed are
    /// the front of the queue, oldest first: every hidden mine-free cell
    /// among the first `step_budget` queued entries comes out revealed.
    /// Unfinished work stays queued for the next tick, so pacing policy is
    /// the caller's choice. Returns the cells revealed by this tick. Does
    /// nothing once the game ended.
    pub fn tick(&mut self, step_budget: usize) -> (r: Vec<CellDelta>)
        requires
            old(self).wf(),
        ensures
            final(self).wf(),
            final(self).grid == old(self).grid,
            final(self).mine_count == old(self).mine_count,
            final(self).mines_placed == old(self).mines_placed,
            old(self).pending_closed() ==> final(self).pending_closed(),
            old(self).status != SessionStatus::Playing ==> *final(self) == *old(self) && r@.len()
                == 0,
            old(self).status == SessionStatus::Playing ==> {
                &&& reveal_frame(*old(self), *final(self))
                &&& deltas_exact(*old(self), *final(self), r@)
                &&& reveals_grounded(*old(self), *final(self))
                &&& final(self).cells.flagged == old(self).cells.flagged
                &&& final(self).status == (if final(self).win_counts() {
                    SessionStatus::Won
                } else {
                    SessionStatus::Playing
                })
                &&& (step_budget > 0 && old(self).queue@.len() > 0 ==> final(self).work_measure()
                    < old(self).work_measure())
                &&& r@.len() <= step_budget
                &&& forall|t: int|
                    0 <= t < old(self).queue@.len() && t < step_budget && old(self).state_at(
                        #[trigger] old(self).queue@[t],
                    ) == CellState::Hidden && !old(self).mine_at(old(self).queue@[t])
                        ==> final(self).state_at(old(self).queue@[t]) == CellState::Revealed
            },
    {
        let mut deltas: Vec<CellDelta> = Vec::new();
        if !matches!(self.status, SessionStatus::Playing) {
            return deltas;
        }
        let mut processed: usize = 0;
        while processed < step_budget && self.queue.len() > 0
            invariant
                old(self).wf(),
                old(self).status == SessionStatus::Playing,
                self.wf(),
                self.status == SessionStatus::Playing,
                self.grid == old(self).grid,
                self.mine_count == old(self).mine_count,
                self.mines_placed == old(self).mines_placed,
                self.cells.width == old(self).cells.width,
                self.cells.flagged == old(self).cells.flagged,
                processed <= step_budget,
                reveal_frame(*old(self), *self),
                deltas_exact(*old(self), *self, deltas@),
                reveals_grounded(*old(self), *self),
                forall|t: int|
                    0 <= t < self.queue@.len() ==> old(self).queue@.contains(
                        #[trigger] self.queue@[t],
                    ) || reveal_source(*self, self.queue@[t]),
                deltas@.len() <= processed,
                processed <= old(self).queue@.len() ==> old(self).queue@.len() - processed
                    <= self.queue@.len() && old(self).queue@.subrange(
                    processed as int,
                    old(self).queue@.len() as int,
                ) =~= self.queue@.subrange(0, old(self).queue@.len() - processed),
                forall|t: int|
                    0 <= t < old(self).queue@.len() && t < processed && old(self).state_at(
                        #[trigger] old(self).queue@[t],
                    ) == CellState::Hidden && !old(self).mine_at(old(self).queue@[t])
                        ==> self.state_at(old(self).queue@[t]) == CellState::Revealed,
                processed > 0 ==> self.work_measure() < old(self).work_measure(),
                processed == 0 ==> self.queue@ == old(self).queue@ && self.work_measure() == old(self).work_measure(),
                old(self).pending_closed() ==> self.pending_closed(),
            decreases step_budget - processed,
        {
            let ghost pre_step = *self;
            let ghost ds_before = deltas@;
            let step_delta = self.step();
            proof {
                lemma_compose_step(*old(self), pre_step, *self, step_delta, ds_before);
                lemma_step_grounded(*old(self), pre_step, *self, step_delta);
                let len0: int = old(self).queue@.len() as int;
                if processed < len0 {
                    assert(pre_step.queue@[0] == old(self).queue@[processed as int]) by {
                        assert(pre_step.queue@.subrange(0, len0 - processed)[0]
                            == pre_step.queue@[0]);
                        assert(old(self).queue@.subrange(processed as int, len0)[0] == old(
                            self,
                        ).queue@[processed as int]);
                    }
                }
                if processed + 1 <= len0 {
                    assert(old(self).queue@.subrange(processed + 1, len0) =~= self.queue@.subrange(
                        0,
                        len0 - (processed + 1),
                    )) by {
                        assert forall|j: int|
                            0 <= j < len0 - (processed + 1) implies #[trigger] self.queue@.subrange(
                            0,
                            len0 - (processed + 1),
                        )[j] == old(self).queue@.subrange(processed + 1, len0)[j] by {
                            assert(self.queue@[j] == pre_step.queue@[j + 1]);
                            assert(pre_step.queue@.subrange(0, len0 - processed)[j + 1]
                                == pre_step.queue@[j + 1]);
                            assert(old(self).queue@.subrange(processed as int, len0)[j + 1] == old(
                                self,
                            ).queue@[processed + j + 1]);
                        }
                    }
                }
                assert forall|t: int|
                    0 <= t < old(self).queue@.len() && t < processed + 1 && old(self).state_at(
                        #[trigger] old(self).queue@[t],
                    ) == CellState::Hidden && !old(self).mine_at(old(self).queue@[t]) implies self.state_at(
                    old(self).queue@[t],
                ) == CellState::Revealed by {
                    let e = old(self).queue@[t];
                    assert(in_bounds(e, pre_step.grid.width, pre_step.grid.height));
                    assert(reveal_step_ok(*old(self), pre_step, e));
                    lemma_step_entry_revealed(pre_step, *self, step_delta, e);
                }
            }
            if let Some(d) = step_delta {
                deltas.push(d);
            }
            processed = processed + 1;
        }
        let ghost before_eval = *self;
        self.evaluate_win();
        proof {
            lemma_status_only_change(*old(self), before_eval, *self, deltas@);
        }
        deltas
    }

    /// Drain the queue completely: process clearing work until none is
    /// pending, then re-evaluate the win condition. Equivalent to ticking
    /// with an unbounded budget. Every queued hidden mine-free cell comes out
    /// revealed, and afterwards no revealed zero-adjacency cell has an
    /// unrevealed, unflagged neighbor left: the flood fill owes the reveals
    /// and stops exactly at the numbered or flagged boundary.
    pub fn drain(&mut self) -> (r: Vec<CellDelta>)
        requires
            old(self).wf(),
        ensures
            final(self).wf(),
            final(self).grid == old(self).grid,
            final(self).mine_count == old(self).mine_count,
            final(self).mines_placed == old(self).mines_placed,
            old(self).pending_closed() ==> final(self).pending_closed(),
            old(self).status != SessionStatus::Playing ==> *final(self) == *old(self) && r@.len()
                == 0,
            old(self).status == SessionStatus::Playing ==> {
                &&& reveal_frame(*old(self), *final(self))
                &&& deltas_exact(*old(self), *final(self), r@)
                &&& reveals_grounded(*old(self), *final(self))
                &&& final(self).cells.flagged == old(self).cells.flagged
                &&& final(self).queue@.len() == 0
                &&& forall|t: int|
                    0 <= t < old(self).queue@.len() && old(self).state_at(
                        #[trigger] old(self).queue@[t],
                    ) == CellState::Hidden && !old(self).mine_at(old(self).queue@[t]) ==> final(self).state_at(old(self).queue@[t]) == CellState::Revealed
                &&& final(self).status == (if final(self).win_counts() {
                    SessionStatus::Won
                } else {
                    SessionStatus::Playing
                })
            },
    {
        let mut deltas: Vec<CellDelta> = Vec::new();
        if !matches!(self.status, SessionStatus::Playing) {
            return deltas;
        }
        proof {
            lemma_count_le_len(self.cells.states@, CellState::Revealed);
            assert forall|t: int|
                0 <= t < self.queue@.len() implies self.queue@.contains(
                #[trigger] self.queue@[t],
            ) by {
            }
        }
        while self.queue.len() > 0
            invariant
                old(self).wf(),
                old(self).status == SessionStatus::Playing,
                self.wf(),
                self.status == SessionStatus::Playing,
                self.grid == old(self).grid,
                self.mine_count == old(self).mine_count,
                self.mines_placed == old(self).mines_placed,
                self.cells.width == old(self).cells.width,
                self.cells.flagged == old(self).cells.flagged,
                reveal_frame(*old(self), *self),
                deltas_exact(*old(self), *self, deltas@),
                reveals_grounded(*old(self), *self),
                forall|t: int|
                    0 <= t < self.queue@.len() ==> old(self).queue@.contains(
                        #[trigger] self.queue@[t],
                    ) || reveal_source(*self, self.queue@[t]),
                forall|t: int|
                    0 <= t < old(self).queue@.len() && old(self).state_at(
                        #[trigger] old(self).queue@[t],
                    ) == CellState::Hidden && !old(self).mine_at(old(self).queue@[t])
                        ==> self.state_at(old(self).queue@[t]) == CellState::Revealed
                        || self.queue@.contains(old(self).queue@[t]),
                old(self).pending_closed() ==> self.pending_closed(),
                self.work_measure() >= 0,
            decreases self.work_measure(),
        {
            let ghost pre_step = *self;
            let ghost ds_before = deltas@;
            let step_delta = self.step();
            proof {
                lemma_compose_step(*old(self), pre_step, *self, step_delta, ds_before);
                lemma_step_grounded(*old(self), pre_step, *self, step_delta);
                lemma_count_le_len(self.cells.states@, CellState::Revealed);
                assert forall|t: int|
                    0 <= t < old(self).queue@.len() && old(self).state_at(
                        #[trigger] old(self).queue@[t],
                    ) == CellState::Hidden && !old(self).mine_at(old(self).queue@[t]) implies self.state_at(
                    old(self).queue@[t],
                ) == CellState::Revealed || self.queue@.contains(old(self).queue@[t]) by {
                    let e = old(self).queue@[t];
                    assert(in_bounds(e, pre_step.grid.width, pre_step.grid.height));
                    assert(reveal_step_ok(*old(self), pre_step, e));
                    if pre_step.state_at(e) == CellState::Revealed {
                        lemma_step_entry_revealed(pre_step, *self, step_delta, e);
                    } else if pre_step.queue@.contains(e) {
                        let u = choose|u: int|
                            0 <= u < pre_step.queue@.len() && pre_step.queue@[u] == e;
                        if u == 0 {
                            lemma_step_entry_revealed(pre_step, *self, step_delta, e);
                        } else {
                            assert(self.queue@[u - 1] == e);
                            assert(self.queue@.contains(e));
                        }
                    }
                }
            }
            if let Some(d) = step_delta {
                deltas.push(d);
            }
        }
        let ghost before_eval = *self;
        self.evaluate_win();
        proof {
            lemma_status_only_change(*old(self), before_eval, *self, deltas@);
        }
        deltas
    }

    /// Show every hidden mine after the losing move and report the changes.
    fn reveal_mines(&mut self) -> (r: Vec<CellDelta>)
        requires
            old(self).wf(),
            old(self).status == SessionStatus::Lost,
            old(self).mines_placed,
            forall|i: int|
                0 <= i < old(self).grid.mines@.len() ==> old(self).cells.state_at(
                    #[trigger] old(self).grid.mines@[i],
                ) != CellState::Revealed,
        ensures
            final(self).wf(),
            final(self).grid == old(self).grid,
            final(self).queue == old(self).queue,
            final(self).status == old(self).status,
            final(self).mine_count == old(self).mine_count,
            final(self).mines_placed == old(self).mines_placed,
            final(self).cells.flagged == old(self).cells.flagged,
            mine_reveal_frame(*old(self), *final(self)),
            mine_deltas_exact(*old(self), r@),
    {
        let w = self.grid.width;
        let h = self.grid.height;
        let mut deltas: Vec<CellDelta> = Vec::new();
        let mut k: usize = 0;
        while k < self.grid.mines.len()
            invariant
                old(self).wf(),
                old(self).mines_placed,
                forall|i: int|
                    0 <= i < old(self).grid.mines@.len() ==> old(self).cells.state_at(
                        #[trigger] old(self).grid.mines@[i],
                    ) != CellState::Revealed,
                self.grid == old(self).grid,
                self.queue == old(self).queue,
                self.status == old(self).status,
                self.mine_count == old(self).mine_count,
                self.mines_placed == old(self).mines_placed,
                self.status == SessionStatus::Lost,
                self.cells.wf(),
                self.cells.width == w,
                self.cells.height == h,
                w == old(self).grid.width,
                h == old(self).grid.height,
                self.cells.flagged == old(self).cells.flagged,
                k <= self.grid.mines@.len(),
                forall|t: int|
                    0 <= t < k ==> self.cells.state_at(#[trigger] self.grid.mines@[t]) == (if old(self).state_at(self.grid.mines@[t]) == CellState::Hidden {
                        CellState::Revealed
                    } else {
                        old(self).state_at(self.grid.mines@[t])
                    }),
                forall|t: int|
                    k <= t < self.grid.mines@.len() ==> self.cells.state_at(
                        #[trigger] self.grid.mines@[t],
                    ) == old(self).state_at(self.grid.mines@[t]),
                forall|d: Coord|
                    old(self).on_board(d) && !old(self).mine_at(d) ==> self.cells.state_at(d) == old(self).state_at(d),
                forall|t: int|
                    0 <= t < deltas@.len() ==> mine_delta_describes(
                        *old(self),
                        #[trigger] deltas@[t],
                    ) && self.cells.state_at(deltas@[t].coord) == CellState::Revealed,
                forall|t1: int, t2: int|
                    0 <= t1 < t2 < deltas@.len() ==> (#[trigger] deltas@[t1]).coord != (
                    #[trigger] deltas@[t2]).coord,
                forall|i: int|
                    0 <= i < k && old(self).state_at(#[trigger] old(self).grid.mines@[i])
                        == CellState::Hidden ==> exists|t: int|
                        0 <= t < deltas@.len() && (#[trigger] deltas@[t]).coord == old(self).grid.mines@[i],
            decreases self.grid.mines@.len() - k,
        {
            let m = self.grid.mines[k];
            proof {
                assert(in_bounds(m, w, h));
                lemma_cell_index_bounds(w, h, m);
            }
            let st = self.cells.state_of(m);
            if st == CellState::Hidden {
                let ghost pre_cells = self.cells;
                let ghost ds_before = deltas@;
                let _revealed = self.cells.reveal_cell(m);
                proof {
                    assert forall|d: Coord|
                        old(self).on_board(d) && d != m implies self.cells.state_at(d)
                        == pre_cells.state_at(d) by {
                        lemma_cell_index_bounds(w, h, d);
                        if cell_index(w, d) == cell_index(w, m) {
                            lemma_cell_index_injective(w, h, d, m);
                        }
                    }
                    assert forall|t: int|
                        0 <= t < self.grid.mines@.len() && t != k implies self.grid.mines@[t]
                        != m by {
                        assert(self.grid.mines@.no_duplicates());
                    }
                }
                deltas.push(
                    CellDelta { coord: m, new_state: CellState::Revealed, adjacency_count: None },
                );
                proof {
                    assert forall|t1: int, t2: int|
                        0 <= t1 < t2 < deltas@.len() implies (#[trigger] deltas@[t1]).coord != (
                    #[trigger] deltas@[t2]).coord by {
                        if t2 == deltas@.len() - 1 {
                            assert(deltas@[t1] == ds_before[t1]);
                            assert(pre_cells.state_at(ds_before[t1].coord)
                                == CellState::Revealed);
                        } else {
                            assert(deltas@[t1] == ds_before[t1] && deltas@[t2] == ds_before[t2]);
                        }
                    }
                    assert forall|i: int|
                        0 <= i < k + 1 && old(self).state_at(#[trigger] old(self).grid.mines@[i])
                            == CellState::Hidden implies exists|t: int|
                        0 <= t < deltas@.len() && (#[trigger] deltas@[t]).coord == old(
                            self,
                        ).grid.mines@[i] by {
                        if i == k {
                            assert(deltas@[deltas@.len() - 1].coord == old(self).grid.mines@[i]);
                        } else {
                            let t = choose|t: int|
                                0 <= t < ds_before.len() && (#[trigger] ds_before[t]).coord == old(
                                    self,
                                ).grid.mines@[i];
                            assert(deltas@[t].coord == old(self).grid.mines@[i]);
                        }
                    }
                }
            } else {
                proof {
                    assert(self.cells.state_at(m) == old(self).state_at(m));
                }
            }
            k = k + 1;
        }
        proof {
            assert forall|d: Coord| old(self).on_board(d) implies #[trigger] mine_reveal_ok(
                *old(self),
                *self,
                d,
            ) by {
                if old(self).mine_at(d) {
                    let t = choose|t: int|
                        0 <= t < self.grid.mines@.len() && self.grid.mines@[t] == d;
                    assert(self.cells.state_at(self.grid.mines@[t]) == (if old(self).state_at(
                        self.grid.mines@[t],
                    ) == CellState::Hidden {
                        CellState::Revealed
                    } else {
                        old(self).state_at(self.grid.mines@[t])
                    }));
                }
            }
        }
        deltas
    }

    /// Reveal a cell: the per-click entry point of the engine. The first
    /// reveal of the session places the mines, excluding the clicked cell, so
    /// the first click is always safe. Clicking a mine loses the session and
    /// shows every mine; any other click queues the cell for flood-fill
    /// clearing, to be drained by `tick` or `drain`. Clicks outside the board
    /// are rejected; clicks on flagged or already revealed cells, or after
    /// the game ended, change nothing.
    pub fn reveal_cell(&mut self, c: Coord) -> (r: Result<Vec<CellDelta>, GameError>)
        requires
            old(self).wf(),
        ensures
            final(self).wf(),
            final(self).grid.width == old(self).grid.width,
            final(self).grid.height == old(self).grid.height,
            final(self).mine_count == old(self).mine_count,
            old(self).pending_closed() ==> final(self).pending_closed(),
            !old(self).on_board(c) ==> r == Err::<Vec<CellDelta>, GameError>(GameError::OutOfBounds)
                && *final(self) == *old(self),
            old(self).on_board(c) && old(self).status != SessionStatus::Playing ==> (r matches Ok(v)
                && v@.len() == 0) && *final(self) == *old(self),
            old(self).on_board(c) && old(self).status == SessionStatus::Playing && old(self).state_at(c) != CellState::Hidden ==> (r matches Ok(v) && v@.len() == 0) && *final(self) == *old(self),
            old(self).on_board(c) && old(self).status == SessionStatus::Playing && old(self).state_at(c) == CellState::Hidden ==> {
                &&& final(self).mines_placed
                &&& (old(self).mines_placed ==> final(self).grid == old(self).grid)
                &&& (!old(self).mines_placed ==> final(self).grid.mines@.len() == old(self).mine_count as int && !final(self).mine_at(c))
                &&& final(self).cells.flagged == old(self).cells.flagged
                &&& (!final(self).mine_at(c) ==> {
                    &&& final(self).status == SessionStatus::Playing
                    &&& final(self).cells == old(self).cells
                    &&& final(self).queue@ == old(self).queue@.push(c)
                    &&& (r matches Ok(v) && v@.len() == 0)
                })
                &&& (final(self).mine_at(c) ==> {
                    &&& old(self).mines_placed
                    &&& final(self).grid == old(self).grid
                    &&& final(self).status == SessionStatus::Lost
                    &&& final(self).queue == old(self).queue
                    &&& mine_reveal_frame(*old(self), *final(self))
                    &&& (r matches Ok(v) && mine_deltas_exact(*old(self), v@))
                })
            },
    {
        let w = self.grid.width;
        let h = self.grid.height;
        if c.x >= w || c.y >= h {
            return Err(GameError::OutOfBounds);
        }
        if !matches!(self.status, SessionStatus::Playing) {
            return Ok(Vec::new());
        }
        let st = self.cells.state_of(c);
        if st == CellState::Flagged || st == CellState::Revealed {
            return Ok(Vec::new());
        }
        if !self.mines_placed {
            proof {
                assert(w > 0) by (nonlinear_arith)
                    requires
                        (w as int) * (h as int) >= 1,
                {
                }
                lemma_cell_index_bounds(w, h, c);
                crate::grid::lemma_candidate_seq_no_mines(self.grid, c, (w as int) * (h as int));
            }
            let generated = self.grid.generate(self.mine_count, Some(c));
            proof {
                assert(generated is Ok);
                assert forall|i: int| 0 <= i < self.grid.mines@.len() implies self.cells.state_at(
                    #[trigger] self.grid.mines@[i],
                ) != CellState::Revealed by {
                    lemma_no_revealed_when_zero(self.cells, self.grid.mines@[i]);
                }
                assert(!self.grid.mines@.contains(c)) by {
                    if self.grid.mines@.contains(c) {
                        let t = choose|t: int|
                            0 <= t < self.grid.mines@.len() && self.grid.mines@[t] == c;
                    }
                }
            }
            self.mines_placed = true;
        }
        let ghost placed = *self;
        proof {
            if !old(self).mines_placed {
                assert forall|a: Coord, n: Coord|
                    {
                        &&& placed.on_board(a)
                        &&& placed.on_board(n)
                        &&& #[trigger] is_adjacent(a, n)
                        &&& placed.state_at(a) == CellState::Revealed
                        &&& !placed.mine_at(a)
                        &&& placed.adj_at(a) == 0
                        &&& placed.state_at(n) != CellState::Revealed
                        &&& placed.state_at(n) != CellState::Flagged
                    } implies placed.queue@.contains(n) by {
                    lemma_no_revealed_when_zero(placed.cells, a);
                }
                assert(placed.pending_closed());
            } else {
                assert(placed == *old(self));
            }
        }
        if self.grid.is_mine(c) {
            self.status = SessionStatus::Lost;
            let ghost lost = *self;
            let deltas = self.reveal_mines();
            proof {
                lemma_loss_keeps_closed(placed, lost, *self);
                assert forall|d: Coord| old(self).on_board(d) implies #[trigger] mine_reveal_ok(
                    *old(self),
                    *self,
                    d,
                ) by {
                    assert(mine_reveal_ok(lost, *self, d));
                }
                assert forall|t: int| 0 <= t < deltas@.len() implies mine_delta_describes(
                    *old(self),
                    #[trigger] deltas@[t],
                ) by {
                    assert(mine_delta_describes(lost, deltas@[t]));
                }
                assert forall|i: int|
                    0 <= i < old(self).grid.mines@.len() && old(self).state_at(
                        #[trigger] old(self).grid.mines@[i],
                    ) == CellState::Hidden implies exists|t: int|
                    0 <= t < deltas@.len() && (#[trigger] deltas@[t]).coord == old(
                        self,
                    ).grid.mines@[i] by {
                    assert(lost.state_at(lost.grid.mines@[i]) == CellState::Hidden);
                    let t = choose|t: int|
                        0 <= t < deltas@.len() && (#[trigger] deltas@[t]).coord
                            == lost.grid.mines@[i];
                    assert(deltas@[t].coord == old(self).grid.mines@[i]);
                }
            }
            Ok(deltas)
        } else {
            proof {
                lemma_seq_push_contains(self.queue@, c);
            }
            self.queue.push_back(c);
            proof {
                if placed.pending_closed() {
                    assert forall|a: Coord, n: Coord|
                        {
                            &&& self.on_board(a)
                            &&& self.on_board(n)
                            &&& #[trigger] is_adjacent(a, n)
                            &&& self.state_at(a) == CellState::Revealed
                            &&& !self.mine_at(a)
                            &&& self.adj_at(a) == 0
                            &&& self.state_at(n) != CellState::Revealed
                            &&& self.state_at(n) != CellState::Flagged
                        } implies self.queue@.contains(n) by {
                        assert(placed.queue@.contains(n));
                    }
                }
            }
            Ok(Vec::new())
        }
    }

    /// Toggle the flag mark on a cell. Flagging is rejected outside the
    /// board, ignored once the game ended or on a revealed cell, and
    /// otherwise switches the cell between `Hidden` and `Flagged`, reporting
    /// the change as a delta. The win condition is re-evaluated afterwards.
    pub fn toggle_flag(&mut self, c: Coord) -> (r: Result<Option<CellDelta>, GameError>)
        requires
            old(self).wf(),
        ensures
            final(self).wf(),
            final(self).grid == old(self).grid,
            final(self).queue == old(self).queue,
            final(self).mine_count == old(self).mine_count,
            final(self).mines_placed == old(self).mines_placed,
            !old(self).on_board(c) ==> r == Err::<Option<CellDelta>, GameError>(
                GameError::OutOfBounds,
            ) && *final(self) == *old(self),
            old(self).on_board(c) && old(self).status != SessionStatus::Playing ==> r
                == Ok::<Option<CellDelta>, GameError>(None) && *final(self) == *old(self),
            old(self).on_board(c) && old(self).status == SessionStatus::Playing ==> {
                let was = old(self).state_at(c);
                &&& (was == CellState::Revealed ==> r == Ok::<Option<CellDelta>, GameError>(None)
                    && *final(self) == *old(self))
                &&& (was != CellState::Revealed ==> {
                    let now = if was == CellState::Hidden {
                        CellState::Flagged
                    } else {
                        CellState::Hidden
                    };
                    &&& final(self).cells.states@ == old(self).cells.states@.update(
                        cell_index(old(self).grid.width, c),
                        now,
                    )
                    &&& final(self).cells.revealed == old(self).cells.revealed
                    &&& final(self).cells.flagged == old(self).cells.flagged + (if was
                        == CellState::Hidden {
                        1int
                    } else {
                        -1int
                    })
                    &&& r == Ok::<Option<CellDelta>, GameError>(
                        Some(
                            (CellDelta { coord: c, new_state: now, adjacency_count: None::<u32> }),
                        ),
                    )
                    &&& final(self).status == (if final(self).win_counts() {
                        SessionStatus::Won
                    } else {
                        SessionStatus::Playing
                    })
                })
            },
            (old(self).pending_closed() && (!old(self).on_board(c) || old(self).state_at(c)
                != CellState::Flagged || old(self).status != SessionStatus::Playing)) ==> final(self).pending_closed(),
    {
        if c.x >= self.grid.width || c.y >= self.grid.height {
            return Err(GameError::OutOfBounds);
        }
        if !matches!(self.status, SessionStatus::Playing) {
            return Ok(None);
        }
        let was = self.cells.state_of(c);
        if was == CellState::Revealed {
            return Ok(None);
        }
        let on = was == CellState::Hidden;
        let changed = self.cells.set_flag(c, on);
        proof {
            assert(changed);
            if old(self).pending_closed() && old(self).state_at(c) == CellState::Hidden {
                lemma_flag_hidden_keeps_closed(*old(self), *self, c);
            }
            lemma_mines_stay_unrevealed(
                *old(self),
                *self,
                c,
                if on {
                    CellState::Flagged
                } else {
                    CellState::Hidden
                },
            );
        }
        let delta = CellDelta {
            coord: c,
            new_state: if on {
                CellState::Flagged
            } else {
                CellState::Hidden
            },
            adjacency_count: None,
        };
        self.evaluate_win();
        Ok(Some(delta))
    }
}

/// Clearing work changes one cell at most once: a hidden, mine-free cell may
/// become revealed; every other cell keeps its state.
pub open spec fn reveal_step_ok(pre: Session, post: Session, d: Coord) -> bool {
    ||| post.state_at(d) == pre.state_at(d)
    ||| (pre.state_at(d) == CellState::Hidden && post.state_at(d) == CellState::Revealed
        && !pre.mine_at(d))
}

/// Between two session snapshots, cells only went from hidden to revealed,
/// and only mine-free ones.
pub open spec fn reveal_frame(pre: Session, post: Session) -> bool {
    forall|d: Coord| pre.on_board(d) ==> #[trigger] reveal_step_ok(pre, post, d)
}

/// `d` borders a clearing source: a revealed, mine-free cell with adjacency
/// count zero, whose reveal legitimately spreads to its whole neighborhood.
pub open spec fn reveal_source(s: Session, d: Coord) -> bool {
    exists|z: Coord|
        {
            &&& s.on_board(z)
            &&& #[trigger] is_adjacent(z, d)
            &&& s.state_at(z) == CellState::Revealed
            &&& !s.mine_at(z)
            &&& s.adj_at(z) == 0
        }
}

/// Clearing reveals no stray cells: every cell revealed between the two
/// snapshots was already queued before, or borders a revealed zero-adjacency
/// cell afterwards. Together with the queue discipline this stops the flood
/// exactly at the numbered boundary.
pub open spec fn reveals_grounded(pre: Session, post: Session) -> bool {
    forall|d: Coord|
        pre.on_board(d) && pre.state_at(d) == CellState::Hidden && #[trigger] post.state_at(d)
            == CellState::Revealed ==> pre.queue@.contains(d) || reveal_source(post, d)
}

/// A delta reported by clearing: a mine-free cell that went from hidden to
/// revealed, labeled with its adjacency count.
pub open spec fn delta_describes(pre: Session, post: Session, d: CellDelta) -> bool {
    &&& pre.on_board(d.coord)
    &&& pre.state_at(d.coord) == CellState::Hidden
    &&& post.state_at(d.coord) == CellState::Revealed
    &&& !pre.mine_at(d.coord)
    &&& d.new_state == CellState::Revealed
    &&& (d.adjacency_count matches Some(a) && a == pre.adj_at(d.coord))
}

/// The delta list names each newly revealed cell exactly once, correctly
/// labeled, and nothing else.
pub open spec fn deltas_exact(pre: Session, post: Session, ds: Seq<CellDelta>) -> bool {
    &&& forall|t: int| 0 <= t < ds.len() ==> delta_describes(pre, post, #[trigger] ds[t])
    &&& forall|t1: int, t2: int|
        0 <= t1 < t2 < ds.len() ==> (#[trigger] ds[t1]).coord != (#[trigger] ds[t2]).coord
    &&& forall|d: Coord|
        pre.on_board(d) && pre.state_at(d) == CellState::Hidden && #[trigger] post.state_at(d)
            == CellState::Revealed ==> exists|t: int|
            0 <= t < ds.len() && (#[trigger] ds[t]).coord == d
}

/// The losing move turns exactly the hidden mines to revealed, for the
/// end-of-game display; flagged mines keep their flags and every other cell
/// keeps its state.
pub open spec fn mine_reveal_ok(pre: Session, post: Session, d: Coord) -> bool {
    post.state_at(d) == (if pre.mine_at(d) && pre.state_at(d) == CellState::Hidden {
        CellState::Revealed
    } else {
        pre.state_at(d)
    })
}

/// Between the two snapshots of a losing move, every cell obeys
/// `mine_reveal_ok`.
pub open spec fn mine_reveal_frame(pre: Session, post: Session) -> bool {
    forall|d: Coord| pre.on_board(d) ==> #[trigger] mine_reveal_ok(pre, post, d)
}

/// A delta of the losing move: a hidden mine now shown, with no adjacency
/// label.
pub open spec fn mine_delta_describes(pre: Session, d: CellDelta) -> bool {
    &&& pre.on_board(d.coord)
    &&& pre.mine_at(d.coord)
    &&& pre.state_at(d.coord) == CellState::Hidden
    &&& d.new_state == CellState::Revealed
    &&& d.adjacency_count is None
}

/// The losing move's delta list names each previously hidden mine exactly
/// once and nothing else.
pub open spec fn mine_deltas_exact(pre: Session, ds: Seq<CellDelta>) -> bool {
    &&& forall|t: int| 0 <= t < ds.len() ==> mine_delta_describes(pre, #[trigger] ds[t])
    &&& forall|t1: int, t2: int|
        0 <= t1 < t2 < ds.len() ==> (#[trigger] ds[t1]).coord != (#[trigger] ds[t2]).coord
    &&& forall|i: int|
        0 <= i < pre.grid.mines@.len() && pre.state_at(#[trigger] pre.grid.mines@[i])
            == CellState::Hidden ==> exists|t: int|
            0 <= t < ds.len() && (#[trigger] ds[t]).coord == pre.grid.mines@[i]
}

/// Position of `n` in the 3-by-3 block around `c`, row-major.
spec fn neighbor_offset(c: Coord, n: Coord) -> int {
    (n.x - c.x + 1) + 3 * (n.y - c.y + 1)
}

/// The on-board neighbors of `c`, each listed once.
fn neighbors(c: Coord, width: u32, height: u32) -> (r: Vec<Coord>)
    requires
        in_bounds(c, width, height),
    ensures
        r@.len() <= 8,
        forall|i: int|
            0 <= i < r@.len() ==> in_bounds(#[trigger] r@[i], width, height) && is_adjacent(
                c,
                r@[i],
            ),
        forall|n: Coord|
            in_bounds(n, width, height) && #[trigger] is_adjacent(c, n) ==> r@.contains(n),
{
    let mut r: Vec<Coord> = Vec::new();
    let mut k: u32 = 0;
    while k < 9
        invariant
            in_bounds(c, width, height),
            k <= 9,
            r@.len() <= k,
            k > 4 ==> r@.len() <= k - 1,
            forall|i: int|
                0 <= i < r@.len() ==> in_bounds(#[trigger] r@[i], width, height) && is_adjacent(
                    c,
                    r@[i],
                ),
            forall|n: Coord|
                in_bounds(n, width, height) && #[trigger] is_adjacent(c, n) && neighbor_offset(
                    c,
                    n,
                ) < k ==> r@.contains(n),
        decreases 9 - k,
    {
        if k != 4 {
            let dx = k % 3;
            let dy = k / 3;
            let nx64: i64 = (c.x as i64) + (dx as i64) - 1;
            let ny64: i64 = (c.y as i64) + (dy as i64) - 1;
            if nx64 >= 0 && ny64 >= 0 && nx64 < (width as i64) && ny64 < (height as i64) {
                let n = Coord::new(nx64 as u32, ny64 as u32);
                proof {
                    lemma_seq_push_contains(r@, n);
                    assert(neighbor_offset(c, n) == k);
                }
                r.push(n);
            }
        }
        proof {
            assert forall|n: Coord|
                in_bounds(n, width, height) && #[trigger] is_adjacent(c, n) && neighbor_offset(
                    c,
                    n,
                ) < k + 1 implies r@.contains(n) by {
                if neighbor_offset(c, n) == k {
                    assert(n.x - c.x + 1 == k % 3 && n.y - c.y + 1 == k / 3);
                }
            }
        }
        k = k + 1;
    }
    r
}

/// Pushing never removes anything: old members stay members, and the pushed
/// element becomes one.
proof fn lemma_seq_push_contains(s: Seq<Coord>, v: Coord)
    ensures
        forall|x: Coord| s.contains(x) ==> #[trigger] s.push(v).contains(x),
        s.push(v).contains(v),
{
    assert forall|x: Coord| s.contains(x) implies #[trigger] s.push(v).contains(x) by {
        let t = choose|t: int| 0 <= t < s.len() && s[t] == x;
        assert(s.push(v)[t] == x);
    }
    assert(s.push(v)[s.len() as int] == v);
}

/// A member of a non-empty queue is its front or a member of the rest.
proof fn lemma_dequeue_membership(q: Seq<Coord>, n: Coord)
    requires
        q.len() > 0,
        q.contains(n),
    ensures
        n == q[0] || q.subrange(1, q.len() as int).contains(n),
{
    let t = choose|t: int| 0 <= t < q.len() && q[t] == n;
    if t > 0 {
        assert(q.subrange(1, q.len() as int)[t - 1] == n);
    }
}

/// No cell is revealed while the revealed counter is zero.
proof fn lemma_no_revealed_when_zero(cells: CellStore, c: Coord)
    requires
        cells.wf(),
        cells.revealed == 0,
        in_bounds(c, cells.width, cells.height),
    ensures
        cells.state_at(c) != CellState::Revealed,
{
    lemma_cell_index_bounds(cells.width, cells.height, c);
    if cells.state_at(c) == CellState::Revealed {
        crate::cells::lemma_count_pos(
            cells.states@,
            cell_index(cells.width, c),
            CellState::Revealed,
        );
    }
}

/// Flagging a hidden cell cannot orphan pending clearing work: grid, queue
/// and all other cells are untouched, and the flagged cell itself needs no
/// queue entry.
proof fn lemma_flag_hidden_keeps_closed(pre: Session, post: Session, c: Coord)
    requires
        pre.wf(),
        pre.pending_closed(),
        pre.on_board(c),
        pre.state_at(c) == CellState::Hidden,
        post.grid == pre.grid,
        post.queue@ == pre.queue@,
        post.cells.width == pre.cells.width,
        post.cells.states@ == pre.cells.states@.update(
            cell_index(pre.grid.width, c),
            CellState::Flagged,
        ),
    ensures
        post.pending_closed(),
{
    let w = pre.grid.width;
    let h = pre.grid.height;
    assert forall|a: Coord, n: Coord|
        {
            &&& post.on_board(a)
            &&& post.on_board(n)
            &&& #[trigger] is_adjacent(a, n)
            &&& post.state_at(a) == CellState::Revealed
            &&& !post.mine_at(a)
            &&& post.adj_at(a) == 0
            &&& post.state_at(n) != CellState::Revealed
            &&& post.state_at(n) != CellState::Flagged
        } implies post.queue@.contains(n) by {
        lemma_cell_index_bounds(w, h, c);
        lemma_cell_index_bounds(w, h, a);
        lemma_cell_index_bounds(w, h, n);
        if cell_index(w, a) == cell_index(w, c) {
            lemma_cell_index_injective(w, h, a, c);
        }
        if cell_index(w, n) == cell_index(w, c) {
            lemma_cell_index_injective(w, h, n, c);
        }
        assert(a != c);
        assert(pre.state_at(a) == post.state_at(a));
        if n == c {
            assert(post.state_at(n) == CellState::Flagged);
            assert(false);
        } else {
            assert(pre.state_at(n) == post.state_at(n));
            assert(pre.queue@.contains(n));
        }
    }
}

/// One queue step composed onto an already-described run keeps the run
/// described: the frame still only reveals hidden mine-free cells, and the
/// delta list, extended by the step's delta if any, stays exact.
proof fn lemma_compose_step(
    orig: Session,
    pre: Session,
    post: Session,
    r: Option<CellDelta>,
    ds: Seq<CellDelta>,
)
    requires
        orig.wf(),
        pre.wf(),
        pre.grid == orig.grid,
        pre.cells.width == orig.cells.width,
        post.grid == pre.grid,
        post.cells.width == pre.cells.width,
        reveal_frame(orig, pre),
        deltas_exact(orig, pre, ds),
        pre.queue@.len() > 0,
        match r {
            None => post.cells == pre.cells,
            Some(d) => {
                let front = pre.queue@[0];
                &&& d.coord == front
                &&& pre.state_at(front) == CellState::Hidden
                &&& !pre.mine_at(front)
                &&& post.cells.states@ == pre.cells.states@.update(
                    cell_index(pre.grid.width, front),
                    CellState::Revealed,
                )
                &&& d.new_state == CellState::Revealed
                &&& (d.adjacency_count matches Some(a) && a == pre.adj_at(front))
            },
        },
    ensures
        reveal_frame(orig, post),
        deltas_exact(
            orig,
            post,
            match r {
                None => ds,
                Some(d) => ds.push(d),
            },
        ),
{
    let w = orig.grid.width;
    let h = orig.grid.height;
    match r {
        None => {
            assert forall|x: Coord| orig.on_board(x) implies #[trigger] reveal_step_ok(
                orig,
                post,
                x,
            ) by {
                assert(reveal_step_ok(orig, pre, x));
                assert(post.state_at(x) == pre.state_at(x));
            }
            assert forall|t: int| 0 <= t < ds.len() implies delta_describes(
                orig,
                post,
                #[trigger] ds[t],
            ) by {
                assert(delta_describes(orig, pre, ds[t]));
                assert(post.state_at(ds[t].coord) == pre.state_at(ds[t].coord));
            }
            assert forall|x: Coord|
                orig.on_board(x) && orig.state_at(x) == CellState::Hidden && #[trigger] post.state_at(
                    x,
                ) == CellState::Revealed implies exists|t: int|
                0 <= t < ds.len() && (#[trigger] ds[t]).coord == x by {
                assert(pre.state_at(x) == post.state_at(x));
            }
        },
        Some(d) => {
            let front = pre.queue@[0];
            let ds2 = ds.push(d);
            assert(in_bounds(front, w, h));
            lemma_cell_index_bounds(w, h, front);
            assert forall|x: Coord| orig.on_board(x) implies #[trigger] reveal_step_ok(
                orig,
                post,
                x,
            ) by {
                lemma_cell_index_bounds(w, h, x);
                if cell_index(w, x) == cell_index(w, front) {
                    lemma_cell_index_injective(w, h, x, front);
                    assert(reveal_step_ok(orig, pre, front));
                    assert(orig.state_at(front) == CellState::Hidden);
                    assert(post.state_at(front) == CellState::Revealed);
                } else {
                    assert(post.state_at(x) == pre.state_at(x));
                    assert(reveal_step_ok(orig, pre, x));
                }
            }
            assert forall|t: int| 0 <= t < ds2.len() implies delta_describes(
                orig,
                post,
                #[trigger] ds2[t],
            ) by {
                if t < ds.len() {
                    assert(ds2[t] == ds[t]);
                    assert(delta_describes(orig, pre, ds[t]));
                    let cc = ds[t].coord;
                    lemma_cell_index_bounds(w, h, cc);
                    if cell_index(w, cc) == cell_index(w, front) {
                        lemma_cell_index_injective(w, h, cc, front);
                    }
                    assert(post.state_at(cc) == pre.state_at(cc));
                } else {
                    assert(ds2[t] == d);
                    assert(reveal_step_ok(orig, pre, front));
                    assert(orig.state_at(front) == CellState::Hidden);
                    assert(post.state_at(front) == CellState::Revealed);
                }
            }
            assert forall|t1: int, t2: int| 0 <= t1 < t2 < ds2.len() implies (
            #[trigger] ds2[t1]).coord != (#[trigger] ds2[t2]).coord by {
                if t2 < ds.len() {
                    assert(ds2[t1] == ds[t1] && ds2[t2] == ds[t2]);
                } else {
                    assert(ds2[t1] == ds[t1] && ds2[t2] == d);
                    assert(delta_describes(orig, pre, ds[t1]));
                    assert(pre.state_at(ds[t1].coord) == CellState::Revealed);
                }
            }
            assert forall|x: Coord|
                orig.on_board(x) && orig.state_at(x) == CellState::Hidden && #[trigger] post.state_at(
                    x,
                ) == CellState::Revealed implies exists|t: int|
                0 <= t < ds2.len() && (#[trigger] ds2[t]).coord == x by {
                lemma_cell_index_bounds(w, h, x);
                if cell_index(w, x) == cell_index(w, front) {
                    lemma_cell_index_injective(w, h, x, front);
                    assert(ds2[ds.len() as int].coord == x);
                } else {
                    assert(pre.state_at(x) == post.state_at(x));
                    let t = choose|t: int| 0 <= t < ds.len() && (#[trigger] ds[t]).coord == x;
                    assert(ds2[t].coord == x);
                }
            }
        },
    }
}

/// Once the queue is drained, the flood fill has stopped exactly at its
/// boundary: every neighbor of a revealed zero-adjacency cell is itself
/// revealed or flagged, so the whole connected zero-adjacency region around
/// any revealed zero cell stands revealed.
pub proof fn lemma_flood_boundary(s: &Session)
    requires
        s.pending_closed(),
        s.queue@.len() == 0,
    ensures
        forall|c: Coord, n: Coord|
            {
                &&& s.on_board(c)
                &&& s.on_board(n)
                &&& #[trigger] is_adjacent(c, n)
                &&& s.state_at(c) == CellState::Revealed
                &&& !s.mine_at(c)
                &&& s.adj_at(c) == 0
            } ==> s.state_at(n) == CellState::Revealed || s.state_at(n) == CellState::Flagged,
{
    assert forall|c: Coord, n: Coord|
        {
            &&& s.on_board(c)
            &&& s.on_board(n)
            &&& #[trigger] is_adjacent(c, n)
            &&& s.state_at(c) == CellState::Revealed
            &&& !s.mine_at(c)
            &&& s.adj_at(c) == 0
        } implies s.state_at(n) == CellState::Revealed || s.state_at(n) == CellState::Flagged by {
        if s.state_at(n) != CellState::Revealed && s.state_at(n) != CellState::Flagged {
            assert(s.queue@.contains(n));
        }
    }
}

/// The losing move only reveals mines, and a zero-adjacency revealed source
/// is never a mine's neighbor, so no pending clearing work is orphaned.
proof fn lemma_loss_keeps_closed(pre: Session, lost: Session, post: Session)
    requires
        lost.grid == pre.grid,
        lost.cells == pre.cells,
        lost.queue == pre.queue,
        post.grid == lost.grid,
        post.queue == lost.queue,
        mine_reveal_frame(lost, post),
    ensures
        pre.pending_closed() ==> post.pending_closed(),
{
    if pre.pending_closed() {
        assert forall|a: Coord, n: Coord|
            {
                &&& post.on_board(a)
                &&& post.on_board(n)
                &&& #[trigger] is_adjacent(a, n)
                &&& post.state_at(a) == CellState::Revealed
                &&& !post.mine_at(a)
                &&& post.adj_at(a) == 0
                &&& post.state_at(n) != CellState::Revealed
                &&& post.state_at(n) != CellState::Flagged
            } implies post.queue@.contains(n) by {
            assert(mine_reveal_ok(lost, post, a));
            assert(mine_reveal_ok(lost, post, n));
            assert(pre.state_at(a) == CellState::Revealed);
            assert(pre.state_at(n) != CellState::Revealed && pre.state_at(n)
                != CellState::Flagged);
            assert(pre.queue@.contains(n));
        }
    }
}

/// Clearing only ever adds revealed cells, so a clearing source stays one.
proof fn lemma_frame_keeps_sources(pre: Session, post: Session, x: Coord)
    requires
        post.grid == pre.grid,
        reveal_frame(pre, post),
        reveal_source(pre, x),
    ensures
        reveal_source(post, x),
{
    let z = choose|z: Coord|
        {
            &&& pre.on_board(z)
            &&& #[trigger] is_adjacent(z, x)
            &&& pre.state_at(z) == CellState::Revealed
            &&& !pre.mine_at(z)
            &&& pre.adj_at(z) == 0
        };
    assert(reveal_step_ok(pre, post, z));
    assert(post.state_at(z) == CellState::Revealed);
}

/// Across one queue step, a cell that was already revealed stays revealed,
/// and a hidden mine-free cell standing at the front of the queue comes out
/// revealed: the step cannot skip it, since skipping is only for revealed,
/// flagged or mined entries.
proof fn lemma_step_entry_revealed(pre: Session, post: Session, r: Option<CellDelta>, e: Coord)
    requires
        pre.wf(),
        pre.queue@.len() > 0,
        post.grid == pre.grid,
        post.cells.width == pre.cells.width,
        pre.on_board(e),
        !pre.mine_at(e),
        pre.state_at(e) == CellState::Revealed || (e == pre.queue@[0] && (pre.state_at(e)
            == CellState::Hidden || pre.state_at(e) == CellState::Revealed)),
        match r {
            None => post.cells == pre.cells && (pre.state_at(pre.queue@[0]) == CellState::Revealed
                || pre.state_at(pre.queue@[0]) == CellState::Flagged || pre.mine_at(
                pre.queue@[0],
            )),
            Some(d) => {
                &&& pre.state_at(pre.queue@[0]) == CellState::Hidden
                &&& post.cells.states@ == pre.cells.states@.update(
                    cell_index(pre.grid.width, pre.queue@[0]),
                    CellState::Revealed,
                )
            },
        },
    ensures
        post.state_at(e) == CellState::Revealed,
{
    let w = pre.grid.width;
    let h = pre.grid.height;
    let front = pre.queue@[0];
    assert(in_bounds(front, w, h));
    lemma_cell_index_bounds(w, h, front);
    lemma_cell_index_bounds(w, h, e);
    if pre.state_at(e) == CellState::Revealed {
        match r {
            None => {
                assert(post.state_at(e) == pre.state_at(e));
            },
            Some(_) => {
                if cell_index(w, e) == cell_index(w, front) {
                    lemma_cell_index_injective(w, h, e, front);
                }
                assert(e != front);
                assert(post.state_at(e) == pre.state_at(e));
            },
        }
    } else {
        assert(e == front && pre.state_at(e) == CellState::Hidden);
        match r {
            None => {
                assert(false);
            },
            Some(_) => {
                assert(post.state_at(front) == CellState::Revealed);
            },
        }
    }
}

/// One queue step composed onto a grounded run keeps it grounded: whatever
/// the step revealed or enqueued traces back to the queue as it stood before
/// the run, or to a clearing source.
proof fn lemma_step_grounded(orig: Session, pre: Session, post: Session, r: Option<CellDelta>)
    requires
        pre.wf(),
        pre.grid == orig.grid,
        pre.cells.width == orig.cells.width,
        post.grid == pre.grid,
        post.cells.width == pre.cells.width,
        pre.queue@.len() > 0,
        match r {
            None => post.cells == pre.cells,
            Some(d) => {
                let front = pre.queue@[0];
                &&& pre.state_at(front) == CellState::Hidden
                &&& !pre.mine_at(front)
                &&& post.cells.states@ == pre.cells.states@.update(
                    cell_index(pre.grid.width, front),
                    CellState::Revealed,
                )
            },
        },
        forall|t: int|
            0 <= t < post.queue@.len() ==> pre.queue@.contains(#[trigger] post.queue@[t]) || (
            r is Some && pre.adj_at(pre.queue@[0]) == 0 && is_adjacent(
                pre.queue@[0],
                post.queue@[t],
            )),
        forall|t: int|
            0 <= t < pre.queue@.len() ==> orig.queue@.contains(#[trigger] pre.queue@[t])
                || reveal_source(pre, pre.queue@[t]),
        reveals_grounded(orig, pre),
    ensures
        forall|t: int|
            0 <= t < post.queue@.len() ==> orig.queue@.contains(#[trigger] post.queue@[t])
                || reveal_source(post, post.queue@[t]),
        reveals_grounded(orig, post),
{
    let w = pre.grid.width;
    let h = pre.grid.height;
    let front = pre.queue@[0];
    assert(in_bounds(front, w, h));
    lemma_cell_index_bounds(w, h, front);
    assert forall|x: Coord| pre.on_board(x) implies #[trigger] reveal_step_ok(pre, post, x) by {
        if r is Some {
            lemma_cell_index_bounds(w, h, x);
            if cell_index(w, x) == cell_index(w, front) {
                lemma_cell_index_injective(w, h, x, front);
            } else {
                assert(post.state_at(x) == pre.state_at(x));
            }
        } else {
            assert(post.state_at(x) == pre.state_at(x));
        }
    }
    assert forall|t: int|
        0 <= t < post.queue@.len() implies orig.queue@.contains(#[trigger] post.queue@[t])
        || reveal_source(post, post.queue@[t]) by {
        let x = post.queue@[t];
        if pre.queue@.contains(x) {
            let u = choose|u: int| 0 <= u < pre.queue@.len() && pre.queue@[u] == x;
            assert(pre.queue@[u] == x);
            if !orig.queue@.contains(x) {
                assert(reveal_source(pre, x));
                lemma_frame_keeps_sources(pre, post, x);
            }
        } else {
            assert(post.state_at(front) == CellState::Revealed);
            assert(is_adjacent(front, x));
            assert(reveal_source(post, x));
        }
    }
    assert forall|d: Coord|
        orig.on_board(d) && orig.state_at(d) == CellState::Hidden && #[trigger] post.state_at(d)
            == CellState::Revealed implies orig.queue@.contains(d) || reveal_source(post, d) by {
        if pre.state_at(d) == CellState::Revealed {
            if !orig.queue@.contains(d) {
                assert(reveal_source(pre, d));
                lemma_frame_keeps_sources(pre, post, d);
            }
        } else {
            assert(r is Some);
            lemma_cell_index_bounds(w, h, d);
            if cell_index(w, d) != cell_index(w, front) {
                assert(post.state_at(d) == pre.state_at(d));
                assert(false);
            }
            lemma_cell_index_injective(w, h, d, front);
            assert(pre.queue@[0] == front);
            if !orig.queue@.contains(front) {
                assert(reveal_source(pre, front));
                lemma_frame_keeps_sources(pre, post, front);
            }
        }
    }
}

/// A change of terminal status alone leaves every board-level description
/// intact: the frame, the delta list and the pending-work closure read only
/// the grid, the cells and the queue.
proof fn lemma_status_only_change(orig: Session, a: Session, b: Session, ds: Seq<CellDelta>)
    requires
        b.grid == a.grid,
        b.cells == a.cells,
        b.queue == a.queue,
        reveal_frame(orig, a),
        deltas_exact(orig, a, ds),
        reveals_grounded(orig, a),
    ensures
        reveal_frame(orig, b),
        deltas_exact(orig, b, ds),
        reveals_grounded(orig, b),
        a.pending_closed() ==> b.pending_closed(),
{
    assert forall|d: Coord|
        orig.on_board(d) && orig.state_at(d) == CellState::Hidden && #[trigger] b.state_at(d)
            == CellState::Revealed implies orig.queue@.contains(d) || reveal_source(b, d) by {
        assert(a.state_at(d) == b.state_at(d));
        if !orig.queue@.contains(d) {
            let z = choose|z: Coord|
                {
                    &&& a.on_board(z)
                    &&& #[trigger] is_adjacent(z, d)
                    &&& a.state_at(z) == CellState::Revealed
                    &&& !a.mine_at(z)
                    &&& a.adj_at(z) == 0
                };
            assert(b.state_at(z) == a.state_at(z));
        }
    }
    assert forall|d: Coord| orig.on_board(d) implies #[trigger] reveal_step_ok(orig, b, d) by {
        assert(reveal_step_ok(orig, a, d));
        assert(b.state_at(d) == a.state_at(d));
    }
    assert forall|t: int| 0 <= t < ds.len() implies delta_describes(orig, b, #[trigger] ds[t]) by {
        assert(delta_describes(orig, a, ds[t]));
        assert(b.state_at(ds[t].coord) == a.state_at(ds[t].coord));
    }
    assert forall|x: Coord|
        orig.on_board(x) && orig.state_at(x) == CellState::Hidden && #[trigger] b.state_at(x)
            == CellState::Revealed implies exists|t: int|
        0 <= t < ds.len() && (#[trigger] ds[t]).coord == x by {
        assert(a.state_at(x) == b.state_at(x));
    }
    if a.pending_closed() {
        assert forall|c: Coord, n: Coord|
            {
                &&& b.on_board(c)
                &&& b.on_board(n)
                &&& #[trigger] is_adjacent(c, n)
                &&& b.state_at(c) == CellState::Revealed
                &&& !b.mine_at(c)
                &&& b.adj_at(c) == 0
                &&& b.state_at(n) != CellState::Revealed
                &&& b.state_at(n) != CellState::Flagged
            } implies b.queue@.contains(n) by {
            assert(a.state_at(c) == b.state_at(c));
            assert(a.state_at(n) == b.state_at(n));
            assert(a.queue@.contains(n));
        }
    }
}

/// Revealing a numbered cell (positive adjacency count) spawns no clearing
/// work, so dropping its queue entry cannot orphan any: the cell is no
/// zero-adjacency source, and every other source keeps its witnesses.
proof fn lemma_reveal_numbered_keeps_closed(pre: Session, post: Session, front: Coord)
    requires
        pre.wf(),
        pre.pending_closed(),
        pre.on_board(front),
        pre.adj_at(front) > 0,
        pre.queue@.len() > 0,
        pre.queue@[0] == front,
        post.grid == pre.grid,
        post.cells.width == pre.cells.width,
        post.cells.states@ == pre.cells.states@.update(
            cell_index(pre.grid.width, front),
            CellState::Revealed,
        ),
        post.queue@ == pre.queue@.subrange(1, pre.queue@.len() as int),
    ensures
        post.pending_closed(),
{
    let w = pre.grid.width;
    let h = pre.grid.height;
    assert forall|a: Coord, n: Coord|
        {
            &&& post.on_board(a)
            &&& post.on_board(n)
            &&& #[trigger] is_adjacent(a, n)
            &&& post.state_at(a) == CellState::Revealed
            &&& !post.mine_at(a)
            &&& post.adj_at(a) == 0
            &&& post.state_at(n) != CellState::Revealed
            &&& post.state_at(n) != CellState::Flagged
        } implies post.queue@.contains(n) by {
        lemma_cell_index_bounds(w, h, front);
        lemma_cell_index_bounds(w, h, a);
        lemma_cell_index_bounds(w, h, n);
        assert(a != front);
        if cell_index(w, a) == cell_index(w, front) {
            lemma_cell_index_injective(w, h, a, front);
        }
        assert(pre.state_at(a) == CellState::Revealed);
        if cell_index(w, n) == cell_index(w, front) {
            lemma_cell_index_injective(w, h, n, front);
        }
        assert(n != front);
        assert(pre.state_at(n) == post.state_at(n));
        assert(pre.queue@.contains(n));
        lemma_dequeue_membership(pre.queue@, n);
    }
}

/// After overwriting one cell with anything but `Revealed` (or with
/// `Revealed` on a non-mine cell), every mine that was unrevealed stays
/// unrevealed.
proof fn lemma_mines_stay_unrevealed(pre: Session, post: Session, c: Coord, v: CellState)
    requires
        pre.grid.wf(),
        pre.cells.wf(),
        pre.cells.width == pre.grid.width,
        pre.cells.height == pre.grid.height,
        pre.on_board(c),
        forall|i: int|
            0 <= i < pre.grid.mines@.len() ==> pre.cells.state_at(#[trigger] pre.grid.mines@[i])
                != CellState::Revealed,
        v == CellState::Revealed ==> !pre.mine_at(c),
        post.grid == pre.grid,
        post.cells.width == pre.cells.width,
        post.cells.states@ == pre.cells.states@.update(cell_index(pre.grid.width, c), v),
    ensures
        forall|i: int|
            0 <= i < post.grid.mines@.len() ==> post.cells.state_at(#[trigger] post.grid.mines@[i])
                != CellState::Revealed,
{
    let w = pre.grid.width;
    let h = pre.grid.height;
    assert forall|i: int|
        0 <= i < post.grid.mines@.len() implies post.cells.state_at(#[trigger] post.grid.mines@[i])
        != CellState::Revealed by {
        let m = post.grid.mines@[i];
        assert(in_bounds(m, w, h));
        lemma_cell_index_bounds(w, h, m);
        lemma_cell_index_bounds(w, h, c);
        if cell_index(w, m) == cell_index(w, c) {
            lemma_cell_index_injective(w, h, m, c);
            assert(pre.grid.mines@.contains(c));
        }
    }
}

/// Start one playthrough with a mine layout fixed up front: the eager
/// placement policy, used where the layout is chosen by the caller rather
/// than drawn at the first click. Each mine must be on the board and no cell
/// may be mined twice, else the session is refused with `OutOfBounds` or
/// `ConfigurationError`; the mine count must leave at least one free cell,
/// as with `start_session`.
pub fn start_session_with_mines(width: u32, height: u32, mines: Vec<Coord>) -> (r: Result<
    Session,
    GameError,
>)
    ensures
        r is Ok ==> {
            let s = r->Ok_0;
            &&& s.wf()
            &&& s.grid.width == width
            &&& s.grid.height == height
            &&& s.grid.mines@ == mines@
            &&& s.mine_count == mines@.len()
            &&& s.mines_placed
            &&& s.status == SessionStatus::Playing
            &&& s.queue@.len() == 0
            &&& s.cells.revealed == 0
            &&& s.cells.flagged == 0
            &&& forall|i: int|
                0 <= i < s.cells.states@.len() ==> s.cells.states@[i] == CellState::Hidden
            &&& s.pending_closed()
        },
        r is Err ==> !{
            &&& session_config_ok(width, height, mines@.len() as u32)
            &&& mines@.len() <= u32::MAX
            &&& mines@.no_duplicates()
            &&& forall|i: int| 0 <= i < mines@.len() ==> in_bounds(#[trigger] mines@[i], width, height)
        },
        (session_config_ok(width, height, mines@.len() as u32) && mines@.len() <= u32::MAX
            && mines@.no_duplicates() && (forall|i: int|
            0 <= i < mines@.len() ==> in_bounds(#[trigger] mines@[i], width, height))) ==> r is Ok,
{
    proof {
        assert((width as int) * (height as int) < 0x10000000000000000) by (nonlinear_arith)
            requires
                width <= 0xffffffffu32,
                height <= 0xffffffffu32,
        {
        }
    }
    let total: u64 = (width as u64) * (height as u64);
    if mines.len() as u64 > (u32::MAX as u64) {
        return Err(GameError::ConfigurationError);
    }
    if total > (usize::MAX as u64) || (mines.len() as u64) + 1 > total {
        return Err(GameError::ConfigurationError);
    }
    let mut grid = Grid::new(width, height);
    let mut k: usize = 0;
    while k < mines.len()
        invariant
            grid.wf(),
            grid.width == width,
            grid.height == height,
            k <= mines@.len(),
            grid.mines@ == mines@.subrange(0, k as int),
        decreases mines@.len() - k,
    {
        let m = mines[k];
        if m.x >= width || m.y >= height {
            return Err(GameError::OutOfBounds);
        }
        if grid.is_mine(m) {
            return Err(GameError::ConfigurationError);
        }
        proof {
            crate::grid::lemma_push_distinct(grid.mines@, m);
            assert(grid.mines@.push(m) =~= mines@.subrange(0, k + 1));
        }
        grid.mines.push(m);
        k = k + 1;
    }
    proof {
        assert(grid.mines@ =~= mines@);
    }
    let cells = CellStore::new(width, height);
    let session = Session {
        grid,
        cells,
        queue: VecDeque::new(),
        status: SessionStatus::Playing,
        mine_count: mines.len() as u32,
        mines_placed: true,
    };
    proof {
        assert forall|i: int| 0 <= i < session.grid.mines@.len() implies session.cells.state_at(
            #[trigger] session.grid.mines@[i],
        ) != CellState::Revealed by {
            lemma_no_revealed_when_zero(session.cells, session.grid.mines@[i]);
        }
        assert forall|a: Coord, n: Coord|
            {
                &&& session.on_board(a)
                &&& session.on_board(n)
                &&& #[trigger] is_adjacent(a, n)
                &&& session.state_at(a) == CellState::Revealed
                &&& !session.mine_at(a)
                &&& session.adj_at(a) == 0
                &&& session.state_at(n) != CellState::Revealed
                &&& session.state_at(n) != CellState::Flagged
            } implies session.queue@.contains(n) by {
            lemma_no_revealed_when_zero(session.cells, a);
        }
    }
    Ok(session)
}

/// Start one playthrough. The mine layout is deferred to the first reveal so
/// that the first-clicked cell is never a mine; for that to be possible the
/// mine count must leave at least one cell free, else the session is refused
/// with `ConfigurationError`.
pub fn start_session(width: u32, height: u32, mine_count: u32) -> (r: Result<Session, GameError>)
    ensures
        r is Err <==> !session_config_ok(width, height, mine_count),
        r is Err ==> r == Err::<Session, GameError>(GameError::ConfigurationError),
        r is Ok ==> {
            let s = r->Ok_0;
            &&& s.wf()
            &&& s.grid.width == width
            &&& s.grid.height == height
            &&& s.mine_count == mine_count
            &&& !s.mines_placed
            &&& s.status == SessionStatus::Playing
            &&& s.queue@.len() == 0
            &&& s.cells.revealed == 0
            &&& s.cells.flagged == 0
            &&& forall|i: int|
                0 <= i < s.cells.states@.len() ==> s.cells.states@[i] == CellState::Hidden
            &&& s.pending_closed()
        },
{
    proof {
        assert((width as int) * (height as int) < 0x10000000000000000) by (nonlinear_arith)
            requires
                width <= 0xffffffffu32,
                height <= 0xffffffffu32,
        {
        }
    }
    let total: u64 = (width as u64) * (height as u64);
    if total > (usize::MAX as u64) || (mine_count as u64) + 1 > total {
        return Err(GameError::ConfigurationError);
    }
    let grid = Grid::new(width, height);
    let cells = CellStore::new(width, height);
    let session = Session {
        grid,
        cells,
        queue: VecDeque::new(),
        status: SessionStatus::Playing,
        mine_count,
        mines_placed: false,
    };
    proof {
        assert forall|c: Coord, n: Coord|
            {
                &&& session.on_board(c)
                &&& session.on_board(n)
                &&& #[trigger] is_adjacent(c, n)
                &&& session.state_at(c) == CellState::Revealed
                &&& !session.mine_at(c)
                &&& session.adj_at(c) == 0
                &&& session.state_at(n) != CellState::Revealed
                &&& session.state_at(n) != CellState::Flagged
            } implies session.queue@.contains(n) by {
            lemma_cell_index_bounds(width, height, c);
        }
    }
    Ok(session)
}

} // verus!
