//! The win condition, characterized: the counter test used by the evaluator
//! holds exactly when every non-mine cell is revealed and every mine is
//! flagged, as long as no mine has been revealed.

use vstd::prelude::*;

use crate::cells::{count_state, CellState};
use crate::coord::{
    cell_index, coord_of_index, in_bounds, lemma_cell_index_bounds, lemma_cell_index_injective,
    lemma_coord_index_roundtrip, lemma_index_coord_inverse, Coord,
};
use crate::grid::lemma_push_distinct;
use crate::session::{Session, SessionStatus};

verus! {

/// The elementwise win condition: every mine flagged, every other cell
/// revealed.
pub open spec fn board_cleared(s: Session) -> bool {
    forall|c: Coord|
        s.on_board(c) ==> {
            &&& (s.mine_at(c) ==> #[trigger] s.state_at(c) == CellState::Flagged)
            &&& (!s.mine_at(c) ==> s.state_at(c) == CellState::Revealed)
        }
}

/// How many entries of `p` are true.
pub open spec fn count_true(p: Seq<bool>) -> nat
    decreases p.len(),
{
    if p.len() == 0 {
        0
    } else {
        count_true(p.drop_last()) + (if p.last() {
            1nat
        } else {
            0nat
        })
    }
}

/// Which row-major indices of the board hold a mine.
pub open spec fn mine_map(mines: Seq<Coord>, width: u32, total: int) -> Seq<bool> {
    Seq::new(total as nat, |i: int| mines.contains(coord_of_index(width, i)))
}

proof fn lemma_count_true_le_len(p: Seq<bool>)
    ensures
        count_true(p) <= p.len(),
    decreases p.len(),
{
    if p.len() > 0 {
        lemma_count_true_le_len(p.drop_last());
    }
}

proof fn lemma_count_true_update(p: Seq<bool>, i: int, v: bool)
    requires
        0 <= i < p.len(),
    ensures
        count_true(p.update(i, v)) == count_true(p) - (if p[i] {
            1int
        } else {
            0int
        }) + (if v {
            1int
        } else {
            0int
        }),
    decreases p.len(),
{
    if i == p.len() - 1 {
        assert(p.update(i, v).drop_last() =~= p.drop_last());
        assert(p.update(i, v).last() == v);
    } else {
        assert(p.update(i, v).drop_last() =~= p.drop_last().update(i, v));
        assert(p.update(i, v).last() == p.last());
        lemma_count_true_update(p.drop_last(), i, v);
    }
}

proof fn lemma_count_true_all_false(p: Seq<bool>)
    requires
        forall|i: int| 0 <= i < p.len() ==> !p[i],
    ensures
        count_true(p) == 0,
    decreases p.len(),
{
    if p.len() > 0 {
        lemma_count_true_all_false(p.drop_last());
    }
}

/// Where one sequence of marks negates another, their counts partition the
/// length.
proof fn lemma_count_true_complement(p: Seq<bool>, q: Seq<bool>)
    requires
        p.len() == q.len(),
        forall|i: int| 0 <= i < p.len() ==> p[i] == !q[i],
    ensures
        count_true(p) == p.len() - count_true(q),
    decreases p.len(),
{
    if p.len() > 0 {
        lemma_count_true_complement(p.drop_last(), q.drop_last());
    }
}

/// A state confined to marked positions occurs at most as often as the mark.
proof fn lemma_count_bound(s: Seq<CellState>, p: Seq<bool>, t: CellState)
    requires
        s.len() == p.len(),
        forall|i: int| 0 <= i < s.len() && !p[i] ==> s[i] != t,
    ensures
        count_state(s, t) <= count_true(p),
    decreases s.len(),
{
    if s.len() > 0 {
        lemma_count_bound(s.drop_last(), p.drop_last(), t);
    }
}

/// A state confined to marked positions that reaches the mark's count stands
/// at every marked position.
proof fn lemma_count_forces(s: Seq<CellState>, p: Seq<bool>, t: CellState)
    requires
        s.len() == p.len(),
        forall|i: int| 0 <= i < s.len() && !p[i] ==> s[i] != t,
        count_state(s, t) == count_true(p),
    ensures
        forall|i: int| 0 <= i < s.len() && p[i] ==> s[i] == t,
    decreases s.len(),
{
    if s.len() > 0 {
        lemma_count_bound(s.drop_last(), p.drop_last(), t);
        if p.last() && s.last() != t {
            assert(count_state(s, t) == count_state(s.drop_last(), t));
            assert(count_true(p) == count_true(p.drop_last()) + 1);
            assert(false);
        }
        lemma_count_forces(s.drop_last(), p.drop_last(), t);
        assert forall|i: int| 0 <= i < s.len() && p[i] implies s[i] == t by {
            if i < s.len() - 1 {
                assert(s.drop_last()[i] == s[i] && p.drop_last()[i] == p[i]);
            }
        }
    }
}

/// A state standing exactly at the marked positions occurs exactly as often
/// as the mark.
proof fn lemma_count_exact(s: Seq<CellState>, p: Seq<bool>, t: CellState)
    requires
        s.len() == p.len(),
        forall|i: int| 0 <= i < s.len() ==> (s[i] == t) == p[i],
    ensures
        count_state(s, t) == count_true(p),
    decreases s.len(),
{
    if s.len() > 0 {
        lemma_count_exact(s.drop_last(), p.drop_last(), t);
    }
}

/// A duplicate-free list of on-board mines marks exactly as many indices as
/// it has entries.
proof fn lemma_mine_map_count(mines: Seq<Coord>, width: u32, height: u32)
    requires
        mines.no_duplicates(),
        forall|i: int| 0 <= i < mines.len() ==> in_bounds(#[trigger] mines[i], width, height),
        mines.len() <= width * height,
    ensures
        count_true(mine_map(mines, width, (width as int) * (height as int))) == mines.len(),
    decreases mines.len(),
{
    let total = (width as int) * (height as int);
    let mm = mine_map(mines, width, total);
    if mines.len() == 0 {
        assert forall|i: int| 0 <= i < mm.len() implies !mm[i] by {
            if mines.contains(coord_of_index(width, i)) {
                let t = choose|t: int| 0 <= t < mines.len() && mines[t] == coord_of_index(width, i);
            }
        }
        lemma_count_true_all_false(mm);
    } else {
        let prev = mines.drop_last();
        let m = mines.last();
        assert(prev.push(m) =~= mines);
        assert(!prev.contains(m)) by {
            if prev.contains(m) {
                let t = choose|t: int| 0 <= t < prev.len() && prev[t] == m;
                assert(mines[t] == mines[mines.len() - 1]);
            }
        }
        lemma_push_distinct(prev, m);
        assert forall|i: int| 0 <= i < prev.len() implies in_bounds(
            #[trigger] prev[i],
            width,
            height,
        ) by {
            assert(prev[i] == mines[i]);
        }
        lemma_mine_map_count(prev, width, height);
        let pm = mine_map(prev, width, total);
        lemma_cell_index_bounds(width, height, m);
        lemma_coord_index_roundtrip(width, height, m);
        let mi = cell_index(width, m);
        assert(mm =~= pm.update(mi, true)) by {
            assert forall|i: int| 0 <= i < total implies mm[i] == pm.update(mi, true)[i] by {
                if i == mi {
                    assert(mines.contains(m));
                } else {
                    lemma_index_coord_inverse(width, height, i);
                    assert(coord_of_index(width, i) != m);
                    assert(mines.contains(coord_of_index(width, i)) == (prev.contains(
                        coord_of_index(width, i),
                    ) || coord_of_index(width, i) == m));
                }
            }
        }
        assert(!pm[mi]);
        lemma_count_true_update(pm, mi, true);
    }
}

/// The win condition over the maintained counters holds exactly when the
/// board is cleared elementwise: every non-mine cell revealed and every mine
/// flagged. Counting alone suffices because mines are never revealed before
/// the game is lost: as many revealed cells as non-mines then forces every
/// non-mine to be revealed, which in turn confines the equally counted flags
/// to the mines.
pub proof fn lemma_win_characterization(s: &Session)
    requires
        s.wf(),
        s.mines_placed,
        s.status != SessionStatus::Lost,
    ensures
        s.win_counts() <==> board_cleared(*s),
{
    let w = s.grid.width;
    let h = s.grid.height;
    let total = (w as int) * (h as int);
    assert(w > 0) by (nonlinear_arith)
        requires
            (w as int) * (h as int) >= 1,
    {
    }
    let states = s.cells.states@;
    let mines = s.grid.mines@;
    let mm = mine_map(mines, w, total);
    let nm = Seq::new(total as nat, |i: int| !mm[i]);
    lemma_mine_map_count(mines, w, h);
    lemma_count_true_complement(nm, mm);
    // No mine index is revealed, by the session invariant.
    assert forall|i: int| 0 <= i < total && mm[i] implies states[i] != CellState::Revealed by {
        let c = coord_of_index(w, i);
        lemma_index_coord_inverse(w, h, i);
        let t = choose|t: int| 0 <= t < mines.len() && mines[t] == c;
        assert(s.cells.state_at(mines[t]) != CellState::Revealed);
    }
    if s.win_counts() {
        assert(count_state(states, CellState::Revealed) == count_true(nm));
        lemma_count_forces(states, nm, CellState::Revealed);
        assert(count_state(states, CellState::Flagged) == count_true(mm));
        assert forall|i: int| 0 <= i < total && !mm[i] implies states[i] != CellState::Flagged by {
            assert(nm[i]);
            assert(states[i] == CellState::Revealed);
        }
        lemma_count_forces(states, mm, CellState::Flagged);
        assert forall|c: Coord| s.on_board(c) implies {
            &&& (s.mine_at(c) ==> #[trigger] s.state_at(c) == CellState::Flagged)
            &&& (!s.mine_at(c) ==> s.state_at(c) == CellState::Revealed)
        } by {
            lemma_cell_index_bounds(w, h, c);
            lemma_coord_index_roundtrip(w, h, c);
            let i = cell_index(w, c);
            assert(mm[i] == s.mine_at(c));
        }
    }
    if board_cleared(*s) {
        assert forall|i: int| 0 <= i < total implies ((states[i] == CellState::Revealed) == nm[i])
            && ((states[i] == CellState::Flagged) == mm[i]) by {
            let c = coord_of_index(w, i);
            lemma_index_coord_inverse(w, h, i);
            assert(s.mine_at(c) == mm[i]);
            assert(s.state_at(c) == states[i]);
            if s.mine_at(c) {
                assert(s.state_at(c) == CellState::Flagged);
            } else {
                assert(s.state_at(c) == CellState::Revealed);
            }
        }
        lemma_count_exact(states, nm, CellState::Revealed);
        lemma_count_exact(states, mm, CellState::Flagged);
    }
}

/// A session the evaluator has marked `Won` has its board cleared: every
/// non-mine cell revealed and every mine flagged.
pub proof fn lemma_won_board_cleared(s: &Session)
    requires
        s.wf(),
        s.status == SessionStatus::Won,
    ensures
        board_cleared(*s),
{
    lemma_win_characterization(s);
}

} // verus!
