//! Mine placement and mine lookup: the grid owns the set of mine
//! coordinates, generated at a fixed count from uniformly random draws.

use vstd::prelude::*;

use rand::Rng;

use crate::coord::{
    lemma_cell_index_injective,
    cell_index, coord_of_index, in_bounds, is_adjacent, lemma_cell_index_bounds,
    lemma_index_coord_inverse, Coord,
};
use crate::GameError;

verus! {

/// How many of the listed mines are adjacent to `c`. On a duplicate-free
/// mine list this is the cell's adjacency count.
pub open spec fn count_adjacent(mines: Seq<Coord>, c: Coord) -> nat
    decreases mines.len(),
{
    if mines.len() == 0 {
        0
    } else {
        count_adjacent(mines.drop_last(), c) + (if is_adjacent(c, mines.last()) {
            1nat
        } else {
            0nat
        })
    }
}

/// Appending one mine raises the count exactly when it is adjacent.
pub proof fn lemma_count_adjacent_push(mines: Seq<Coord>, m: Coord, c: Coord)
    ensures
        count_adjacent(mines.push(m), c) == count_adjacent(mines, c) + (if is_adjacent(c, m) {
            1nat
        } else {
            0nat
        }),
{
    assert(mines.push(m).drop_last() =~= mines);
}

/// A cell with adjacency count zero has no mine among its neighbors.
pub proof fn lemma_count_adjacent_zero(mines: Seq<Coord>, c: Coord)
    requires
        count_adjacent(mines, c) == 0,
    ensures
        forall|i: int| 0 <= i < mines.len() ==> !is_adjacent(c, #[trigger] mines[i]),
    decreases mines.len(),
{
    if mines.len() > 0 {
        lemma_count_adjacent_zero(mines.drop_last(), c);
        assert forall|i: int| 0 <= i < mines.len() implies !is_adjacent(c, #[trigger] mines[i]) by {
            if i < mines.len() - 1 {
                assert(mines.drop_last()[i] == mines[i]);
            }
        }
    }
}

/// The coordinates where a fresh mine may still go, scanning the first `n`
/// row-major cells: every cell that holds no mine yet and is not excluded.
pub open spec fn candidate_seq(g: Grid, exclusion: Option<Coord>, n: int) -> Seq<Coord>
    decreases n,
{
    if n <= 0 {
        Seq::empty()
    } else {
        let c = coord_of_index(g.width, n - 1);
        let rest = candidate_seq(g, exclusion, n - 1);
        if g.mines@.contains(c) || exclusion == Some(c) {
            rest
        } else {
            rest.push(c)
        }
    }
}

/// How many cells are open to a fresh mine on the whole board.
pub open spec fn available_cells(g: Grid, exclusion: Option<Coord>) -> int {
    candidate_seq(g, exclusion, g.width * g.height).len() as int
}

/// Candidate cells are on the board, mine-free, not excluded, and each cell
/// appears at most once.
proof fn lemma_candidate_seq_props(g: Grid, exclusion: Option<Coord>, n: int)
    requires
        g.width > 0,
        0 <= n <= g.width * g.height,
    ensures
        candidate_seq(g, exclusion, n).no_duplicates(),
        forall|i: int|
            0 <= i < candidate_seq(g, exclusion, n).len() ==> {
                let c = #[trigger] candidate_seq(g, exclusion, n)[i];
                &&& in_bounds(c, g.width, g.height)
                &&& !g.mines@.contains(c)
                &&& exclusion != Some(c)
                &&& 0 <= cell_index(g.width, c) < n
            },
    decreases n,
{
    if n > 0 {
        lemma_candidate_seq_props(g, exclusion, n - 1);
        lemma_index_coord_inverse(g.width, g.height, n - 1);
        let c = coord_of_index(g.width, n - 1);
        let rest = candidate_seq(g, exclusion, n - 1);
        let s = candidate_seq(g, exclusion, n);
        if g.mines@.contains(c) || exclusion == Some(c) {
            assert(s =~= rest);
        } else {
            assert(s =~= rest.push(c));
            assert forall|i1: int, i2: int|
                0 <= i1 < s.len() && 0 <= i2 < s.len() && i1 != i2 implies s[i1] != s[i2] by {
                if i1 < s.len() - 1 && i2 < s.len() - 1 {
                    assert(s[i1] == rest[i1] && s[i2] == rest[i2]);
                } else if i1 == s.len() - 1 {
                    assert(cell_index(g.width, s[i2]) < n - 1);
                } else {
                    assert(cell_index(g.width, s[i1]) < n - 1);
                }
            }
        }
    }
}

/// On a board with no mines yet, excluding one on-board cell leaves exactly
/// `n - 1` of the first `n` cells available (all `n` while the excluded
/// cell's index is not yet reached).
pub(crate) proof fn lemma_candidate_seq_no_mines(g: Grid, e: Coord, n: int)
    requires
        g.width > 0,
        g.mines@.len() == 0,
        in_bounds(e, g.width, g.height),
        0 <= n <= g.width * g.height,
    ensures
        candidate_seq(g, Some(e), n).len() == n - (if cell_index(g.width, e) < n {
            1int
        } else {
            0int
        }),
    decreases n,
{
    if n > 0 {
        lemma_candidate_seq_no_mines(g, e, n - 1);
        lemma_index_coord_inverse(g.width, g.height, n - 1);
        lemma_cell_index_bounds(g.width, g.height, e);
        let c = coord_of_index(g.width, n - 1);
        if c == e {
            assert(cell_index(g.width, e) == n - 1);
        } else {
            if cell_index(g.width, e) == n - 1 {
                lemma_cell_index_injective(g.width, g.height, c, e);
            }
        }
    }
}

/// Appending a fresh element keeps a sequence duplicate-free, and membership
/// grows by exactly that element.
pub(crate) proof fn lemma_push_distinct(s: Seq<Coord>, m: Coord)
    requires
        s.no_duplicates(),
        !s.contains(m),
    ensures
        s.push(m).no_duplicates(),
        forall|x: Coord| #[trigger] s.push(m).contains(x) == (s.contains(x) || x == m),
{
    assert forall|i1: int, i2: int|
        0 <= i1 < s.push(m).len() && 0 <= i2 < s.push(m).len() && i1 != i2 implies s.push(m)[i1]
        != s.push(m)[i2] by {
        if i1 < s.len() && i2 < s.len() {
        } else if i2 == s.len() {
            if s[i1] == m {
                assert(s.contains(s[i1]));
            }
        } else {
            if s[i2] == m {
                assert(s.contains(s[i2]));
            }
        }
    }
    assert forall|x: Coord| #[trigger] s.push(m).contains(x) == (s.contains(x) || x == m) by {
        if s.push(m).contains(x) {
            let t = choose|t: int| 0 <= t < s.push(m).len() && s.push(m)[t] == x;
            if t < s.len() {
                assert(s[t] == x);
            }
        }
        if s.contains(x) {
            let t = choose|t: int| 0 <= t < s.len() && s[t] == x;
            assert(s.push(m)[t] == x);
        }
        if x == m {
            assert(s.push(m)[s.len() as int] == x);
        }
    }
}

/// Removing index `j` of a duplicate-free sequence by a swap with the last
/// element keeps it duplicate-free and drops exactly the element at `j`.
proof fn lemma_swap_remove_keeps_distinct(s: Seq<Coord>, j: int)
    requires
        s.no_duplicates(),
        0 <= j < s.len(),
    ensures
        s.update(j, s.last()).drop_last().no_duplicates(),
        forall|x: Coord|
            #[trigger] s.update(j, s.last()).drop_last().contains(x) == (s.contains(x) && x
                != s[j]),
{
    let r = s.update(j, s.last()).drop_last();
    let n = s.len() as int;
    assert(r.len() == n - 1);
    assert forall|i1: int, i2: int|
        0 <= i1 < r.len() && 0 <= i2 < r.len() && i1 != i2 implies r[i1] != r[i2] by {
        assert(r[i1] == (if i1 == j {
            s[n - 1]
        } else {
            s[i1]
        }));
        assert(r[i2] == (if i2 == j {
            s[n - 1]
        } else {
            s[i2]
        }));
    }
    assert forall|x: Coord| #[trigger] r.contains(x) implies (s.contains(x) && x != s[j]) by {
        let i = choose|i: int| 0 <= i < r.len() && r[i] == x;
        if i == j {
            assert(s[n - 1] == x);
            assert(j < n - 1);
        } else {
            assert(s[i] == x);
        }
    }
    assert forall|x: Coord| s.contains(x) && x != s[j] implies #[trigger] r.contains(x) by {
        let i = choose|i: int| 0 <= i < s.len() && s[i] == x;
        if i == n - 1 {
            assert(j < n - 1);
            assert(r[j] == x);
        } else {
            assert(r[i] == x);
        }
    }
}

/// Relies on `rand::Rng::gen_range` over `0..bound` on the thread-local
/// generator `rand::thread_rng()`: the sampled value lies below `bound`.
/// `gen_range` panics on an empty range, so the bound must be positive.
#[verifier::external_body]
fn random_below(bound: usize) -> (r: usize)
    requires
        bound > 0,
    ensures
        r < bound,
{
    rand::thread_rng().gen_range(0..bound)
}

/// Mine placement and lookup for one session. The mine list never names a
/// cell twice and never leaves the board.
pub struct Grid {
    pub width: u32,
    pub height: u32,
    pub mines: Vec<Coord>,
}

impl Grid {
    /// Every mine is on the board and no cell is mined twice.
    pub open spec fn wf(self) -> bool {
        &&& forall|i: int|
            0 <= i < self.mines@.len() ==> in_bounds(
                #[trigger] self.mines@[i],
                self.width,
                self.height,
            )
        &&& self.mines@.no_duplicates()
    }

    /// A grid with no mines placed yet.
    pub fn new(width: u32, height: u32) -> (r: Grid)
        ensures
            r.wf(),
            r.width == width,
            r.height == height,
            r.mines@.len() == 0,
    {
        Grid { width, height, mines: Vec::new() }
    }

    /// Whether a mine sits at `c`.
    pub fn is_mine(&self, c: Coord) -> (r: bool)
        ensures
            r == self.mines@.contains(c),
    {
        let mut i: usize = 0;
        while i < self.mines.len()
            invariant
                i <= self.mines@.len(),
                forall|k: int| 0 <= k < i ==> self.mines@[k] != c,
            decreases self.mines@.len() - i,
        {
            if self.mines[i] == c {
                return true;
            }
            i = i + 1;
        }
        false
    }

    /// The mine list, for the end-of-game display.
    pub fn bombs(&self) -> (r: &Vec<Coord>)
        ensures
            r@ == self.mines@,
    {
        &self.mines
    }

    /// Number of mines among the up-to-8 neighbors of `c`.
    pub fn adjacent_mines(&self, c: Coord) -> (r: u32)
        requires
            self.mines@.len() <= u32::MAX,
        ensures
            r == count_adjacent(self.mines@, c),
    {
        let mut i: usize = 0;
        let mut acc: u32 = 0;
        proof {
            assert(self.mines@.take(0) =~= Seq::<Coord>::empty());
        }
        while i < self.mines.len()
            invariant
                i <= self.mines@.len(),
                self.mines@.len() <= u32::MAX,
                acc == count_adjacent(self.mines@.take(i as int), c),
                acc <= i,
            decreases self.mines@.len() - i,
        {
            proof {
                assert(self.mines@.take(i + 1) =~= self.mines@.take(i as int).push(
                    self.mines@[i as int],
                ));
                lemma_count_adjacent_push(self.mines@.take(i as int), self.mines@[i as int], c);
            }
            if c.is_near(&self.mines[i]) {
                acc = acc + 1;
            }
            i = i + 1;
        }
        proof {
            assert(self.mines@.take(i as int) =~= self.mines@);
        }
        acc
    }

    /// Place `mine_count` fresh mines at distinct coordinates sampled
    /// uniformly at random from the cells that hold no mine yet, excluding
    /// `exclusion` if given. Fails with `ConfigurationError`, touching
    /// nothing, exactly when fewer cells than that are open.
    pub fn generate(&mut self, mine_count: u32, exclusion: Option<Coord>) -> (r: Result<
        (),
        GameError,
    >)
        requires
            old(self).wf(),
            old(self).width * old(self).height <= usize::MAX,
        ensures
            final(self).wf(),
            final(self).width == old(self).width,
            final(self).height == old(self).height,
            r is Err <==> mine_count > available_cells(*old(self), exclusion),
            r is Err ==> r == Err::<(), GameError>(GameError::ConfigurationError) && *final(self)
                == *old(self),
            r is Ok ==> {
                &&& final(self).mines@.len() == old(self).mines@.len() + mine_count
                &&& forall|i: int|
                    0 <= i < old(self).mines@.len() ==> final(self).mines@[i] == old(
                        self,
                    ).mines@[i]
                &&& forall|i: int|
                    old(self).mines@.len() <= i < final(self).mines@.len() ==> {
                        let m = #[trigger] final(self).mines@[i];
                        &&& in_bounds(m, old(self).width, old(self).height)
                        &&& !old(self).mines@.contains(m)
                        &&& exclusion != Some(m)
                    }
            },
    {
        let total: usize = (self.width as usize) * (self.height as usize);
        let mut candidates: Vec<Coord> = Vec::new();
        let mut i: usize = 0;
        while i < total
            invariant
                self == old(self),
                total == self.width * self.height,
                i <= total,
                candidates@ == candidate_seq(*self, exclusion, i as int),
            decreases total - i,
        {
            proof {
                assert(self.width > 0) by (nonlinear_arith)
                    requires
                        (i as int) < (self.width as int) * (self.height as int),
                        i >= 0,
                {
                }
                lemma_index_coord_inverse(self.width, self.height, i as int);
            }
            let w = self.width as usize;
            let c = Coord::new((i % w) as u32, (i / w) as u32);
            proof {
                assert(c == coord_of_index(self.width, i as int));
            }
            let excluded = match exclusion {
                Some(e) => c == e,
                None => false,
            };
            if !self.is_mine(c) && !excluded {
                candidates.push(c);
            }
            i = i + 1;
        }
        if (mine_count as usize) > candidates.len() {
            return Err(GameError::ConfigurationError);
        }
        proof {
            if self.width > 0 {
                lemma_candidate_seq_props(*self, exclusion, total as int);
                assert forall|i: int|
                    0 <= i < candidates@.len() implies {
                        let c = #[trigger] candidates@[i];
                        &&& in_bounds(c, self.width, self.height)
                        &&& !self.mines@.contains(c)
                        &&& exclusion != Some(c)
                    } by {
                    assert(candidates@[i] == candidate_seq(*self, exclusion, total as int)[i]);
                }
            } else {
                assert(total == 0) by (nonlinear_arith)
                    requires
                        total == (self.width as int) * (self.height as int),
                        self.width == 0,
                {
                }
                assert(candidates@.len() == 0);
            }
            assert(candidates@.no_duplicates());
        }
        let ghost m0 = self.mines@;
        let ghost c0 = candidates@;
        let mut k: u32 = 0;
        while k < mine_count
            invariant
                self.width == old(self).width,
                self.height == old(self).height,
                k <= mine_count,
                candidates@.len() + k == c0.len(),
                mine_count <= c0.len(),
                self.mines@.len() == m0.len() + k,
                forall|i: int| 0 <= i < m0.len() ==> self.mines@[i] == m0[i],
                self.mines@.no_duplicates(),
                forall|i: int|
                    m0.len() <= i < self.mines@.len() ==> {
                        let m = #[trigger] self.mines@[i];
                        &&& in_bounds(m, old(self).width, old(self).height)
                        &&& !m0.contains(m)
                        &&& exclusion != Some(m)
                    },
                forall|i: int|
                    0 <= i < candidates@.len() ==> {
                        let c = #[trigger] candidates@[i];
                        &&& in_bounds(c, old(self).width, old(self).height)
                        &&& !m0.contains(c)
                        &&& exclusion != Some(c)
                    },
                candidates@.no_duplicates(),
                forall|i: int|
                    0 <= i < candidates@.len() ==> !self.mines@.contains(
                        #[trigger] candidates@[i],
                    ),
            decreases mine_count - k,
        {
            let j = random_below(candidates.len());
            let ghost cand_before = candidates@;
            proof {
                lemma_swap_remove_keeps_distinct(cand_before, j as int);
            }
            let m = candidates.swap_remove(j);
            proof {
                assert(!self.mines@.contains(m) && !m0.contains(m)) by {
                    assert(cand_before.contains(cand_before[j as int]));
                }
                lemma_push_distinct(self.mines@, m);
                assert forall|i: int|
                    0 <= i < candidates@.len() implies !self.mines@.push(m).contains(
                    #[trigger] candidates@[i],
                ) by {
                    let x = candidates@[i];
                    assert(candidates@.contains(x));
                    assert(cand_before.contains(x) && x != cand_before[j as int]);
                    let t = choose|t: int| 0 <= t < cand_before.len() && cand_before[t] == x;
                    assert(!self.mines@.contains(cand_before[t]));
                }
                assert forall|i: int|
                    0 <= i < candidates@.len() implies {
                        let c = #[trigger] candidates@[i];
                        &&& in_bounds(c, old(self).width, old(self).height)
                        &&& !m0.contains(c)
                        &&& exclusion != Some(c)
                    } by {
                    let x = candidates@[i];
                    assert(candidates@.contains(x));
                    assert(cand_before.contains(x) && x != cand_before[j as int]);
                    let t = choose|t: int| 0 <= t < cand_before.len() && cand_before[t] == x;
                    assert(cand_before[t] == x);
                }
            }
            self.mines.push(m);
            k = k + 1;
        }
        proof {
            assert forall|i: int|
                0 <= i < self.mines@.len() implies in_bounds(
                #[trigger] self.mines@[i],
                self.width,
                self.height,
            ) by {
                if i < m0.len() {
                    assert(self.mines@[i] == m0[i]);
                    assert(in_bounds(m0[i], old(self).width, old(self).height));
                }
            }
        }
        Ok(())
    }
}

} // verus!
