//! The domain grid: a fixed width x height array of cells, each either still
//! holding a set of candidate tiles or resolved to a single tile.
//!
//! Candidate sets are stored as one flat vector of booleans, one flag per
//! `(cell, tile)` pair; a cell's candidate set only ever shrinks during one
//! generation attempt (monotone narrowing).

use vstd::prelude::*;

use crate::side::Side;

verus! {

/// Configuration defect: the grid or the tile catalog would be empty.
#[derive(Clone, Copy, Debug, PartialEq, Eq, Structural)]
pub struct ConfigError;

/// The coordinate one step from `(x, y)` in direction `side`.
/// `Up` is toward smaller `y`, `Left` toward smaller `x`.
pub open spec fn step(x: int, y: int, side: Side) -> (int, int) {
    match side {
        Side::Up => (x, y - 1),
        Side::Right => (x + 1, y),
        Side::Down => (x, y + 1),
        Side::Left => (x - 1, y),
    }
}

/// The fixed enumeration order in which a cell's neighbours are listed:
/// left, right, up, down. Iteration order is irrelevant to which
/// eliminations happen, but it fixes which random draw is consumed when, so
/// determinism under a fixed seed depends on it.
pub open spec fn side_order(side: Side) -> int {
    match side {
        Side::Left => 0,
        Side::Right => 1,
        Side::Up => 2,
        Side::Down => 3,
    }
}

/// Stepping in a direction and then in its opposite returns to the start.
pub proof fn lemma_step_opposite(x: int, y: int, side: Side)
    ensures
        step(step(x, y, side).0, step(x, y, side).1, crate::side::opposite_spec(side)) == (x, y),
{
}

/// How many flags of `s` are set.
pub open spec fn count_true(s: Seq<bool>) -> nat
    decreases s.len(),
{
    if s.len() == 0 {
        0nat
    } else {
        count_true(s.drop_last()) + (if s.last() {
            1nat
        } else {
            0nat
        })
    }
}

/// Clearing a set flag lowers the count by exactly one.
pub proof fn lemma_count_true_clear(s: Seq<bool>, i: int)
    requires
        0 <= i < s.len(),
        s[i],
    ensures
        count_true(s.update(i, false)) + 1 == count_true(s),
    decreases s.len(),
{
    if i == s.len() - 1 {
        assert(s.update(i, false).drop_last() =~= s.drop_last());
    } else {
        assert(s.update(i, false).drop_last() =~= s.drop_last().update(i, false));
        lemma_count_true_clear(s.drop_last(), i);
    }
}

/// Setting a cleared flag raises the count by exactly one.
pub proof fn lemma_count_true_set(s: Seq<bool>, i: int)
    requires
        0 <= i < s.len(),
        !s[i],
    ensures
        count_true(s.update(i, true)) == count_true(s) + 1,
    decreases s.len(),
{
    if i == s.len() - 1 {
        assert(s.update(i, true).drop_last() =~= s.drop_last());
    } else {
        assert(s.update(i, true).drop_last() =~= s.drop_last().update(i, true));
        lemma_count_true_set(s.drop_last(), i);
    }
}

/// A flag vector with a cleared flag has fewer set flags than entries.
pub proof fn lemma_count_true_below(s: Seq<bool>, i: int)
    requires
        0 <= i < s.len(),
        !s[i],
    ensures
        count_true(s) < s.len(),
    decreases s.len(),
{
    if i == s.len() - 1 {
        lemma_count_true_le(s.drop_last());
    } else {
        lemma_count_true_below(s.drop_last(), i);
    }
}

/// Monotone narrowing: when candidate flags only ever go from set to
/// cleared - as `Grid::restrict` and the propagation engine guarantee of
/// every step of one attempt - the number of remaining candidates never
/// increases.
pub proof fn lemma_monotone_narrowing(before: Seq<bool>, after: Seq<bool>)
    requires
        after.len() == before.len(),
        forall|i: int| 0 <= i < after.len() ==> (#[trigger] after[i] ==> before[i]),
    ensures
        count_true(after) <= count_true(before),
    decreases after.len(),
{
    if after.len() > 0 {
        assert forall|i: int| 0 <= i < after.drop_last().len() implies (
        #[trigger] after.drop_last()[i] ==> before.drop_last()[i]) by {
            assert(after[i] ==> before[i]);
        }
        lemma_monotone_narrowing(before.drop_last(), after.drop_last());
    }
}

/// No more flags are set than there are entries.
pub proof fn lemma_count_true_le(s: Seq<bool>)
    ensures
        count_true(s) <= s.len(),
    decreases s.len(),
{
    if s.len() > 0 {
        lemma_count_true_le(s.drop_last());
    }
}

/// How many cells of `s` are still unresolved.
pub open spec fn count_none(s: Seq<Option<usize>>) -> nat
    decreases s.len(),
{
    if s.len() == 0 {
        0nat
    } else {
        count_none(s.drop_last()) + (if s.last() is None {
            1nat
        } else {
            0nat
        })
    }
}

/// Resolving an unresolved cell lowers the unresolved count by exactly one.
pub proof fn lemma_count_none_resolve(s: Seq<Option<usize>>, i: int, t: usize)
    requires
        0 <= i < s.len(),
        s[i] is None,
    ensures
        count_none(s.update(i, Some(t))) + 1 == count_none(s),
    decreases s.len(),
{
    if i == s.len() - 1 {
        assert(s.update(i, Some(t)).drop_last() =~= s.drop_last());
    } else {
        assert(s.update(i, Some(t)).drop_last() =~= s.drop_last().update(i, Some(t)));
        lemma_count_none_resolve(s.drop_last(), i, t);
    }
}

/// A cell coordinate in range maps to a cell index in range.
pub proof fn lemma_cell_index_bounds(w: int, h: int, x: int, y: int)
    requires
        0 <= x < w,
        0 <= y < h,
    ensures
        0 <= y * w + x < w * h,
{
    assert(y * w + x < w * h) by (nonlinear_arith)
        requires
            0 <= x < w,
            0 <= y < h,
    ;
    assert(0 <= y * w) by (nonlinear_arith)
        requires
            0 <= y,
            0 <= w,
    ;
}

/// Distinct cell coordinates in range map to distinct cell indices.
pub proof fn lemma_cell_index_injective(w: int, h: int, x1: int, y1: int, x2: int, y2: int)
    requires
        0 <= x1 < w,
        0 <= y1 < h,
        0 <= x2 < w,
        0 <= y2 < h,
        y1 * w + x1 == y2 * w + x2,
    ensures
        x1 == x2 && y1 == y2,
{
    assert(y1 == y2) by (nonlinear_arith)
        requires
            0 <= x1 < w,
            0 <= x2 < w,
            y1 * w + x1 == y2 * w + x2,
    ;
}

/// A `(cell, tile)` pair in range maps to a support index in range.
pub proof fn lemma_sup_index_bounds(w: int, h: int, tc: int, x: int, y: int, t: int)
    requires
        0 <= x < w,
        0 <= y < h,
        0 <= t < tc,
    ensures
        0 <= (y * w + x) * tc + t < w * h * tc,
{
    lemma_cell_index_bounds(w, h, x, y);
    assert((y * w + x) * tc + t < w * h * tc) by (nonlinear_arith)
        requires
            0 <= t < tc,
            0 <= y * w + x < w * h,
    ;
    assert(0 <= (y * w + x) * tc) by (nonlinear_arith)
        requires
            0 <= y * w + x,
            0 <= tc,
    ;
}

/// Distinct `(cell, tile)` pairs in range map to distinct support indices.
pub proof fn lemma_sup_index_injective(
    w: int,
    h: int,
    tc: int,
    x1: int,
    y1: int,
    t1: int,
    x2: int,
    y2: int,
    t2: int,
)
    requires
        0 <= x1 < w,
        0 <= y1 < h,
        0 <= t1 < tc,
        0 <= x2 < w,
        0 <= y2 < h,
        0 <= t2 < tc,
        (y1 * w + x1) * tc + t1 == (y2 * w + x2) * tc + t2,
    ensures
        x1 == x2 && y1 == y2 && t1 == t2,
{
    lemma_cell_index_bounds(w, h, x1, y1);
    lemma_cell_index_bounds(w, h, x2, y2);
    assert(y1 * w + x1 == y2 * w + x2) by (nonlinear_arith)
        requires
            0 <= t1 < tc,
            0 <= t2 < tc,
            0 <= y1 * w + x1,
            0 <= y2 * w + x2,
            (y1 * w + x1) * tc + t1 == (y2 * w + x2) * tc + t2,
    ;
    lemma_cell_index_injective(w, h, x1, y1, x2, y2);
}

/// The domain grid of one generation attempt.
#[derive(Debug)]
pub struct Grid {
    pub width: usize,
    pub height: usize,
    pub tile_count: usize,
    /// One entry per cell, row-major: `Some(tile)` once resolved.
    pub cells: Vec<Option<usize>>,
    /// One flag per `(cell, tile)` pair, cell-major: whether the tile is
    /// still a candidate for the cell.
    pub support: Vec<bool>,
}

impl Grid {
    /// Structural well-formedness of the grid.
    pub open spec fn wf(self) -> bool {
        &&& self.width >= 1
        &&& self.height >= 1
        &&& self.tile_count >= 1
        &&& self.width * self.height <= usize::MAX
        &&& self.width * self.height * self.tile_count <= usize::MAX
        &&& self.cells@.len() == self.width * self.height
        &&& self.support@.len() == self.width * self.height * self.tile_count
        &&& forall|i: int|
            0 <= i < self.cells@.len() ==> ((#[trigger] self.cells@[i]) matches Some(t) ==> t
                < self.tile_count)
    }

    /// Whether `(x, y)` lies on the grid.
    pub open spec fn in_bounds(self, x: int, y: int) -> bool {
        0 <= x < self.width && 0 <= y < self.height
    }

    /// Row-major index of cell `(x, y)`.
    pub open spec fn cell_index(self, x: int, y: int) -> int {
        y * self.width + x
    }

    /// Index of the candidate flag for tile `t` at cell `(x, y)`.
    pub open spec fn sup_index(self, x: int, y: int, t: int) -> int {
        (y * self.width + x) * self.tile_count + t
    }

    /// The cell's state: `Some(tile)` once resolved, `None` while unresolved.
    pub open spec fn cell(self, x: int, y: int) -> Option<usize> {
        self.cells@[self.cell_index(x, y)]
    }

    /// Whether the cell is resolved.
    pub open spec fn resolved(self, x: int, y: int) -> bool {
        self.cell(x, y) is Some
    }

    /// The tile of a resolved cell (meaningful only while resolved).
    pub open spec fn tile_at(self, x: int, y: int) -> usize {
        match self.cell(x, y) {
            Some(t) => t,
            None => 0,
        }
    }

    /// Whether tile `t` is still a candidate at cell `(x, y)` (meaningful
    /// only while the cell is unresolved).
    pub open spec fn cand(self, x: int, y: int, t: int) -> bool {
        self.support@[self.sup_index(x, y, t)]
    }

    /// Whether every cell of the grid is resolved.
    pub open spec fn complete(self) -> bool {
        forall|x: int, y: int| self.in_bounds(x, y) ==> #[trigger] self.resolved(x, y)
    }

    /// Allocates a `x` by `y` grid over a catalog of `tile_count` tiles:
    /// every cell unresolved with every tile still possible. Fails exactly
    /// when the grid or the catalog would be empty.
    pub fn new(x: usize, y: usize, tile_count: usize) -> (r: Result<Grid, ConfigError>)
        requires
            x * y <= usize::MAX,
            x * y * tile_count <= usize::MAX,
        ensures
            r is Err <==> (x == 0 || y == 0 || tile_count == 0),
            r matches Ok(g) ==> {
                &&& g.wf()
                &&& g.width == x
                &&& g.height == y
                &&& g.tile_count == tile_count
                &&& forall|i: int| 0 <= i < g.cells@.len() ==> (#[trigger] g.cells@[i]) is None
                &&& forall|i: int| 0 <= i < g.support@.len() ==> #[trigger] g.support@[i]
            },
    {
        if x == 0 || y == 0 || tile_count == 0 {
            return Err(ConfigError);
        }
        let n: usize = x * y;
        let m: usize = n * tile_count;
        let mut cells: Vec<Option<usize>> = Vec::new();
        let mut i: usize = 0;
        while i < n
            invariant
                i <= n,
                cells@.len() == i,
                forall|j: int| 0 <= j < i ==> (#[trigger] cells@[j]) is None,
            decreases n - i,
        {
            cells.push(None);
            i += 1;
        }
        let mut support: Vec<bool> = Vec::new();
        let mut j: usize = 0;
        while j < m
            invariant
                j <= m,
                support@.len() == j,
                forall|k: int| 0 <= k < j ==> #[trigger] support@[k],
            decreases m - j,
        {
            support.push(true);
            j += 1;
        }
        Ok(Grid { width: x, height: y, tile_count, cells, support })
    }

    /// Read a cell: `Some(tile)` once resolved, `None` while unresolved.
    pub fn get(&self, point: (usize, usize)) -> (r: Option<usize>)
        requires
            self.wf(),
            self.in_bounds(point.0 as int, point.1 as int),
        ensures
            r == self.cell(point.0 as int, point.1 as int),
    {
        let (x, y) = point;
        proof {
            lemma_cell_index_bounds(self.width as int, self.height as int, x as int, y as int);
        }
        self.cells[y * self.width + x]
    }

    /// How many neighbours cell `(x, y)` has: 2 at a corner, 3 on an edge,
    /// 4 in the interior. There is no wraparound.
    pub open spec fn nbr_count(self, x: int, y: int) -> int {
        (if x > 0 {
            1int
        } else {
            0int
        }) + (if x + 1 < self.width {
            1int
        } else {
            0int
        }) + (if y > 0 {
            1int
        } else {
            0int
        }) + (if y + 1 < self.height {
            1int
        } else {
            0int
        })
    }

    /// Whether `e` is a well-formed neighbour entry of `(x, y)`: its
    /// coordinate is one step from `(x, y)` in its direction, on the grid.
    pub open spec fn nbr_entry(self, x: int, y: int, e: ((usize, usize), Side)) -> bool {
        let p = step(x, y, e.1);
        e.0.0 == p.0 && e.0.1 == p.1 && self.in_bounds(p.0, p.1)
    }

    /// Returns the neighbours of `(x, y)` as `(coordinate, side)` pairs,
    /// where the side points from `(x, y)` toward the neighbour:
    /// `((x-1, y), Left) <- (x, y) -> ((x+1, y), Right)`.
    /// Directions that would leave the grid are omitted.
    pub fn neighbours(&self, point: (usize, usize)) -> (r: Vec<((usize, usize), Side)>)
        requires
            self.wf(),
            self.in_bounds(point.0 as int, point.1 as int),
        ensures
            r@.len() == self.nbr_count(point.0 as int, point.1 as int),
            forall|i: int|
                0 <= i < r@.len() ==> self.nbr_entry(point.0 as int, point.1 as int, #[trigger] r@[i]),
            forall|i: int, j: int|
                0 <= i < j < r@.len() ==> side_order(r@[i].1) < side_order(r@[j].1),
            forall|side: Side|
                self.in_bounds(
                    #[trigger] step(point.0 as int, point.1 as int, side).0,
                    step(point.0 as int, point.1 as int, side).1,
                ) ==> exists|i: int| 0 <= i < r@.len() && (#[trigger] r@[i]).1 == side,
    {
        let (x, y) = point;
        let mut result: Vec<((usize, usize), Side)> = Vec::new();
        if x > 0 {
            result.push(((x - 1, y), Side::Left));
        }
        if x + 1 < self.width {
            result.push(((x + 1, y), Side::Right));
        }
        if y > 0 {
            result.push(((x, y - 1), Side::Up));
        }
        if y + 1 < self.height {
            result.push(((x, y + 1), Side::Down));
        }
        proof {
            let gx = x as int;
            let gy = y as int;
            assert forall|side: Side|
                self.in_bounds(#[trigger] step(gx, gy, side).0, step(gx, gy, side).1) implies
            exists|i: int| 0 <= i < result@.len() && (#[trigger] result@[i]).1 == side by {
                match side {
                    Side::Left => {
                        let i = 0int;
                        assert(0 <= i < result@.len() && result@[i].1 == Side::Left);
                    },
                    Side::Right => {
                        let i = if gx > 0 {
                            1int
                        } else {
                            0int
                        };
                        assert(0 <= i < result@.len() && result@[i].1 == Side::Right);
                    },
                    Side::Up => {
                        let i = (if gx > 0 {
                            1int
                        } else {
                            0int
                        }) + (if gx + 1 < self.width {
                            1int
                        } else {
                            0int
                        });
                        assert(0 <= i < result@.len() && result@[i].1 == Side::Up);
                    },
                    Side::Down => {
                        let i = result@.len() - 1;
                        assert(0 <= i < result@.len() && result@[i].1 == Side::Down);
                    },
                }
            }
        }
        result
    }

    /// Read-only view of a cell's remaining candidate set, as the ascending
    /// list of tile indices still possible (meaningful only while the cell is
    /// unresolved).
    pub fn candidates(&self, point: (usize, usize)) -> (r: Vec<usize>)
        requires
            self.wf(),
            self.in_bounds(point.0 as int, point.1 as int),
        ensures
            forall|i: int|
                0 <= i < r@.len() ==> #[trigger] r@[i] < self.tile_count && self.cand(
                    point.0 as int,
                    point.1 as int,
                    r@[i] as int,
                ),
            forall|t: int|
                0 <= t < self.tile_count && self.cand(point.0 as int, point.1 as int, t)
                    ==> r@.contains(t as usize),
            forall|i: int, j: int| 0 <= i < j < r@.len() ==> r@[i] < r@[j],
    {
        let (x, y) = point;
        proof {
            lemma_cell_index_bounds(self.width as int, self.height as int, x as int, y as int);
            lemma_sup_index_bounds(
                self.width as int,
                self.height as int,
                self.tile_count as int,
                x as int,
                y as int,
                0,
            );
        }
        let base: usize = (y * self.width + x) * self.tile_count;
        let mut result: Vec<usize> = Vec::new();
        let mut t: usize = 0;
        while t < self.tile_count
            invariant
                self.wf(),
                self.in_bounds(x as int, y as int),
                t <= self.tile_count,
                base == (y * self.width + x) * self.tile_count,
                forall|i: int|
                    0 <= i < result@.len() ==> #[trigger] result@[i] < t && self.cand(
                        x as int,
                        y as int,
                        result@[i] as int,
                    ),
                forall|u: int|
                    0 <= u < t && self.cand(x as int, y as int, u) ==> result@.contains(u as usize),
                forall|i: int, j: int| 0 <= i < j < result@.len() ==> result@[i] < result@[j],
            decreases self.tile_count - t,
        {
            proof {
                lemma_sup_index_bounds(
                    self.width as int,
                    self.height as int,
                    self.tile_count as int,
                    x as int,
                    y as int,
                    t as int,
                );
            }
            let ghost prev = result@;
            if self.support[base + t] {
                result.push(t);
                proof {
                    assert forall|u: int|
                        0 <= u < t + 1 && self.cand(x as int, y as int, u) implies result@.contains(
                        u as usize,
                    ) by {
                        if u < t {
                            assert(prev.contains(u as usize));
                            let k = choose|k: int| 0 <= k < prev.len() && prev[k] == (u as usize);
                            assert(result@[k] == u as usize);
                        } else {
                            assert(result@[result@.len() - 1] == t);
                        }
                    }
                }
            }
            t += 1;
        }
        result
    }

    /// Transitions an unresolved cell to `Resolved(tile)`. The tile must
    /// still be a member of the cell's candidate set.
    pub fn resolve(&mut self, point: (usize, usize), tile: usize)
        requires
            old(self).wf(),
            old(self).in_bounds(point.0 as int, point.1 as int),
            !old(self).resolved(point.0 as int, point.1 as int),
            tile < old(self).tile_count,
            old(self).cand(point.0 as int, point.1 as int, tile as int),
        ensures
            final(self).wf(),
            final(self).width == old(self).width,
            final(self).height == old(self).height,
            final(self).tile_count == old(self).tile_count,
            final(self).support@ == old(self).support@,
            final(self).cells@ == old(self).cells@.update(
                old(self).cell_index(point.0 as int, point.1 as int),
                Some(tile),
            ),
            final(self).resolved(point.0 as int, point.1 as int),
            final(self).tile_at(point.0 as int, point.1 as int) == tile,
            forall|x2: int, y2: int|
                final(self).in_bounds(x2, y2) && (x2, y2) != (point.0 as int, point.1 as int)
                    ==> #[trigger] final(self).cell(x2, y2) == old(self).cell(x2, y2),
            count_none(final(self).cells@) + 1 == count_none(old(self).cells@),
    {
        let (x, y) = point;
        proof {
            lemma_cell_index_bounds(self.width as int, self.height as int, x as int, y as int);
        }
        let idx: usize = y * self.width + x;
        self.cells[idx] = Some(tile);
        proof {
            lemma_count_none_resolve(old(self).cells@, idx as int, tile);
            assert forall|x2: int, y2: int|
                self.in_bounds(x2, y2) && (x2, y2) != (x as int, y as int) implies #[trigger] self
                .cell(x2, y2) == old(self).cell(x2, y2) by {
                lemma_cell_index_bounds(self.width as int, self.height as int, x2, y2);
                if self.cell_index(x2, y2) == self.cell_index(x as int, y as int) {
                    lemma_cell_index_injective(
                        self.width as int,
                        self.height as int,
                        x2,
                        y2,
                        x as int,
                        y as int,
                    );
                }
            }
        }
    }

    /// Removes `tile` from an unresolved cell's candidate set. Idempotent.
    /// Returns `(shrank, emptied)`: whether the set actually shrank, and
    /// whether it became empty as a result (the contradiction signal).
    /// Removing a tile that is already excluded is a no-op: neither signal
    /// fires and the grid is unchanged.
    pub fn restrict(&mut self, point: (usize, usize), tile: usize) -> (r: (bool, bool))
        requires
            old(self).wf(),
            old(self).in_bounds(point.0 as int, point.1 as int),
            !old(self).resolved(point.0 as int, point.1 as int),
            tile < old(self).tile_count,
        ensures
            final(self).wf(),
            final(self).width == old(self).width,
            final(self).height == old(self).height,
            final(self).tile_count == old(self).tile_count,
            final(self).cells@ == old(self).cells@,
            final(self).support@.len() == old(self).support@.len(),
            r.0 == old(self).cand(point.0 as int, point.1 as int, tile as int),
            !final(self).cand(point.0 as int, point.1 as int, tile as int),
            !r.0 ==> final(self).support@ == old(self).support@,
            r.0 ==> final(self).support@ == old(self).support@.update(
                old(self).sup_index(point.0 as int, point.1 as int, tile as int),
                false,
            ),
            r.0 ==> count_true(final(self).support@) + 1 == count_true(old(self).support@),
            forall|i: int|
                0 <= i < final(self).support@.len() ==> (#[trigger] final(self).support@[i]
                    ==> old(self).support@[i]),
            forall|x2: int, y2: int, t2: int|
                final(self).in_bounds(x2, y2) && 0 <= t2 < final(self).tile_count && (x2, y2, t2)
                    != (point.0 as int, point.1 as int, tile as int)
                    ==> #[trigger] final(self).cand(x2, y2, t2) == old(self).cand(x2, y2, t2),
            r.1 == (r.0 && forall|t2: int|
                0 <= t2 < final(self).tile_count ==> !final(self).cand(
                    point.0 as int,
                    point.1 as int,
                    t2,
                )),
    {
        let (x, y) = point;
        proof {
            lemma_cell_index_bounds(self.width as int, self.height as int, x as int, y as int);
            lemma_sup_index_bounds(
                self.width as int,
                self.height as int,
                self.tile_count as int,
                x as int,
                y as int,
                tile as int,
            );
        }
        let base: usize = (y * self.width + x) * self.tile_count;
        let idx: usize = base + tile;
        if !self.support[idx] {
            proof {
                lemma_unchanged_cands(*self, *self, x as int, y as int, tile as int);
            }
            return (false, false);
        }
        self.support[idx] = false;
        proof {
            lemma_count_true_clear(old(self).support@, idx as int);
            lemma_unchanged_cands(*old(self), *self, x as int, y as int, tile as int);
        }
        let mut any: bool = false;
        let mut t: usize = 0;
        while t < self.tile_count
            invariant
                self.wf(),
                self.in_bounds(x as int, y as int),
                t <= self.tile_count,
                base == (y * self.width + x) * self.tile_count,
                any == exists|t2: int| 0 <= t2 < t && #[trigger] self.cand(x as int, y as int, t2),
            decreases self.tile_count - t,
        {
            proof {
                lemma_sup_index_bounds(
                    self.width as int,
                    self.height as int,
                    self.tile_count as int,
                    x as int,
                    y as int,
                    t as int,
                );
            }
            if self.support[base + t] {
                proof {
                    assert(self.cand(x as int, y as int, t as int));
                }
                any = true;
            }
            t += 1;
        }
        (true, !any)
    }

    /// Scans the grid row by row and returns the first unresolved cell, or
    /// `None` if every cell is resolved.
    pub fn find_unresolved(&self) -> (r: Option<(usize, usize)>)
        requires
            self.wf(),
        ensures
            r matches Some(c) ==> self.in_bounds(c.0 as int, c.1 as int) && !self.resolved(
                c.0 as int,
                c.1 as int,
            ),
            r is None ==> self.complete(),
    {
        let mut x: usize = 0;
        let mut y: usize = 0;
        let mut i: usize = 0;
        let n: usize = self.cells.len();
        while i < n
            invariant
                self.wf(),
                n == self.cells@.len(),
                x < self.width,
                y <= self.height,
                i == y * self.width + x,
                i <= n,
                forall|j: int| 0 <= j < i ==> (#[trigger] self.cells@[j]) is Some,
            decreases n - i,
        {
            if self.cells[i].is_none() {
                return Some((x, y));
            }
            i += 1;
            x += 1;
            if x == self.width {
                x = 0;
                y += 1;
                proof {
                    assert((y - 1) * self.width + self.width == y * self.width) by (nonlinear_arith);
                    assert(y * self.width <= self.height * self.width) by (nonlinear_arith)
                        requires
                            y <= self.height,
                            self.width >= 0,
                    ;
                    assert(self.height * self.width == self.width * self.height) by (
                    nonlinear_arith);
                }
            } else {
                proof {
                    lemma_cell_index_bounds(
                        self.width as int,
                        self.height as int,
                        x as int,
                        y as int,
                    );
                }
            }
        }
        proof {
            assert forall|x2: int, y2: int| self.in_bounds(x2, y2) implies #[trigger] self.resolved(
                x2,
                y2,
            ) by {
                lemma_cell_index_bounds(self.width as int, self.height as int, x2, y2);
            }
        }
        None
    }
}

/// Candidate flags of pairs other than `(x, y, tile)` agree between two
/// grids whose support vectors differ at most at that pair's index.
proof fn lemma_unchanged_cands(g1: Grid, g2: Grid, x: int, y: int, tile: int)
    requires
        g1.wf(),
        g2.width == g1.width,
        g2.height == g1.height,
        g2.tile_count == g1.tile_count,
        g2.support@.len() == g1.support@.len(),
        g1.in_bounds(x, y),
        0 <= tile < g1.tile_count,
        forall|i: int|
            0 <= i < g1.support@.len() && i != g1.sup_index(x, y, tile) ==> g2.support@[i]
                == g1.support@[i],
    ensures
        forall|x2: int, y2: int, t2: int|
            g1.in_bounds(x2, y2) && 0 <= t2 < g1.tile_count && (x2, y2, t2) != (x, y, tile)
                ==> #[trigger] g2.cand(x2, y2, t2) == g1.cand(x2, y2, t2),
{
    assert forall|x2: int, y2: int, t2: int|
        g1.in_bounds(x2, y2) && 0 <= t2 < g1.tile_count && (x2, y2, t2) != (x, y, tile)
            implies #[trigger] g2.cand(x2, y2, t2) == g1.cand(x2, y2, t2) by {
        lemma_sup_index_bounds(
            g1.width as int,
            g1.height as int,
            g1.tile_count as int,
            x2,
            y2,
            t2,
        );
        if g1.sup_index(x2, y2, t2) == g1.sup_index(x, y, tile) {
            lemma_sup_index_injective(
                g1.width as int,
                g1.height as int,
                g1.tile_count as int,
                x2,
                y2,
                t2,
                x,
                y,
                tile,
            );
        }
    }
}

} // verus!
