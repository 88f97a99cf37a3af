//! The generation controller: orchestrates repeated attempts. Within one
//! attempt it picks the next cell to resolve, draws one of its remaining
//! candidates uniformly at random, drives the propagation engine, and
//! restarts wholesale from a fresh grid on contradiction. It terminates on
//! full assignment, or fails after a configurable retry budget is exhausted.

use vstd::prelude::*;
use vstd::pervasive::unreached;

use std::collections::VecDeque;

use crate::engine::{
    cell_ok, cell_ok_except, narrowed, no_overprune, ok_dir, ok_dir_except, pair_dir_ok, pair_ok,
    pairs_ok, propagate, queued_in_bounds, valid_tiling,
};
use crate::grid::{count_none, lemma_cell_index_bounds, lemma_step_opposite, lemma_sup_index_bounds,
    step, Grid};
use crate::random::RandomSource;
use crate::rules::RuleSet;
use crate::side::{opposite_spec, Side};

verus! {

/// How a generation run can fail.
#[derive(Clone, Copy, Debug, PartialEq, Eq, Structural)]
pub enum GenError {
    /// The grid or the tile catalog is empty: a configuration defect.
    EmptyConfig,
    /// Every attempt in the retry budget ended in a contradiction.
    RetriesExhausted,
}

/// Tile `u` is universally compatible: every tile of the catalog accepts it
/// as a neighbour in every direction.
pub open spec fn universal(rs: RuleSet, tile_count: int, u: int) -> bool {
    0 <= u < tile_count && forall|t: int|
        0 <= t < tile_count ==> (#[trigger] rs.allows(t, Side::Up, u)) && rs.allows(
            t,
            Side::Right,
            u,
        ) && rs.allows(t, Side::Down, u) && rs.allows(t, Side::Left, u)
}

/// The catalog holds a universally compatible tile. Such a tile can never be
/// pruned, so generation can never run into a contradiction.
pub open spec fn has_universal(rs: RuleSet, tile_count: int) -> bool {
    exists|u: int| #[trigger] universal(rs, tile_count, u)
}

/// A universally compatible tile is compatible with every resolved neighbour
/// of every cell.
pub proof fn lemma_universal_cell_ok(g: Grid, rs: RuleSet, u: int, cx: int, cy: int)
    requires
        g.wf(),
        universal(rs, g.tile_count as int, u),
        g.in_bounds(cx, cy),
    ensures
        cell_ok(g, rs, cx, cy, u),
{
    let pu = step(cx, cy, Side::Up);
    if g.in_bounds(pu.0, pu.1) && g.resolved(pu.0, pu.1) {
        lemma_cell_index_bounds(g.width as int, g.height as int, pu.0, pu.1);
        assert(rs.allows(g.tile_at(pu.0, pu.1) as int, Side::Up, u));
    }
    let pr = step(cx, cy, Side::Right);
    if g.in_bounds(pr.0, pr.1) && g.resolved(pr.0, pr.1) {
        lemma_cell_index_bounds(g.width as int, g.height as int, pr.0, pr.1);
        assert(rs.allows(g.tile_at(pr.0, pr.1) as int, Side::Up, u));
    }
    let pd = step(cx, cy, Side::Down);
    if g.in_bounds(pd.0, pd.1) && g.resolved(pd.0, pd.1) {
        lemma_cell_index_bounds(g.width as int, g.height as int, pd.0, pd.1);
        assert(rs.allows(g.tile_at(pd.0, pd.1) as int, Side::Up, u));
    }
    let pl = step(cx, cy, Side::Left);
    if g.in_bounds(pl.0, pl.1) && g.resolved(pl.0, pl.1) {
        lemma_cell_index_bounds(g.width as int, g.height as int, pl.0, pl.1);
        assert(rs.allows(g.tile_at(pl.0, pl.1) as int, Side::Up, u));
    }
}

/// A catalog of one tile whose rule set lets it sit beside itself in every
/// direction has a universally compatible tile.
pub proof fn lemma_single_tile_universal(rs: RuleSet)
    requires
        rs.allows(0, Side::Up, 0),
        rs.allows(0, Side::Right, 0),
        rs.allows(0, Side::Down, 0),
        rs.allows(0, Side::Left, 0),
    ensures
        has_universal(rs, 1),
{
    assert(universal(rs, 1, 0));
}

/// A fresh grid - nothing resolved, every candidate possible - satisfies all
/// the controller's consistency invariants.
proof fn lemma_fresh_grid(g: Grid, rs: RuleSet)
    requires
        g.wf(),
        forall|i: int| 0 <= i < g.cells@.len() ==> (#[trigger] g.cells@[i]) is None,
        forall|i: int| 0 <= i < g.support@.len() ==> #[trigger] g.support@[i],
    ensures
        pairs_ok(g, rs),
        narrowed(g, rs),
        no_overprune(g, rs),
{
    assert forall|x: int, y: int| g.in_bounds(x, y) implies !(#[trigger] g.resolved(x, y)) by {
        lemma_cell_index_bounds(g.width as int, g.height as int, x, y);
    }
    assert forall|x: int, y: int, t: int|
        g.in_bounds(x, y) && 0 <= t < g.tile_count implies #[trigger] g.cand(x, y, t) by {
        lemma_sup_index_bounds(g.width as int, g.height as int, g.tile_count as int, x, y, t);
    }
}

/// After `ok_dir` holds in the grid with the extra resolved cell `(cx, cy)`,
/// it held in the grid before that cell was resolved.
proof fn lemma_ok_dir_back(
    g1: Grid,
    g2: Grid,
    rs: RuleSet,
    cx: int,
    cy: int,
    x2: int,
    y2: int,
    t: int,
    side: Side,
)
    requires
        !g1.resolved(cx, cy),
        g2.width == g1.width,
        g2.height == g1.height,
        g2.tile_count == g1.tile_count,
        forall|x3: int, y3: int|
            g2.in_bounds(x3, y3) && (x3, y3) != (cx, cy) ==> #[trigger] g2.cell(x3, y3)
                == g1.cell(x3, y3),
        ok_dir(g2, rs, x2, y2, t, side),
    ensures
        ok_dir(g1, rs, x2, y2, t, side),
{
    let p = step(x2, y2, side);
    if g1.in_bounds(p.0, p.1) && g1.resolved(p.0, p.1) {
        assert((p.0, p.1) != (cx, cy));
        assert(g2.cell(p.0, p.1) == g1.cell(p.0, p.1));
    }
}

/// Resolving a cell to one of its remaining candidates keeps the grid
/// consistent: resolved pairs stay compatible, nothing compatible was ever
/// pruned, and every remaining candidate can clash only with the cell just
/// resolved - exactly the propagation engine's starting point.
proof fn lemma_resolve_consistency(g1: Grid, g2: Grid, rs: RuleSet, cx: int, cy: int, tile: usize)
    requires
        g1.wf(),
        g2.wf(),
        rs.symmetric(),
        g1.in_bounds(cx, cy),
        !g1.resolved(cx, cy),
        tile < g1.tile_count,
        g1.cand(cx, cy, tile as int),
        no_overprune(g1, rs),
        narrowed(g1, rs),
        pairs_ok(g1, rs),
        g2.width == g1.width,
        g2.height == g1.height,
        g2.tile_count == g1.tile_count,
        g2.support@ == g1.support@,
        g2.resolved(cx, cy),
        g2.tile_at(cx, cy) == tile,
        forall|x2: int, y2: int|
            g2.in_bounds(x2, y2) && (x2, y2) != (cx, cy) ==> #[trigger] g2.cell(x2, y2)
                == g1.cell(x2, y2),
    ensures
        pairs_ok(g2, rs),
        no_overprune(g2, rs),
        forall|x2: int, y2: int, t: int|
            g2.in_bounds(x2, y2) && 0 <= t < g2.tile_count && !g2.resolved(x2, y2)
                && #[trigger] g2.cand(x2, y2, t) ==> cell_ok_except(g2, rs, x2, y2, t, (cx, cy)),
{
    assert(cell_ok(g1, rs, cx, cy, tile as int)) by {
        assert(g1.cand(cx, cy, tile as int));
    }
    // every resolved pair of the new grid is compatible
    assert forall|x2: int, y2: int| g2.in_bounds(x2, y2) implies #[trigger] pair_ok(
        g2,
        rs,
        x2,
        y2,
    ) by {
        lemma_pair_dir_after(g1, g2, rs, cx, cy, tile, x2, y2, Side::Up);
        lemma_pair_dir_after(g1, g2, rs, cx, cy, tile, x2, y2, Side::Right);
        lemma_pair_dir_after(g1, g2, rs, cx, cy, tile, x2, y2, Side::Down);
        lemma_pair_dir_after(g1, g2, rs, cx, cy, tile, x2, y2, Side::Left);
    }
    // nothing compatible was pruned
    assert forall|x2: int, y2: int, t: int|
        g2.in_bounds(x2, y2) && 0 <= t < g2.tile_count && !g2.resolved(x2, y2) && #[trigger] cell_ok(
        g2,
        rs,
        x2,
        y2,
        t,
    ) implies g2.cand(x2, y2, t) by {
        lemma_ok_dir_back(g1, g2, rs, cx, cy, x2, y2, t, Side::Up);
        lemma_ok_dir_back(g1, g2, rs, cx, cy, x2, y2, t, Side::Right);
        lemma_ok_dir_back(g1, g2, rs, cx, cy, x2, y2, t, Side::Down);
        lemma_ok_dir_back(g1, g2, rs, cx, cy, x2, y2, t, Side::Left);
        assert(cell_ok(g1, rs, x2, y2, t));
        assert((x2, y2) != (cx, cy));
        assert(g1.cand(x2, y2, t));
    }
    // remaining candidates can clash only with the cell just resolved
    assert forall|x2: int, y2: int, t: int|
        g2.in_bounds(x2, y2) && 0 <= t < g2.tile_count && !g2.resolved(x2, y2)
            && #[trigger] g2.cand(x2, y2, t) implies cell_ok_except(g2, rs, x2, y2, t, (cx, cy)) by {
        assert((x2, y2) != (cx, cy));
        assert(g1.cand(x2, y2, t));
        assert(cell_ok(g1, rs, x2, y2, t));
        lemma_ok_dir_except_fwd(g1, g2, rs, cx, cy, x2, y2, t, Side::Up);
        lemma_ok_dir_except_fwd(g1, g2, rs, cx, cy, x2, y2, t, Side::Right);
        lemma_ok_dir_except_fwd(g1, g2, rs, cx, cy, x2, y2, t, Side::Down);
        lemma_ok_dir_except_fwd(g1, g2, rs, cx, cy, x2, y2, t, Side::Left);
    }
}

/// `ok_dir` before the resolution carries over to `ok_dir_except` after it,
/// with the newly resolved cell as the exception.
proof fn lemma_ok_dir_except_fwd(
    g1: Grid,
    g2: Grid,
    rs: RuleSet,
    cx: int,
    cy: int,
    x2: int,
    y2: int,
    t: int,
    side: Side,
)
    requires
        g2.width == g1.width,
        g2.height == g1.height,
        g2.tile_count == g1.tile_count,
        forall|x3: int, y3: int|
            g2.in_bounds(x3, y3) && (x3, y3) != (cx, cy) ==> #[trigger] g2.cell(x3, y3)
                == g1.cell(x3, y3),
        ok_dir(g1, rs, x2, y2, t, side),
    ensures
        ok_dir_except(g2, rs, x2, y2, t, side, (cx, cy)),
{
    let p = step(x2, y2, side);
    if g2.in_bounds(p.0, p.1) && g2.resolved(p.0, p.1) && (p.0, p.1) != (cx, cy) {
        assert(g2.cell(p.0, p.1) == g1.cell(p.0, p.1));
    }
}

/// One direction of pair compatibility after resolving `(cx, cy)` to `tile`.
proof fn lemma_pair_dir_after(
    g1: Grid,
    g2: Grid,
    rs: RuleSet,
    cx: int,
    cy: int,
    tile: usize,
    x2: int,
    y2: int,
    side: Side,
)
    requires
        g1.wf(),
        rs.symmetric(),
        g1.in_bounds(cx, cy),
        !g1.resolved(cx, cy),
        cell_ok(g1, rs, cx, cy, tile as int),
        pairs_ok(g1, rs),
        g2.width == g1.width,
        g2.height == g1.height,
        g2.tile_count == g1.tile_count,
        g2.resolved(cx, cy),
        g2.tile_at(cx, cy) == tile,
        forall|x3: int, y3: int|
            g2.in_bounds(x3, y3) && (x3, y3) != (cx, cy) ==> #[trigger] g2.cell(x3, y3)
                == g1.cell(x3, y3),
        g2.in_bounds(x2, y2),
    ensures
        pair_dir_ok(g2, rs, x2, y2, side),
{
    let p = step(x2, y2, side);
    if g2.resolved(x2, y2) && g2.in_bounds(p.0, p.1) && g2.resolved(p.0, p.1) {
        if (x2, y2) == (cx, cy) {
            // the newly resolved cell against an already-resolved neighbour
            assert(g2.cell(p.0, p.1) == g1.cell(p.0, p.1));
            let n = g1.tile_at(p.0, p.1);
            assert(rs.allows(n as int, opposite_spec(side), tile as int));
            assert(rs.allows(tile as int, opposite_spec(opposite_spec(side)), n as int));
            assert(opposite_spec(opposite_spec(side)) == side);
        } else if (p.0, p.1) == (cx, cy) {
            // an already-resolved cell against the newly resolved neighbour
            assert(g2.cell(x2, y2) == g1.cell(x2, y2));
            lemma_step_opposite(x2, y2, side);
            assert(step(cx, cy, opposite_spec(side)) == (x2, y2));
            assert(ok_dir(g1, rs, cx, cy, tile as int, opposite_spec(side)));
            assert(opposite_spec(opposite_spec(side)) == side);
            assert(rs.allows(g1.tile_at(x2, y2) as int, side, tile as int));
        } else {
            assert(pair_ok(g1, rs, x2, y2));
            assert(g2.cell(x2, y2) == g1.cell(x2, y2));
            assert(g2.cell(p.0, p.1) == g1.cell(p.0, p.1));
        }
    }
}


/// Resolves the unresolved cell `c` to a candidate drawn uniformly at
/// random, propagates the consequences, and enqueues the cell's neighbours
/// onto the work queue regardless of their resolution state. Returns whether
/// a contradiction was found; one can only be found if the catalog has no
/// universally compatible tile.
fn collapse_cell(
    grid: &mut Grid,
    rng: &mut RandomSource,
    rules: &RuleSet,
    c: (usize, usize),
    queue: &mut VecDeque<(usize, usize)>,
) -> (contra: bool)
    requires
        old(grid).wf(),
        old(grid).in_bounds(c.0 as int, c.1 as int),
        !old(grid).resolved(c.0 as int, c.1 as int),
        rules.symmetric(),
        no_overprune(*old(grid), *rules),
        narrowed(*old(grid), *rules),
        pairs_ok(*old(grid), *rules),
    ensures
        final(grid).wf(),
        final(grid).width == old(grid).width,
        final(grid).height == old(grid).height,
        final(grid).tile_count == old(grid).tile_count,
        no_overprune(*final(grid), *rules),
        !contra ==> narrowed(*final(grid), *rules),
        !contra ==> pairs_ok(*final(grid), *rules),
        !contra ==> final(grid).resolved(c.0 as int, c.1 as int),
        !contra ==> count_none(final(grid).cells@) + 1 == count_none(old(grid).cells@),
        contra ==> !has_universal(*rules, old(grid).tile_count as int),
        forall|i: int| 0 <= i < old(queue)@.len() ==> final(queue)@[i] == old(queue)@[i],
        final(queue)@.len() >= old(queue)@.len(),
        forall|i: int|
            old(queue)@.len() <= i < final(queue)@.len() ==> final(grid).in_bounds(
                (#[trigger] final(queue)@[i]).0 as int,
                final(queue)@[i].1 as int,
            ),
{
    let (cx, cy) = c;
    let cands = grid.candidates((cx, cy));
    if cands.len() == 0 {
        proof {
            if has_universal(*rules, grid.tile_count as int) {
                let u = choose|u: int| #[trigger] universal(*rules, grid.tile_count as int, u);
                lemma_universal_cell_ok(*grid, *rules, u, cx as int, cy as int);
                assert(grid.cand(cx as int, cy as int, u));
                assert(cands@.contains(u as usize));
                assert(false);
            }
        }
        return true;
    }
    let draw = rng.next_u64();
    let len64: u64 = cands.len() as u64;
    let k: usize = (draw % len64) as usize;
    let tile = cands[k];
    let ghost gpre = *grid;
    grid.resolve((cx, cy), tile);
    proof {
        lemma_resolve_consistency(gpre, *grid, *rules, cx as int, cy as int, tile);
    }
    let ghost gmid = *grid;
    let contra = propagate(grid, rules, cx, cy);
    proof {
        crate::engine::lemma_pairs_same_cells(gmid, *grid, *rules);
    }
    if contra {
        proof {
            if has_universal(*rules, grid.tile_count as int) {
                let u = choose|u: int| #[trigger] universal(*rules, grid.tile_count as int, u);
                let (bx, by) = choose|bx: int, by: int|
                    gmid.in_bounds(bx, by) && !gmid.resolved(bx, by) && forall|t: int|
                        0 <= t < gmid.tile_count ==> !(#[trigger] cell_ok(gmid, *rules, bx, by, t));
                lemma_universal_cell_ok(gmid, *rules, u, bx, by);
                assert(false);
            }
        }
        return true;
    }
    // enqueue this cell's neighbours onto the work queue, regardless of
    // their resolution state: the engine itself no-ops on resolved cells
    let nbrs = grid.neighbours((cx, cy));
    let mut j: usize = 0;
    while j < nbrs.len()
        invariant
            j <= nbrs@.len(),
            grid.wf(),
            grid.in_bounds(cx as int, cy as int),
            forall|i: int|
                0 <= i < nbrs@.len() ==> grid.nbr_entry(cx as int, cy as int, #[trigger] nbrs@[i]),
            forall|i: int| 0 <= i < old(queue)@.len() ==> queue@[i] == old(queue)@[i],
            queue@.len() == old(queue)@.len() + j,
            forall|i: int|
                old(queue)@.len() <= i < queue@.len() ==> grid.in_bounds(
                    (#[trigger] queue@[i]).0 as int,
                    queue@[i].1 as int,
                ),
        decreases nbrs@.len() - j,
    {
        let (np, _nd) = nbrs[j];
        queue.push_back(np);
        j += 1;
    }
    false
}


/// One full generation attempt: starting from a fresh grid with every
/// candidate possible, repeatedly resolves cells, propagating after each
/// resolution, until either the grid is complete (`Some`) or a contradiction
/// is found (`None`). A returned grid is fully resolved and every pair of
/// adjacent tiles satisfies the compatibility relation. If the catalog holds
/// a universally compatible tile, the attempt always succeeds.
pub fn attempt(
    rng: &mut RandomSource,
    width: usize,
    height: usize,
    tile_count: usize,
    rules: &RuleSet,
) -> (r: Option<Grid>)
    requires
        width >= 1,
        height >= 1,
        tile_count >= 1,
        width * height <= usize::MAX,
        width * height * tile_count <= usize::MAX,
        rules.symmetric(),
    ensures
        r matches Some(g) ==> {
            &&& g.wf()
            &&& g.width == width
            &&& g.height == height
            &&& g.tile_count == tile_count
            &&& valid_tiling(g, *rules)
        },
        has_universal(*rules, tile_count as int) ==> r is Some,
{
    let mut grid = match Grid::new(width, height, tile_count) {
        Ok(g) => g,
        Err(_) => unreached(),
    };
    proof {
        lemma_fresh_grid(grid, *rules);
    }
    let mut queue: VecDeque<(usize, usize)> = VecDeque::new();
    loop
        invariant
            grid.wf(),
            grid.width == width,
            grid.height == height,
            grid.tile_count == tile_count,
            rules.symmetric(),
            no_overprune(grid, *rules),
            narrowed(grid, *rules),
            pairs_ok(grid, *rules),
            queued_in_bounds(grid, queue@),
        decreases count_none(grid.cells@),
    {
        match grid.find_unresolved() {
            None => {
                return Some(grid);
            },
            Some(c0) => {
                queue.clear();
                let ghost n0 = count_none(grid.cells@);
                if collapse_cell(&mut grid, rng, rules, c0, &mut queue) {
                    return None;
                }
                while queue.len() > 0
                    invariant
                        grid.wf(),
                        grid.width == width,
                        grid.height == height,
                        grid.tile_count == tile_count,
                        rules.symmetric(),
                        no_overprune(grid, *rules),
                        narrowed(grid, *rules),
                        pairs_ok(grid, *rules),
                        queued_in_bounds(grid, queue@),
                        count_none(grid.cells@) < n0,
                    decreases count_none(grid.cells@), queue@.len(),
                {
                    let c = match queue.pop_front() {
                        Some(c) => c,
                        None => unreached(),
                    };
                    if grid.get(c).is_none() {
                        if collapse_cell(&mut grid, rng, rules, c, &mut queue) {
                            return None;
                        }
                    }
                }
            },
        }
    }
}

/// Runs generation attempts until one succeeds or the retry budget is
/// exhausted, returning the finished grid together with how many attempts
/// were used. Fails with `EmptyConfig` exactly when the grid or the catalog
/// is empty. With a universally compatible tile in the catalog, the first
/// attempt succeeds and no contradiction is ever met.
pub fn generate_counted(
    rng: &mut RandomSource,
    bounds: (usize, usize),
    tile_count: usize,
    rules: &RuleSet,
    max_attempts: usize,
) -> (r: Result<(Grid, usize), GenError>)
    requires
        bounds.0 * bounds.1 <= usize::MAX,
        bounds.0 * bounds.1 * tile_count <= usize::MAX,
        rules.symmetric(),
    ensures
        r == Err::<(Grid, usize), GenError>(GenError::EmptyConfig) <==> (bounds.0 == 0
            || bounds.1 == 0 || tile_count == 0),
        r matches Ok(p) ==> {
            &&& p.0.wf()
            &&& p.0.width == bounds.0
            &&& p.0.height == bounds.1
            &&& p.0.tile_count == tile_count
            &&& valid_tiling(p.0, *rules)
            &&& 1 <= p.1 <= max_attempts
        },
        (bounds.0 >= 1 && bounds.1 >= 1 && tile_count >= 1 && max_attempts >= 1 && has_universal(
            *rules,
            tile_count as int,
        )) ==> (r matches Ok(p) && p.1 == 1),
{
    let (w, h) = bounds;
    if w == 0 || h == 0 || tile_count == 0 {
        return Err(GenError::EmptyConfig);
    }
    let mut i: usize = 0;
    while i < max_attempts
        invariant
            w == bounds.0,
            h == bounds.1,
            w >= 1,
            h >= 1,
            tile_count >= 1,
            w * h <= usize::MAX,
            w * h * tile_count <= usize::MAX,
            rules.symmetric(),
            i <= max_attempts,
            has_universal(*rules, tile_count as int) ==> i == 0,
        decreases max_attempts - i,
    {
        match attempt(rng, w, h, tile_count, rules) {
            Some(g) => {
                return Ok((g, i + 1));
            },
            None => {},
        }
        i += 1;
    }
    Err(GenError::RetriesExhausted)
}

/// Generates one completed grid: every coordinate resolved, every pair of
/// adjacent tiles compatible. Attempts are restarted wholesale on
/// contradiction, up to `max_attempts` of them.
pub fn gen_grid(
    rng: &mut RandomSource,
    bounds: (usize, usize),
    tile_count: usize,
    rules: &RuleSet,
    max_attempts: usize,
) -> (r: Result<Grid, GenError>)
    requires
        bounds.0 * bounds.1 <= usize::MAX,
        bounds.0 * bounds.1 * tile_count <= usize::MAX,
        rules.symmetric(),
    ensures
        r == Err::<Grid, GenError>(GenError::EmptyConfig) <==> (bounds.0 == 0 || bounds.1 == 0
            || tile_count == 0),
        r matches Ok(g) ==> {
            &&& g.wf()
            &&& g.width == bounds.0
            &&& g.height == bounds.1
            &&& g.tile_count == tile_count
            &&& valid_tiling(g, *rules)
        },
        (bounds.0 >= 1 && bounds.1 >= 1 && tile_count >= 1 && max_attempts >= 1 && has_universal(
            *rules,
            tile_count as int,
        )) ==> r is Ok,
{
    match generate_counted(rng, bounds, tile_count, rules, max_attempts) {
        Ok(p) => Ok(p.0),
        Err(e) => Err(e),
    }
}

/// Returns the number of tiles to produce to cover a window of the given
/// pixel size: one tile per whole tile-size step, plus one extra to cover
/// any remainder.
pub fn get_grid_size(win_x: u32, win_y: u32, tile_size_x: u32, tile_size_y: u32) -> (r: (
    usize,
    usize,
))
    requires
        tile_size_x >= 1,
        tile_size_y >= 1,
        win_x / tile_size_x + 1 <= usize::MAX,
        win_y / tile_size_y + 1 <= usize::MAX,
    ensures
        r.0 == win_x / tile_size_x + 1,
        r.1 == win_y / tile_size_y + 1,
{
    let max_x: usize = (win_x / tile_size_x) as usize + 1;
    let max_y: usize = (win_y / tile_size_y) as usize + 1;
    (max_x, max_y)
}

} // verus!
