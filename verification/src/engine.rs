//! The propagation engine: after a cell is resolved, eliminate
//! now-impossible candidates from every unresolved neighbour and,
//! transitively, from cells further out, stopping where nothing changes.
//!
//! The engine only narrows; it never assigns a tile. Resolution is a decision
//! made exclusively by the generation controller, so propagation is a pure
//! constraint-shrinking fixed-point computation.

use vstd::prelude::*;
use vstd::pervasive::unreached;

use std::collections::VecDeque;

use crate::grid::{count_true, step, Grid};
use crate::rules::RuleSet;
use crate::side::{opposite_side, opposite_spec, Side};

verus! {

/// Candidate `t` at `(x, y)` does not clash with a resolved neighbour in
/// direction `side`: if that neighbour exists and is resolved to tile `n`,
/// the rule set allows `t` in the direction pointing from the neighbour back
/// toward `(x, y)`.
pub open spec fn ok_dir(g: Grid, rs: RuleSet, x: int, y: int, t: int, side: Side) -> bool {
    let p = step(x, y, side);
    (g.in_bounds(p.0, p.1) && g.resolved(p.0, p.1)) ==> rs.allows(
        g.tile_at(p.0, p.1) as int,
        opposite_spec(side),
        t,
    )
}

/// Candidate `t` at `(x, y)` is compatible with every resolved neighbour.
pub open spec fn cell_ok(g: Grid, rs: RuleSet, x: int, y: int, t: int) -> bool {
    &&& ok_dir(g, rs, x, y, t, Side::Up)
    &&& ok_dir(g, rs, x, y, t, Side::Right)
    &&& ok_dir(g, rs, x, y, t, Side::Down)
    &&& ok_dir(g, rs, x, y, t, Side::Left)
}

/// Like `ok_dir`, but ignoring a resolved neighbour at `ex`, if any.
pub open spec fn ok_dir_except(
    g: Grid,
    rs: RuleSet,
    x: int,
    y: int,
    t: int,
    side: Side,
    ex: (int, int),
) -> bool {
    let p = step(x, y, side);
    (g.in_bounds(p.0, p.1) && g.resolved(p.0, p.1) && p != ex) ==> rs.allows(
        g.tile_at(p.0, p.1) as int,
        opposite_spec(side),
        t,
    )
}

/// Like `cell_ok`, but ignoring a resolved neighbour at `ex`, if any.
pub open spec fn cell_ok_except(g: Grid, rs: RuleSet, x: int, y: int, t: int, ex: (int, int)) -> bool {
    &&& ok_dir_except(g, rs, x, y, t, Side::Up, ex)
    &&& ok_dir_except(g, rs, x, y, t, Side::Right, ex)
    &&& ok_dir_except(g, rs, x, y, t, Side::Down, ex)
    &&& ok_dir_except(g, rs, x, y, t, Side::Left, ex)
}

/// Propagation never over-prunes: a candidate compatible with every resolved
/// neighbour is still in the cell's candidate set.
pub open spec fn no_overprune(g: Grid, rs: RuleSet) -> bool {
    forall|x: int, y: int, t: int|
        g.in_bounds(x, y) && 0 <= t < g.tile_count && !g.resolved(x, y) && #[trigger] cell_ok(
            g,
            rs,
            x,
            y,
            t,
        ) ==> g.cand(x, y, t)
}

/// Narrowing is finished: every remaining candidate of every unresolved cell
/// is compatible with every resolved neighbour.
pub open spec fn narrowed(g: Grid, rs: RuleSet) -> bool {
    forall|x: int, y: int, t: int|
        g.in_bounds(x, y) && 0 <= t < g.tile_count && !g.resolved(x, y) && #[trigger] g.cand(
            x,
            y,
            t,
        ) ==> cell_ok(g, rs, x, y, t)
}

/// The resolved cell `(x, y)` does not clash with a resolved neighbour in
/// direction `side`.
pub open spec fn pair_dir_ok(g: Grid, rs: RuleSet, x: int, y: int, side: Side) -> bool {
    let p = step(x, y, side);
    (g.resolved(x, y) && g.in_bounds(p.0, p.1) && g.resolved(p.0, p.1)) ==> rs.allows(
        g.tile_at(x, y) as int,
        side,
        g.tile_at(p.0, p.1) as int,
    )
}

/// Cell `(x, y)`, if resolved, is compatible with all its resolved neighbours.
pub open spec fn pair_ok(g: Grid, rs: RuleSet, x: int, y: int) -> bool {
    &&& pair_dir_ok(g, rs, x, y, Side::Up)
    &&& pair_dir_ok(g, rs, x, y, Side::Right)
    &&& pair_dir_ok(g, rs, x, y, Side::Down)
    &&& pair_dir_ok(g, rs, x, y, Side::Left)
}

/// Every pair of adjacent resolved cells satisfies the compatibility relation.
pub open spec fn pairs_ok(g: Grid, rs: RuleSet) -> bool {
    forall|x: int, y: int| g.in_bounds(x, y) ==> #[trigger] pair_ok(g, rs, x, y)
}

/// Adjacency validity of a finished grid: every cell is resolved, and for
/// every pair of grid-adjacent coordinates `(p, q)` with direction `d` from
/// `p` to `q`, the tile at `q` is allowed in direction `d` next to the tile
/// at `p`.
pub open spec fn valid_tiling(g: Grid, rs: RuleSet) -> bool {
    g.complete() && pairs_ok(g, rs)
}

/// Every candidate that is still set but clashes with a resolved neighbour
/// belongs to a cell that sits in the queue awaiting re-evaluation.
pub open spec fn violations_queued(g: Grid, rs: RuleSet, q: Seq<(usize, usize)>) -> bool {
    forall|x: int, y: int, t: int|
        g.in_bounds(x, y) && 0 <= t < g.tile_count && !g.resolved(x, y) && g.cand(x, y, t) && !(
        #[trigger] cell_ok(g, rs, x, y, t)) ==> q.contains(((x as usize), (y as usize)))
}

/// All queued coordinates lie on the grid.
pub open spec fn queued_in_bounds(g: Grid, q: Seq<(usize, usize)>) -> bool {
    forall|i: int| 0 <= i < q.len() ==> g.in_bounds((#[trigger] q[i]).0 as int, q[i].1 as int)
}

/// `cell_ok` depends only on the dimensions and the resolved cells, which
/// the engine never changes.
pub proof fn lemma_cell_ok_same_cells(g1: Grid, g2: Grid, rs: RuleSet)
    requires
        g2.width == g1.width,
        g2.height == g1.height,
        g2.tile_count == g1.tile_count,
        g2.cells@ == g1.cells@,
    ensures
        forall|x: int, y: int, t: int|
            #[trigger] cell_ok(g2, rs, x, y, t) == cell_ok(g1, rs, x, y, t),
{
}

/// `pair_ok` depends only on the dimensions and the resolved cells, which
/// the engine never changes.
pub proof fn lemma_pairs_same_cells(g1: Grid, g2: Grid, rs: RuleSet)
    requires
        g2.width == g1.width,
        g2.height == g1.height,
        g2.tile_count == g1.tile_count,
        g2.cells@ == g1.cells@,
        pairs_ok(g1, rs),
    ensures
        pairs_ok(g2, rs),
{
    assert forall|x: int, y: int| g2.in_bounds(x, y) implies #[trigger] pair_ok(g2, rs, x, y) by {
        assert(pair_ok(g1, rs, x, y));
    }
}

/// After narrowing has finished without over-pruning, an unresolved cell's
/// candidate set is exactly the set of tiles compatible with its resolved
/// neighbours: the outcome is a function of the resolved cells alone.
pub proof fn lemma_narrowing_canonical(g: Grid, rs: RuleSet)
    requires
        narrowed(g, rs),
        no_overprune(g, rs),
    ensures
        forall|x: int, y: int, t: int|
            g.in_bounds(x, y) && 0 <= t < g.tile_count && !g.resolved(x, y) ==> (#[trigger] g.cand(
                x,
                y,
                t,
            ) <==> cell_ok(g, rs, x, y, t)),
{
    assert forall|x: int, y: int, t: int|
        g.in_bounds(x, y) && 0 <= t < g.tile_count && !g.resolved(x, y) implies (#[trigger] g.cand(
        x,
        y,
        t,
    ) <==> cell_ok(g, rs, x, y, t)) by {
        if cell_ok(g, rs, x, y, t) {
            assert(g.cand(x, y, t));
        }
    }
}

/// Order independence of propagation: the eliminations are a monotone
/// fixed-point computation, so two fully narrowed, never over-pruned grids
/// that agree on their resolved cells agree on every candidate set, however
/// their eliminations were ordered.
pub proof fn lemma_narrowing_order_independent(g1: Grid, g2: Grid, rs: RuleSet)
    requires
        g2.width == g1.width,
        g2.height == g1.height,
        g2.tile_count == g1.tile_count,
        g2.cells@ == g1.cells@,
        narrowed(g1, rs),
        no_overprune(g1, rs),
        narrowed(g2, rs),
        no_overprune(g2, rs),
    ensures
        forall|x: int, y: int, t: int|
            g1.in_bounds(x, y) && 0 <= t < g1.tile_count && !g1.resolved(x, y) ==> (#[trigger] g1.cand(
                x,
                y,
                t,
            ) == g2.cand(x, y, t)),
{
    lemma_narrowing_canonical(g1, rs);
    lemma_narrowing_canonical(g2, rs);
    lemma_cell_ok_same_cells(g1, g2, rs);
    assert forall|x: int, y: int, t: int|
        g1.in_bounds(x, y) && 0 <= t < g1.tile_count && !g1.resolved(x, y) implies (
    #[trigger] g1.cand(x, y, t) == g2.cand(x, y, t)) by {
        assert(g1.cand(x, y, t) <==> cell_ok(g1, rs, x, y, t));
        assert(g2.cand(x, y, t) <==> cell_ok(g2, rs, x, y, t));
        assert(cell_ok(g2, rs, x, y, t) == cell_ok(g1, rs, x, y, t));
    }
}

/// One entry of a neighbour list has been checked: if its cell is resolved,
/// the candidate `t` is allowed next to that cell's tile.
pub open spec fn entry_checked(g: Grid, rs: RuleSet, e: ((usize, usize), Side), t: int) -> bool {
    g.resolved(e.0.0 as int, e.0.1 as int) ==> rs.allows(
        g.tile_at(e.0.0 as int, e.0.1 as int) as int,
        opposite_spec(e.1),
        t,
    )
}

/// Narrows the candidate set of the single unresolved cell `(cx, cy)`
/// against each of its already-resolved neighbours, in a fixed order: for
/// each of the four directions, for each tile index in catalog order.
/// Returns `(changed, contra)`: whether the set shrank at all, and whether
/// it became empty (the contradiction signal).
fn narrow_cell(grid: &mut Grid, rules: &RuleSet, cx: usize, cy: usize) -> (r: (bool, bool))
    requires
        old(grid).wf(),
        old(grid).in_bounds(cx as int, cy as int),
        !old(grid).resolved(cx as int, cy as int),
        no_overprune(*old(grid), *rules),
    ensures
        final(grid).wf(),
        final(grid).width == old(grid).width,
        final(grid).height == old(grid).height,
        final(grid).tile_count == old(grid).tile_count,
        final(grid).cells@ == old(grid).cells@,
        final(grid).support@.len() == old(grid).support@.len(),
        forall|i: int|
            0 <= i < final(grid).support@.len() ==> (#[trigger] final(grid).support@[i] ==> old(
                grid,
            ).support@[i]),
        no_overprune(*final(grid), *rules),
        forall|x2: int, y2: int, t2: int|
            final(grid).in_bounds(x2, y2) && 0 <= t2 < final(grid).tile_count && (x2, y2) != (
            cx as int,
            cy as int,
            ) ==> #[trigger] final(grid).cand(x2, y2, t2) == old(grid).cand(x2, y2, t2),
        !r.0 ==> final(grid).support@ == old(grid).support@,
        r.0 ==> count_true(final(grid).support@) < count_true(old(grid).support@),
        !r.1 ==> forall|t: int|
            0 <= t < final(grid).tile_count && #[trigger] final(grid).cand(cx as int, cy as int, t)
                ==> cell_ok(*final(grid), *rules, cx as int, cy as int, t),
        r.1 ==> forall|t: int|
            0 <= t < final(grid).tile_count ==> !final(grid).cand(cx as int, cy as int, t),
        r.1 ==> r.0,
{
    let ghost g0 = *grid;
    let nbrs = grid.neighbours((cx, cy));
    let tc = grid.tile_count;
    let mut changed = false;
    let mut k: usize = 0;
    while k < nbrs.len()
        invariant
            g0 == *old(grid),
            grid.wf(),
            grid.width == g0.width,
            grid.height == g0.height,
            grid.tile_count == g0.tile_count,
            tc == grid.tile_count,
            grid.cells@ == g0.cells@,
            grid.support@.len() == g0.support@.len(),
            g0.wf(),
            g0.in_bounds(cx as int, cy as int),
            !g0.resolved(cx as int, cy as int),
            no_overprune(g0, *rules),
            k <= nbrs@.len(),
            forall|i: int|
                0 <= i < grid.support@.len() ==> (#[trigger] grid.support@[i] ==> g0.support@[i]),
            no_overprune(*grid, *rules),
            forall|x2: int, y2: int, t2: int|
                grid.in_bounds(x2, y2) && 0 <= t2 < grid.tile_count && (x2, y2) != (
                cx as int,
                cy as int,
                ) ==> #[trigger] grid.cand(x2, y2, t2) == g0.cand(x2, y2, t2),
            !changed ==> grid.support@ == g0.support@,
            changed ==> count_true(grid.support@) < count_true(g0.support@),
            nbrs@.len() == g0.nbr_count(cx as int, cy as int),
            forall|i: int|
                0 <= i < nbrs@.len() ==> g0.nbr_entry(cx as int, cy as int, #[trigger] nbrs@[i]),
            forall|side: Side|
                g0.in_bounds(
                    #[trigger] step(cx as int, cy as int, side).0,
                    step(cx as int, cy as int, side).1,
                ) ==> exists|i: int| 0 <= i < nbrs@.len() && (#[trigger] nbrs@[i]).1 == side,
            forall|t: int, j: int|
                0 <= t < tc && #[trigger] grid.cand(cx as int, cy as int, t) && 0 <= j < k
                    ==> entry_checked(*grid, *rules, #[trigger] nbrs@[j], t),
        decreases nbrs@.len() - k,
    {
        let ((nx, ny), d) = nbrs[k];
        let cell = grid.get((nx, ny));
        match cell {
            None => {},
            Some(n) => {
                let od = opposite_side(d);
                let mut t: usize = 0;
                while t < tc
                    invariant
                        g0 == *old(grid),
                        grid.wf(),
                        grid.width == g0.width,
                        grid.height == g0.height,
                        grid.tile_count == g0.tile_count,
                        tc == grid.tile_count,
                        grid.cells@ == g0.cells@,
                        grid.support@.len() == g0.support@.len(),
                        g0.wf(),
                        g0.in_bounds(cx as int, cy as int),
                        !g0.resolved(cx as int, cy as int),
                        t <= tc,
                        k < nbrs@.len(),
                        g0.nbr_entry(cx as int, cy as int, nbrs@[k as int]),
                        nbrs@[k as int] == ((nx, ny), d),
                        grid.resolved(nx as int, ny as int),
                        n == grid.tile_at(nx as int, ny as int),
                        od == opposite_spec(d),
                        forall|i: int|
                            0 <= i < grid.support@.len() ==> (#[trigger] grid.support@[i]
                                ==> g0.support@[i]),
                        no_overprune(*grid, *rules),
                        forall|x2: int, y2: int, t2: int|
                            grid.in_bounds(x2, y2) && 0 <= t2 < grid.tile_count && (x2, y2) != (
                            cx as int,
                            cy as int,
                            ) ==> #[trigger] grid.cand(x2, y2, t2) == g0.cand(x2, y2, t2),
                        !changed ==> grid.support@ == g0.support@,
                        changed ==> count_true(grid.support@) < count_true(g0.support@),
                        forall|t2: int, j: int|
                            0 <= t2 < tc && #[trigger] grid.cand(cx as int, cy as int, t2) && 0 <= j
                                < k ==> entry_checked(*grid, *rules, #[trigger] nbrs@[j], t2),
                        forall|t2: int|
                            0 <= t2 < t && #[trigger] grid.cand(cx as int, cy as int, t2)
                                ==> rules.allows(n as int, od, t2),
                    decreases tc - t,
                {
                    if !rules.compatible(n, od, t) {
                        let ghost gpre = *grid;
                        let (shr, empt) = grid.restrict((cx, cy), t);
                        proof {
                            lemma_cell_ok_same_cells(gpre, *grid, *rules);
                            lemma_cell_ok_same_cells(g0, *grid, *rules);
                            // the pruned candidate clashed with the resolved
                            // neighbour, so no compatible candidate was lost
                            assert(step(cx as int, cy as int, d) == (nx as int, ny as int));
                            assert(!ok_dir(*grid, *rules, cx as int, cy as int, t as int, d));
                            assert(!cell_ok(*grid, *rules, cx as int, cy as int, t as int));
                            assert forall|x2: int, y2: int, t2: int|
                                grid.in_bounds(x2, y2) && 0 <= t2 < grid.tile_count
                                    && !grid.resolved(x2, y2) && #[trigger] cell_ok(
                                *grid,
                                *rules,
                                x2,
                                y2,
                                t2,
                            ) implies grid.cand(x2, y2, t2) by {
                                if (x2, y2, t2) != (cx as int, cy as int, t as int) {
                                    assert(cell_ok(gpre, *rules, x2, y2, t2));
                                    assert(gpre.cand(x2, y2, t2));
                                }
                            }
                        }
                        if shr {
                            changed = true;
                        }
                        if empt {
                            return (true, true);
                        }
                    }
                    t += 1;
                }
                proof {
                    assert forall|t2: int, j: int|
                        0 <= t2 < tc && #[trigger] grid.cand(cx as int, cy as int, t2) && 0 <= j < k
                            + 1 implies entry_checked(*grid, *rules, #[trigger] nbrs@[j], t2) by {
                        if j == k {
                            assert(rules.allows(n as int, od, t2));
                        }
                    }
                }
            },
        }
        k += 1;
    }
    proof {
        assert forall|t: int|
            0 <= t < grid.tile_count && #[trigger] grid.cand(cx as int, cy as int, t) implies
        cell_ok(*grid, *rules, cx as int, cy as int, t) by {
            assert forall|side: Side|
                g0.in_bounds(
                    #[trigger] step(cx as int, cy as int, side).0,
                    step(cx as int, cy as int, side).1,
                ) && grid.resolved(
                step(cx as int, cy as int, side).0,
                step(cx as int, cy as int, side).1,
            ) implies rs_allows_back(*grid, *rules, cx as int, cy as int, t, side) by {
                let i = choose|i: int| 0 <= i < nbrs@.len() && (#[trigger] nbrs@[i]).1 == side;
                assert(entry_checked(*grid, *rules, nbrs@[i], t));
            }
        }
    }
    (changed, false)
}

/// The rule check `ok_dir` expects for a resolved neighbour of `(x, y)` in
/// direction `side`.
pub open spec fn rs_allows_back(g: Grid, rs: RuleSet, x: int, y: int, t: int, side: Side) -> bool {
    rs.allows(g.tile_at(step(x, y, side).0, step(x, y, side).1) as int, opposite_spec(side), t)
}

/// Propagates the consequences of the newly resolved cell `(x, y)`.
///
/// A FIFO frontier is seeded with the coordinates of every neighbour of
/// `(x, y)`. Repeatedly, a coordinate is popped; re-processing an
/// already-resolved cell is a no-op; an unresolved cell is narrowed against
/// its resolved neighbours, and if its set shrank without emptying, its own
/// unresolved neighbours are enqueued for re-evaluation. An emptied set
/// signals a contradiction and unwinds immediately; the attempt is abandoned.
///
/// Returns whether a contradiction was found. On a `false` return the grid
/// is fully narrowed: every remaining candidate of every unresolved cell is
/// compatible with every resolved neighbour, and no compatible candidate was
/// pruned. A contradiction can only be returned if some unresolved cell had
/// no candidate compatible with all its resolved neighbours to begin with.
pub fn propagate(grid: &mut Grid, rules: &RuleSet, x: usize, y: usize) -> (contra: bool)
    requires
        old(grid).wf(),
        old(grid).in_bounds(x as int, y as int),
        old(grid).resolved(x as int, y as int),
        no_overprune(*old(grid), *rules),
        forall|cx: int, cy: int, t: int|
            old(grid).in_bounds(cx, cy) && 0 <= t < old(grid).tile_count && !old(grid).resolved(
                cx,
                cy,
            ) && #[trigger] old(grid).cand(cx, cy, t) ==> cell_ok_except(
                *old(grid),
                *rules,
                cx,
                cy,
                t,
                (x as int, y as int),
            ),
    ensures
        final(grid).wf(),
        final(grid).width == old(grid).width,
        final(grid).height == old(grid).height,
        final(grid).tile_count == old(grid).tile_count,
        final(grid).cells@ == old(grid).cells@,
        final(grid).support@.len() == old(grid).support@.len(),
        forall|i: int|
            0 <= i < final(grid).support@.len() ==> (#[trigger] final(grid).support@[i] ==> old(
                grid,
            ).support@[i]),
        no_overprune(*final(grid), *rules),
        !contra ==> narrowed(*final(grid), *rules),
        contra ==> exists|cx: int, cy: int|
            old(grid).in_bounds(cx, cy) && !old(grid).resolved(cx, cy) && forall|t: int|
                0 <= t < old(grid).tile_count ==> !(#[trigger] cell_ok(*old(grid), *rules, cx, cy, t)),
{
    let ghost g0 = *grid;
    let mut frontier: VecDeque<(usize, usize)> = VecDeque::new();
    let seed = grid.neighbours((x, y));
    let mut k: usize = 0;
    while k < seed.len()
        invariant
            g0 == *old(grid),
            k <= seed@.len(),
            g0.wf(),
            g0.in_bounds(x as int, y as int),
            *grid == g0,
            forall|i: int|
                0 <= i < seed@.len() ==> g0.nbr_entry(x as int, y as int, #[trigger] seed@[i]),
            forall|side: Side|
                g0.in_bounds(
                    #[trigger] step(x as int, y as int, side).0,
                    step(x as int, y as int, side).1,
                ) ==> exists|i: int| 0 <= i < seed@.len() && (#[trigger] seed@[i]).1 == side,
            frontier@.len() == k,
            forall|i: int| 0 <= i < k ==> frontier@[i] == (#[trigger] seed@[i]).0,
        decreases seed@.len() - k,
    {
        frontier.push_back(seed[k].0);
        k += 1;
    }
    proof {
        assert forall|i: int| 0 <= i < frontier@.len() implies grid.in_bounds(
            ((#[trigger] frontier@[i]).0) as int,
            frontier@[i].1 as int,
        ) by {
            assert(frontier@[i] == seed@[i].0);
            assert(g0.nbr_entry(x as int, y as int, seed@[i]));
        }
        assert(queued_in_bounds(*grid, frontier@));
        // initially, a violating candidate can only clash with the newly
        // resolved cell, so its cell is a neighbour of (x, y) and was seeded
        assert forall|cx: int, cy: int, t: int|
            grid.in_bounds(cx, cy) && 0 <= t < grid.tile_count && !grid.resolved(cx, cy)
                && grid.cand(cx, cy, t) && !(#[trigger] cell_ok(
            *grid,
            *rules,
            cx,
            cy,
            t,
        )) implies frontier@.contains(((cx as usize), (cy as usize))) by {
            assert(cell_ok_except(*grid, *rules, cx, cy, t, (x as int, y as int)));
            let side = choose|side: Side| !ok_dir(*grid, *rules, cx, cy, t, side);
            assert(step(cx, cy, side) == (x as int, y as int));
            crate::grid::lemma_step_opposite(cx, cy, side);
            assert(step(x as int, y as int, opposite_spec(side)) == (cx, cy));
            assert(g0.in_bounds(
                step(x as int, y as int, opposite_spec(side)).0,
                step(x as int, y as int, opposite_spec(side)).1,
            ));
            assert(exists|i: int|
                0 <= i < seed@.len() && (#[trigger] seed@[i]).1 == opposite_spec(side));
            let i = choose|i: int|
                0 <= i < seed@.len() && (#[trigger] seed@[i]).1 == opposite_spec(side);
            assert(g0.nbr_entry(x as int, y as int, seed@[i]));
            assert(frontier@[i] == seed@[i].0);
            assert(frontier@[i] == ((cx as usize), (cy as usize)));
        }
    }
    while frontier.len() > 0
        invariant
            g0 == *old(grid),
            g0.wf(),
            grid.wf(),
            grid.width == g0.width,
            grid.height == g0.height,
            grid.tile_count == g0.tile_count,
            grid.cells@ == g0.cells@,
            grid.support@.len() == g0.support@.len(),
            forall|i: int|
                0 <= i < grid.support@.len() ==> (#[trigger] grid.support@[i] ==> g0.support@[i]),
            no_overprune(*grid, *rules),
            queued_in_bounds(*grid, frontier@),
            violations_queued(*grid, *rules, frontier@),
        decreases count_true(grid.support@), frontier@.len(),
    {
        let ghost frontier_pre = frontier@;
        let c = match frontier.pop_front() {
            Some(c) => c,
            None => unreached(),
        };
        let (ccx, ccy) = c;
        let cell = grid.get((ccx, ccy));
        if cell.is_some() {
            // re-processing an already-resolved cell is a no-op
            proof {
                assert forall|cx: int, cy: int, t: int|
                    grid.in_bounds(cx, cy) && 0 <= t < grid.tile_count && !grid.resolved(cx, cy)
                        && grid.cand(cx, cy, t) && !(#[trigger] cell_ok(
                    *grid,
                    *rules,
                    cx,
                    cy,
                    t,
                )) implies frontier@.contains(((cx as usize), (cy as usize))) by {
                    let v = ((cx as usize), (cy as usize));
                    assert(frontier_pre.contains(v));
                    let i = choose|i: int| 0 <= i < frontier_pre.len() && frontier_pre[i] == v;
                    assert(v != c);
                    assert(i != 0);
                    assert(frontier@[i - 1] == v);
                }
            }
        } else {
            let ghost gpre = *grid;
            let (changed, contra) = narrow_cell(grid, rules, ccx, ccy);
            proof {
                lemma_cell_ok_same_cells(gpre, *grid, *rules);
                lemma_cell_ok_same_cells(g0, *grid, *rules);
            }
            if contra {
                proof {
                    // the emptied cell had no candidate compatible with all
                    // its resolved neighbours: no candidate that was would
                    // have been pruned
                    assert forall|t: int| 0 <= t < g0.tile_count implies !(#[trigger] cell_ok(
                        g0,
                        *rules,
                        ccx as int,
                        ccy as int,
                        t,
                    )) by {
                        assert(!grid.cand(ccx as int, ccy as int, t));
                        if cell_ok(g0, *rules, ccx as int, ccy as int, t) {
                            assert(cell_ok(*grid, *rules, ccx as int, ccy as int, t));
                        }
                    }
                    assert(g0.in_bounds(ccx as int, ccy as int) && !g0.resolved(
                        ccx as int,
                        ccy as int,
                    ));
                }
                return true;
            }
            proof {
                // the popped cell is now clean; every other violating cell
                // kept its queue entry
                assert forall|cx: int, cy: int, t: int|
                    grid.in_bounds(cx, cy) && 0 <= t < grid.tile_count && !grid.resolved(cx, cy)
                        && grid.cand(cx, cy, t) && !(#[trigger] cell_ok(
                    *grid,
                    *rules,
                    cx,
                    cy,
                    t,
                )) implies frontier@.contains(((cx as usize), (cy as usize))) by {
                    let v = ((cx as usize), (cy as usize));
                    if (cx, cy) == (ccx as int, ccy as int) {
                        assert(false);
                    } else {
                        assert(gpre.cand(cx, cy, t) == grid.cand(cx, cy, t));
                        assert(cell_ok(gpre, *rules, cx, cy, t) == cell_ok(*grid, *rules, cx, cy, t));
                        assert(frontier_pre.contains(v));
                        let i = choose|i: int| 0 <= i < frontier_pre.len() && frontier_pre[i] == v;
                        assert(i != 0);
                        assert(frontier@[i - 1] == v);
                    }
                }
            }
            if changed {
                let nbrs = grid.neighbours((ccx, ccy));
                let mut j: usize = 0;
                while j < nbrs.len()
                    invariant
                        j <= nbrs@.len(),
                        grid.wf(),
                        grid.in_bounds(ccx as int, ccy as int),
                        forall|i: int|
                            0 <= i < nbrs@.len() ==> grid.nbr_entry(
                                ccx as int,
                                ccy as int,
                                #[trigger] nbrs@[i],
                            ),
                        queued_in_bounds(*grid, frontier@),
                        violations_queued(*grid, *rules, frontier@),
                    decreases nbrs@.len() - j,
                {
                    let ghost fpre = frontier@;
                    let (np, _nd) = nbrs[j];
                    if grid.get(np).is_none() {
                        frontier.push_back(np);
                        proof {
                            assert forall|cx: int, cy: int, t: int|
                                grid.in_bounds(cx, cy) && 0 <= t < grid.tile_count
                                    && !grid.resolved(cx, cy) && grid.cand(cx, cy, t) && !(
                            #[trigger] cell_ok(*grid, *rules, cx, cy, t)) implies frontier@.contains(
                                ((cx as usize), (cy as usize)),
                            ) by {
                                let v = ((cx as usize), (cy as usize));
                                assert(fpre.contains(v));
                                let i = choose|i: int| 0 <= i < fpre.len() && fpre[i] == v;
                                assert(frontier@[i] == v);
                            }
                        }
                    }
                    j += 1;
                }
            }
        }
    }
    proof {
        assert forall|cx: int, cy: int, t: int|
            grid.in_bounds(cx, cy) && 0 <= t < grid.tile_count && !grid.resolved(cx, cy)
                && #[trigger] grid.cand(cx, cy, t) implies cell_ok(*grid, *rules, cx, cy, t) by {
            if !cell_ok(*grid, *rules, cx, cy, t) {
                assert(frontier@.contains(((cx as usize), (cy as usize))));
            }
        }
    }
    false
}

} // verus!
