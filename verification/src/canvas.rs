//! A pixel canvas and the greedy nearest-color flood-fill colorizer: colors
//! spread outward from a start pixel, each newly reached pixel taking the
//! unused palette color nearest to the color it was reached from. A simple
//! priority/BFS placement heuristic with no backtracking.

use vstd::prelude::*;
use vstd::pervasive::unreached;

use std::collections::VecDeque;

use crate::colors::{dist, sq};
use crate::grid::{
    count_true, lemma_cell_index_bounds, lemma_count_true_below,
    lemma_count_true_set,
};

verus! {

/// Squared euclidean distance between two RGB triples, as a specification.
pub open spec fn sqdist(a: [u8; 3], b: [u8; 3]) -> int {
    sq(b@[0] - a@[0]) + sq(b@[1] - a@[1]) + sq(b@[2] - a@[2])
}

/// Lexicographic order on RGB triples.
pub open spec fn lex_lt(a: [u8; 3], b: [u8; 3]) -> bool {
    ||| a@[0] < b@[0]
    ||| (a@[0] == b@[0] && a@[1] < b@[1])
    ||| (a@[0] == b@[0] && a@[1] == b@[1] && a@[2] < b@[2])
}

/// A fixed-size image: one RGB triple per pixel, row-major.
pub struct Canvas {
    pub max_x: u32,
    pub max_y: u32,
    pub pixels: Vec<[u8; 3]>,
}

impl Canvas {
    /// Structural well-formedness of the canvas.
    pub open spec fn wf(self) -> bool {
        &&& self.max_x >= 1
        &&& self.max_y >= 1
        &&& self.max_x * self.max_y <= usize::MAX
        &&& self.pixels@.len() == self.max_x * self.max_y
    }

    /// Whether `(x, y)` lies on the canvas.
    pub open spec fn in_bounds(self, x: int, y: int) -> bool {
        0 <= x < self.max_x && 0 <= y < self.max_y
    }

    /// Row-major index of pixel `(x, y)`.
    pub open spec fn pix_index(self, x: int, y: int) -> int {
        y * self.max_x + x
    }

    /// The color of pixel `(x, y)`.
    pub open spec fn pixel(self, x: int, y: int) -> [u8; 3] {
        self.pixels@[self.pix_index(x, y)]
    }

    /// Allocates an all-black canvas of the given size.
    pub fn new(imgx: u32, imgy: u32) -> (r: Canvas)
        requires
            imgx >= 1,
            imgy >= 1,
            imgx * imgy <= usize::MAX,
        ensures
            r.wf(),
            r.max_x == imgx,
            r.max_y == imgy,
            forall|i: int| 0 <= i < r.pixels@.len() ==> (#[trigger] r.pixels@[i])@ == seq![
                0u8,
                0u8,
                0u8,
            ],
    {
        let n: usize = (imgx as usize) * (imgy as usize);
        let mut pixels: Vec<[u8; 3]> = Vec::new();
        let mut i: usize = 0;
        while i < n
            invariant
                i <= n,
                pixels@.len() == i,
                forall|j: int| 0 <= j < i ==> (#[trigger] pixels@[j])@ == seq![0u8, 0u8, 0u8],
            decreases n - i,
        {
            pixels.push([0, 0, 0]);
            i += 1;
        }
        Canvas { max_x: imgx, max_y: imgy, pixels }
    }

    /// The neighbours of `(x, y)` on the canvas, in the order left, right,
    /// up, down; coordinates off the canvas are omitted.
    pub fn neighbours(&self, point: (u32, u32)) -> (r: Vec<(u32, u32)>)
        requires
            self.wf(),
            self.in_bounds(point.0 as int, point.1 as int),
        ensures
            r@.len() == (if point.0 > 0 {
                1int
            } else {
                0int
            }) + (if point.0 + 1 < self.max_x {
                1int
            } else {
                0int
            }) + (if point.1 > 0 {
                1int
            } else {
                0int
            }) + (if point.1 + 1 < self.max_y {
                1int
            } else {
                0int
            }),
            forall|i: int|
                0 <= i < r@.len() ==> self.in_bounds((#[trigger] r@[i]).0 as int, r@[i].1 as int),
    {
        let (x, y) = point;
        let mut result: Vec<(u32, u32)> = Vec::new();
        if x > 0 {
            result.push((x - 1, y));
        }
        if x + 1 < self.max_x {
            result.push((x + 1, y));
        }
        if y > 0 {
            result.push((x, y - 1));
        }
        if y + 1 < self.max_y {
            result.push((x, y + 1));
        }
        result
    }

    /// Paints pixel `(x, y)` with `col`.
    pub fn put(&mut self, point: (u32, u32), col: [u8; 3])
        requires
            old(self).wf(),
            old(self).in_bounds(point.0 as int, point.1 as int),
        ensures
            final(self).wf(),
            final(self).max_x == old(self).max_x,
            final(self).max_y == old(self).max_y,
            final(self).pixels@ == old(self).pixels@.update(
                old(self).pix_index(point.0 as int, point.1 as int),
                col,
            ),
    {
        let (x, y) = point;
        proof {
            lemma_cell_index_bounds(self.max_x as int, self.max_y as int, x as int, y as int);
        }
        let idx: usize = (y as usize) * (self.max_x as usize) + (x as usize);
        self.pixels[idx] = col;
    }
}

/// Removes and returns the lexicographically smallest color of `remaining`.
fn take_lex_min(remaining: &mut Vec<[u8; 3]>) -> (r: [u8; 3])
    requires
        old(remaining)@.len() > 0,
    ensures
        final(remaining)@.len() + 1 == old(remaining)@.len(),
        old(remaining)@.contains(r),
        forall|i: int| 0 <= i < old(remaining)@.len() ==> !lex_lt(#[trigger] old(remaining)@[i], r),
        forall|i: int|
            0 <= i < final(remaining)@.len() ==> old(remaining)@.contains(
                #[trigger] final(remaining)@[i],
            ),
{
    let mut best: usize = 0;
    let mut i: usize = 1;
    while i < remaining.len()
        invariant
            remaining@.len() > 0,
            best < i <= remaining@.len(),
            forall|j: int|
                0 <= j < i ==> !lex_lt(#[trigger] remaining@[j], remaining@[best as int]),
        decreases remaining@.len() - i,
    {
        let cand = remaining[i];
        let cur = remaining[best];
        if cand[0] < cur[0] || (cand[0] == cur[0] && (cand[1] < cur[1] || (cand[1] == cur[1]
            && cand[2] < cur[2]))) {
            best = i;
        }
        i += 1;
    }
    let r = remaining.remove(best);
    proof {
        assert forall|j: int|
            0 <= j < remaining@.len() implies old(remaining)@.contains(
            #[trigger] remaining@[j],
        ) by {
            if j < best {
                assert(remaining@[j] == old(remaining)@[j]);
            } else {
                assert(remaining@[j] == old(remaining)@[j + 1]);
            }
        }
    }
    r
}

/// Removes and returns an unused color at minimal squared distance from
/// `from` (the first such color in lexicographic-minimum scanning order).
fn take_best(remaining: &mut Vec<[u8; 3]>, from: &[u8; 3]) -> (r: [u8; 3])
    requires
        old(remaining)@.len() > 0,
    ensures
        final(remaining)@.len() + 1 == old(remaining)@.len(),
        old(remaining)@.contains(r),
        forall|i: int|
            0 <= i < old(remaining)@.len() ==> sqdist(*from, #[trigger] old(remaining)@[i])
                >= sqdist(*from, r),
        forall|i: int|
            0 <= i < final(remaining)@.len() ==> old(remaining)@.contains(
                #[trigger] final(remaining)@[i],
            ),
{
    let mut best: usize = 0;
    let mut best_d: u32 = dist(from, &remaining[0]);
    let mut i: usize = 1;
    while i < remaining.len()
        invariant
            remaining@.len() > 0,
            best < i <= remaining@.len(),
            best_d == sqdist(*from, remaining@[best as int]),
            forall|j: int|
                0 <= j < i ==> sqdist(*from, #[trigger] remaining@[j]) >= best_d,
        decreases remaining@.len() - i,
    {
        let d = dist(from, &remaining[i]);
        let cand = remaining[i];
        let cur = remaining[best];
        if d < best_d || (d == best_d && (cand[0] < cur[0] || (cand[0] == cur[0] && (cand[1]
            < cur[1] || (cand[1] == cur[1] && cand[2] < cur[2]))))) {
            best = i;
            best_d = d;
        }
        i += 1;
    }
    let r = remaining.remove(best);
    proof {
        assert forall|j: int|
            0 <= j < remaining@.len() implies old(remaining)@.contains(
            #[trigger] remaining@[j],
        ) by {
            if j < best {
                assert(remaining@[j] == old(remaining)@[j]);
            } else {
                assert(remaining@[j] == old(remaining)@[j + 1]);
            }
        }
    }
    r
}

/// Fills a canvas by greedy nearest-color flood fill. Painting starts at
/// `start` with the lexicographically smallest color; every pixel reached
/// from an already-painted neighbour takes the unused color nearest to that
/// neighbour's color. Every painted pixel's color comes from the palette;
/// with at least one color per pixel the palette can never run dry.
pub fn colorize(imgx: u32, imgy: u32, colors: Vec<[u8; 3]>, start: (u32, u32)) -> (r: Canvas)
    requires
        imgx >= 1,
        imgy >= 1,
        imgx * imgy <= usize::MAX,
        0 <= start.0 < imgx,
        0 <= start.1 < imgy,
        colors@.len() >= imgx * imgy,
    ensures
        r.wf(),
        r.max_x == imgx,
        r.max_y == imgy,
        forall|i: int|
            0 <= i < r.pixels@.len() ==> (colors@.contains(#[trigger] r.pixels@[i])
                || r.pixels@[i]@ == seq![0u8, 0u8, 0u8]),
        colors@.contains(r.pixel(start.0 as int, start.1 as int)),
        forall|i: int|
            0 <= i < colors@.len() ==> !lex_lt(
                #[trigger] colors@[i],
                r.pixel(start.0 as int, start.1 as int),
            ),
{
    let mut canvas = Canvas::new(imgx, imgy);
    let n: usize = (imgx as usize) * (imgy as usize);
    let mut placed: Vec<bool> = Vec::new();
    let mut i: usize = 0;
    while i < n
        invariant
            i <= n,
            placed@.len() == i,
            forall|j: int| 0 <= j < i ==> !(#[trigger] placed@[j]),
        decreases n - i,
    {
        placed.push(false);
        i += 1;
    }
    proof {
        lemma_count_all_false(placed@);
    }
    let mut placed_count: usize = 0;
    let mut remaining: Vec<[u8; 3]> = colors;
    let mut to_place: VecDeque<([u8; 3], (u32, u32))> = VecDeque::new();

    proof {
        lemma_cell_index_bounds(imgx as int, imgy as int, 0, 0);
    }
    let first = take_lex_min(&mut remaining);
    proof {
        lemma_cell_index_bounds(imgx as int, imgy as int, start.0 as int, start.1 as int);
        lemma_count_true_set(placed@, canvas.pix_index(start.0 as int, start.1 as int));
    }
    canvas.put(start, first);
    let sidx: usize = (start.1 as usize) * (imgx as usize) + (start.0 as usize);
    placed[sidx] = true;
    placed_count = 1;
    let nbrs0 = canvas.neighbours(start);
    let mut k: usize = 0;
    while k < nbrs0.len()
        invariant
            k <= nbrs0@.len(),
            canvas.wf(),
            canvas.max_x == imgx,
            canvas.max_y == imgy,
            forall|i2: int|
                0 <= i2 < nbrs0@.len() ==> canvas.in_bounds(
                    (#[trigger] nbrs0@[i2]).0 as int,
                    nbrs0@[i2].1 as int,
                ),
            forall|i2: int|
                0 <= i2 < to_place@.len() ==> canvas.in_bounds(
                    (#[trigger] to_place@[i2]).1.0 as int,
                    to_place@[i2].1.1 as int,
                ),
        decreases nbrs0@.len() - k,
    {
        to_place.push_back((first, nbrs0[k]));
        k += 1;
    }

    while to_place.len() > 0
        invariant
            canvas.wf(),
            canvas.max_x == imgx,
            canvas.max_y == imgy,
            n == imgx * imgy,
            placed@.len() == n,
            0 <= sidx < n,
            sidx == canvas.pix_index(start.0 as int, start.1 as int),
            placed@[sidx as int],
            canvas.pixels@[sidx as int] == first,
            colors@.contains(first),
            forall|i2: int| 0 <= i2 < colors@.len() ==> !lex_lt(#[trigger] colors@[i2], first),
            placed_count == count_true(placed@),
            placed_count <= n,
            remaining@.len() + placed_count >= n,
            forall|i2: int|
                0 <= i2 < to_place@.len() ==> canvas.in_bounds(
                    (#[trigger] to_place@[i2]).1.0 as int,
                    to_place@[i2].1.1 as int,
                ),
            forall|i2: int|
                0 <= i2 < remaining@.len() ==> colors@.contains(#[trigger] remaining@[i2]),
            forall|i2: int|
                0 <= i2 < canvas.pixels@.len() ==> (colors@.contains(#[trigger] canvas.pixels@[i2])
                    || canvas.pixels@[i2]@ == seq![0u8, 0u8, 0u8]),
        decreases n - placed_count, to_place@.len(),
    {
        let entry = match to_place.pop_front() {
            Some(e) => e,
            None => unreached(),
        };
        let (from_col, point) = entry;
        let (px, py) = point;
        proof {
            lemma_cell_index_bounds(imgx as int, imgy as int, px as int, py as int);
        }
        let pidx: usize = (py as usize) * (imgx as usize) + (px as usize);
        if !placed[pidx] {
            proof {
                lemma_count_true_below(placed@, pidx as int);
                lemma_count_true_set(placed@, pidx as int);
            }
            let col = take_best(&mut remaining, &from_col);
            canvas.put(point, col);
            placed[pidx] = true;
            placed_count += 1;
            let nbrs = canvas.neighbours(point);
            let mut j: usize = 0;
            while j < nbrs.len()
                invariant
                    j <= nbrs@.len(),
                    canvas.wf(),
                    canvas.max_x == imgx,
                    canvas.max_y == imgy,
                    forall|i2: int|
                        0 <= i2 < nbrs@.len() ==> canvas.in_bounds(
                            (#[trigger] nbrs@[i2]).0 as int,
                            nbrs@[i2].1 as int,
                        ),
                    forall|i2: int|
                        0 <= i2 < to_place@.len() ==> canvas.in_bounds(
                            (#[trigger] to_place@[i2]).1.0 as int,
                            to_place@[i2].1.1 as int,
                        ),
                decreases nbrs@.len() - j,
            {
                to_place.push_back((col, nbrs[j]));
                j += 1;
            }
        }
    }
    canvas
}

/// An all-false flag vector has no set flags.
proof fn lemma_count_all_false(s: Seq<bool>)
    requires
        forall|j: int| 0 <= j < s.len() ==> !(#[trigger] s[j]),
    ensures
        count_true(s) == 0,
    decreases s.len(),
{
    if s.len() > 0 {
        lemma_count_all_false(s.drop_last());
    }
}

} // verus!
