//! Color helpers for the greedy nearest-color flood-fill collaborator:
//! a palette generator and a squared-distance metric over RGB triples.

use vstd::prelude::*;

use vstd::arithmetic::div_mod::{
    lemma_mod_bound, lemma_multiply_divide_le, lemma_multiply_divide_lt,
};

verus! {

/// The cube of `k`.
pub open spec fn cube(k: int) -> int {
    k * k * k
}

/// The smallest `k` in `[k0, 255]` whose cube reaches `n`, or 255 if none
/// does.
pub open spec fn up_search(n: int, k: int) -> int
    decreases 255 - k,
{
    if k >= 255 {
        255
    } else if cube(k) >= n {
        k
    } else {
        up_search(n, k + 1)
    }
}

/// How many steps each color channel is divided into for a palette of `n`
/// colors: the smallest cube root bound of `n`, capped at 255; 0 when no
/// color is asked for.
pub open spec fn up_of(n: int) -> int {
    if n == 0 {
        0
    } else {
        up_search(n, 1)
    }
}

/// Channel value for step `v` out of `up`: steps spread over the full
/// `[255/up, 255]` range.
pub open spec fn channel(v: int, up: int) -> u8 {
    (((v + 1) * 255) / up) as u8
}

/// The color at palette index `i`: the red channel varies fastest, then
/// green, then blue.
pub open spec fn color_at(i: int, up: int) -> (u8, u8, u8) {
    (channel(i % up, up), channel((i / up) % up, up), channel(i / (up * up), up))
}

/// Generates a vector of `n` different colors. If `n < 255^3` it scales the
/// palette to use the full `[0, 255]` range for each of r, g and b; for
/// larger `n` the palette is capped at the `255^3` representable steps.
pub fn gen_colors(n: usize) -> (r: Vec<(u8, u8, u8)>)
    ensures
        r@.len() == (if n <= cube(up_of(n as int)) {
            n as int
        } else {
            cube(up_of(n as int))
        }),
        forall|i: int| 0 <= i < r@.len() ==> r@[i] == color_at(i, up_of(n as int)),
{
    if n == 0 {
        return Vec::new();
    }
    let mut up: usize = 1;
    loop
        invariant
            1 <= up <= 255,
            up_search(n as int, 1) == up_search(n as int, up as int),
        ensures
            1 <= up <= 255,
            up as int == up_search(n as int, 1),
        decreases 255 - up,
    {
        proof {
            assert(up * up <= 65025 && (up * up) * up <= 16581375) by (nonlinear_arith)
                requires
                    1 <= up <= 255,
            ;
        }
        let c3: usize = (up * up) * up;
        if up == 255 || c3 >= n {
            break;
        }
        up += 1;
    }
    proof {
        assert(up as int == up_of(n as int));
        assert(up * up <= 65025 && (up * up) * up <= 16581375) by (nonlinear_arith)
            requires
                1 <= up <= 255,
        ;
    }
    let c: usize = (up * up) * up;
    let count: usize = if n <= c {
        n
    } else {
        c
    };
    let mut result: Vec<(u8, u8, u8)> = Vec::new();
    let mut i: usize = 0;
    while i < count
        invariant
            1 <= up <= 255,
            up as int == up_of(n as int),
            c == cube(up as int),
            c <= 16581375,
            count == (if n <= c {
                n as int
            } else {
                c as int
            }),
            i <= count,
            result@.len() == i,
            forall|j: int| 0 <= j < i ==> result@[j] == color_at(j, up_of(n as int)),
        decreases count - i,
    {
        proof {
            assert(up * up <= 65025) by (nonlinear_arith)
                requires
                    1 <= up <= 255,
            ;
            lemma_mod_bound(i as int, up as int);
            lemma_mod_bound((i as int) / (up as int), up as int);
            lemma_multiply_divide_lt(i as int, (up * up) as int, up as int);
            lemma_multiply_divide_le(((i as int) % (up as int) + 1) * 255, up as int, 255);
            lemma_multiply_divide_le(
                (((i as int) / (up as int)) % (up as int) + 1) * 255,
                up as int,
                255,
            );
            lemma_multiply_divide_le(((i as int) / ((up * up) as int) + 1) * 255, up as int, 255);
        }
        let v_r: usize = i % up;
        let v_g: usize = (i / up) % up;
        let v_b: usize = i / (up * up);
        let ch_r: usize = (v_r + 1) * 255 / up;
        let ch_g: usize = (v_g + 1) * 255 / up;
        let ch_b: usize = (v_b + 1) * 255 / up;
        result.push((ch_r as u8, ch_g as u8, ch_b as u8));
        i += 1;
    }
    result
}

/// The square of `v`.
pub open spec fn sq(v: int) -> int {
    v * v
}

/// Squared euclidean distance between two RGB triples.
pub fn dist(a: &[u8; 3], b: &[u8; 3]) -> (r: u32)
    ensures
        r == sq(b@[0] - a@[0]) + sq(b@[1] - a@[1]) + sq(b@[2] - a@[2]),
{
    let dx: i32 = b[0] as i32 - a[0] as i32;
    let dy: i32 = b[1] as i32 - a[1] as i32;
    let dz: i32 = b[2] as i32 - a[2] as i32;
    proof {
        assert(0 <= dx * dx <= 65025) by (nonlinear_arith)
            requires
                -255 <= dx <= 255,
        ;
        assert(0 <= dy * dy <= 65025) by (nonlinear_arith)
            requires
                -255 <= dy <= 255,
        ;
        assert(0 <= dz * dz <= 65025) by (nonlinear_arith)
            requires
                -255 <= dz <= 255,
        ;
    }
    ((dx * dx) + (dy * dy) + (dz * dz)) as u32
}

} // verus!
