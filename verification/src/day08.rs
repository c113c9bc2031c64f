//! Tree house visibility on a rectangular grid of heights: count the trees
//! visible from outside the grid, and find the best scenic score (the
//! product of the four viewing distances).

use vstd::prelude::*;
use vstd::string::StringSliceAdditionalSpecFns;

use crate::util::{dec_digits, lines_of, spec_lines, two_answers, u128_string, views};

verus! {

/// All rows have the width of the first.
pub open spec fn rect(g: Seq<Seq<u8>>) -> bool {
    forall|i: int| 0 <= i < g.len() ==> (#[trigger] g[i]).len() == g[0].len()
}

/// The tree at `(x, y)` can be seen from some edge.
pub open spec fn vis(g: Seq<Seq<u8>>, x: int, y: int) -> bool {
    let w = g[0].len() as int;
    let h = g.len() as int;
    ||| x == 0
    ||| y == 0
    ||| x == w - 1
    ||| y == h - 1
    ||| (forall|k: int| x < k < w ==> (#[trigger] g[y][k]) < g[y][x])
    ||| (forall|k: int| 0 <= k < x ==> (#[trigger] g[y][k]) < g[y][x])
    ||| (forall|k: int| y < k < h ==> (#[trigger] g[k][x]) < g[y][x])
    ||| (forall|k: int| 0 <= k < y ==> (#[trigger] g[k][x]) < g[y][x])
}

/// First index right of `x` whose tree blocks the view, or the width.
pub open spec fn first_ge_right(g: Seq<Seq<u8>>, x: int, y: int, k: int) -> int
    decreases g[0].len() - k,
{
    if k < 0 || k >= g[0].len() {
        g[0].len() as int
    } else if g[y][k] >= g[y][x] {
        k
    } else {
        first_ge_right(g, x, y, k + 1)
    }
}

/// First index left of `x` whose tree blocks the view, or -1.
pub open spec fn first_ge_left(g: Seq<Seq<u8>>, x: int, y: int, k: int) -> int
    decreases k + 1,
{
    if k < 0 {
        -1
    } else if g[y][k] >= g[y][x] {
        k
    } else {
        first_ge_left(g, x, y, k - 1)
    }
}

/// First row below `y` whose tree blocks the view, or the height.
pub open spec fn first_ge_down(g: Seq<Seq<u8>>, x: int, y: int, k: int) -> int
    decreases g.len() - k,
{
    if k < 0 || k >= g.len() {
        g.len() as int
    } else if g[k][x] >= g[y][x] {
        k
    } else {
        first_ge_down(g, x, y, k + 1)
    }
}

/// First row above `y` whose tree blocks the view, or -1.
pub open spec fn first_ge_up(g: Seq<Seq<u8>>, x: int, y: int, k: int) -> int
    decreases k + 1,
{
    if k < 0 {
        -1
    } else if g[k][x] >= g[y][x] {
        k
    } else {
        first_ge_up(g, x, y, k - 1)
    }
}

/// The scenic score of the tree at `(x, y)`: 0 on the edge, else the
/// product of the four viewing distances.
pub open spec fn scenic(g: Seq<Seq<u8>>, x: int, y: int) -> int {
    let w = g[0].len() as int;
    let h = g.len() as int;
    if x == 0 || y == 0 || x == w - 1 || y == h - 1 {
        0
    } else {
        let r = first_ge_right(g, x, y, x + 1);
        let l = first_ge_left(g, x, y, x - 1);
        let d = first_ge_down(g, x, y, y + 1);
        let u = first_ge_up(g, x, y, y - 1);
        (if r == w {
            w - 1 - x
        } else {
            r - x
        }) * (if l == -1 {
            x
        } else {
            x - l
        }) * (if d == h {
            h - 1 - y
        } else {
            d - y
        }) * (if u == -1 {
            y
        } else {
            y - u
        })
    }
}

/// Visible trees among the first `x` of row `y`.
pub open spec fn vis_in_row(g: Seq<Seq<u8>>, y: int, x: int) -> int
    decreases x,
{
    if x <= 0 {
        0
    } else {
        vis_in_row(g, y, x - 1) + if vis(g, x - 1, y) {
            1int
        } else {
            0int
        }
    }
}

/// Visible trees in the first `y` rows.
pub open spec fn vis_total(g: Seq<Seq<u8>>, y: int) -> int
    decreases y,
{
    if y <= 0 {
        0
    } else {
        vis_total(g, y - 1) + vis_in_row(g, y - 1, g[0].len() as int)
    }
}

/// Best scenic score among the first `x` trees of row `y`.
pub open spec fn best_in_row(g: Seq<Seq<u8>>, y: int, x: int) -> int
    decreases x,
{
    if x <= 0 {
        0
    } else {
        let prev = best_in_row(g, y, x - 1);
        if scenic(g, x - 1, y) > prev {
            scenic(g, x - 1, y)
        } else {
            prev
        }
    }
}

/// Best scenic score in the first `y` rows.
pub open spec fn best_total(g: Seq<Seq<u8>>, y: int) -> int
    decreases y,
{
    if y <= 0 {
        0
    } else {
        let prev = best_total(g, y - 1);
        let row = best_in_row(g, y - 1, g[0].len() as int);
        if row > prev {
            row
        } else {
            prev
        }
    }
}

/// Whether the tree at `(x, y)` is visible from outside.
#[verifier::loop_isolation(false)]
fn vis_at(g: &Vec<Vec<u8>>, x: usize, y: usize) -> (r: bool)
    requires
        rect(views(g@)),
        0 <= y < g@.len(),
        0 <= x < views(g@)[0].len(),
    ensures
        r == vis(views(g@), x as int, y as int),
{
    let ghost gv = views(g@);
    proof {
        assert forall|rr: int| 0 <= rr < g@.len() implies (#[trigger] g@[rr]@) == gv[rr] && g@[
            rr
        ]@.len() == gv[0].len() by {
            assert(gv[rr] == g@[rr]@);
        }
        assert(g@[0]@.len() == gv[0].len());
    }
    let w = g[0].len();
    let h = g.len();
    let t = g[y][x];
    if x == 0 || y == 0 || x == w - 1 || y == h - 1 {
        return true;
    }
    let mut right = true;
    let mut k = x + 1;
    while k < w
        invariant
            x < k <= w,
            right <==> forall|kk: int| x < kk < k ==> (#[trigger] gv[y as int][kk]) < t,
        decreases w - k,
    {
        if g[y][k] >= t {
            right = false;
        }
        k = k + 1;
    }
    if right {
        return true;
    }
    let mut left = true;
    k = 0;
    while k < x
        invariant
            0 <= k <= x,
            left <==> forall|kk: int| 0 <= kk < k ==> (#[trigger] gv[y as int][kk]) < t,
        decreases x - k,
    {
        if g[y][k] >= t {
            left = false;
        }
        k = k + 1;
    }
    if left {
        return true;
    }
    let mut down = true;
    k = y + 1;
    while k < h
        invariant
            y < k <= h,
            down <==> forall|kk: int| y < kk < k ==> (#[trigger] gv[kk][x as int]) < t,
        decreases h - k,
    {
        if g[k][x] >= t {
            down = false;
        }
        k = k + 1;
    }
    if down {
        return true;
    }
    let mut up = true;
    k = 0;
    while k < y
        invariant
            0 <= k <= y,
            up <==> forall|kk: int| 0 <= kk < k ==> (#[trigger] gv[kk][x as int]) < t,
        decreases y - k,
    {
        if g[k][x] >= t {
            up = false;
        }
        k = k + 1;
    }
    up
}

/// The scenic score of the tree at `(x, y)`.
#[verifier::loop_isolation(false)]
#[verifier::rlimit(100)]
fn scenic_at(g: &Vec<Vec<u8>>, x: usize, y: usize) -> (r: u128)
    requires
        rect(views(g@)),
        0 <= y < g@.len(),
        0 <= x < views(g@)[0].len(),
        g@.len() <= 0x1_0000_0000,
        views(g@)[0].len() < 0x1_0000_0000,
    ensures
        r == scenic(views(g@), x as int, y as int),
{
    let ghost gv = views(g@);
    proof {
        assert forall|rr: int| 0 <= rr < g@.len() implies (#[trigger] g@[rr]@) == gv[rr] && g@[
            rr
        ]@.len() == gv[0].len() by {
            assert(gv[rr] == g@[rr]@);
        }
        assert(g@[0]@.len() == gv[0].len());
    }
    let w = g[0].len();
    let h = g.len();
    let t = g[y][x];
    if x == 0 || y == 0 || x == w - 1 || y == h - 1 {
        return 0;
    }
    let mut k = x + 1;
    while k < w && g[y][k] < t
        invariant
            x < k <= w,
            first_ge_right(gv, x as int, y as int, x + 1) == first_ge_right(
                gv,
                x as int,
                y as int,
                k as int,
            ),
        decreases w - k,
    {
        k = k + 1;
    }
    let s0: u128 = if k == w {
        (w - 1 - x) as u128
    } else {
        (k - x) as u128
    };
    let mut k2: usize = x - 1;
    while k2 > 0 && g[y][k2] < t
        invariant
            0 <= k2 < x,
            first_ge_left(gv, x as int, y as int, x - 1) == first_ge_left(
                gv,
                x as int,
                y as int,
                k2 as int,
            ),
        decreases k2,
    {
        k2 = k2 - 1;
    }
    let s1: u128 = if g[y][k2] < t {
        x as u128
    } else {
        (x - k2) as u128
    };
    proof {
        assert(g@[y as int]@ == gv[y as int]);
        if gv[y as int][k2 as int] < t {
            assert(first_ge_left(gv, x as int, y as int, -1) == -1);
            assert(first_ge_left(gv, x as int, y as int, k2 as int) == -1);
        }
    }
    let mut k3 = y + 1;
    while k3 < h && g[k3][x] < t
        invariant
            y < k3 <= h,
            first_ge_down(gv, x as int, y as int, y + 1) == first_ge_down(
                gv,
                x as int,
                y as int,
                k3 as int,
            ),
        decreases h - k3,
    {
        k3 = k3 + 1;
    }
    let s2: u128 = if k3 == h {
        (h - 1 - y) as u128
    } else {
        (k3 - y) as u128
    };
    let mut k4: usize = y - 1;
    while k4 > 0 && g[k4][x] < t
        invariant
            0 <= k4 < y,
            first_ge_up(gv, x as int, y as int, y - 1) == first_ge_up(
                gv,
                x as int,
                y as int,
                k4 as int,
            ),
        decreases k4,
    {
        k4 = k4 - 1;
    }
    let s3: u128 = if g[k4][x] < t {
        y as u128
    } else {
        (y - k4) as u128
    };
    proof {
        if gv[k4 as int][x as int] < t {
            assert(first_ge_up(gv, x as int, y as int, -1) == -1);
            assert(first_ge_up(gv, x as int, y as int, k4 as int) == -1);
        }
        assert(s0 <= 0xffff_ffff && s1 <= 0xffff_ffff && s2 <= 0xffff_ffff && s3 <= 0xffff_ffff);
        vstd::arithmetic::mul::lemma_mul_upper_bound(
            s0 as int,
            0xffff_ffff,
            s1 as int,
            0xffff_ffff,
        );
        vstd::arithmetic::mul::lemma_mul_upper_bound(
            (s0 as int) * (s1 as int),
            0xffff_ffff_ffff_ffff,
            s2 as int,
            0xffff_ffff,
        );
        vstd::arithmetic::mul::lemma_mul_upper_bound(
            (s0 as int) * (s1 as int) * (s2 as int),
            0xffff_ffff_ffff_ffff_ffff_ffff,
            s3 as int,
            0xffff_ffff,
        );
    }
    s0 * s1 * s2 * s3
}

/// Count of visible trees and best scenic score over the whole grid.
#[verifier::loop_isolation(false)]
pub fn trees(input: &str) -> (r: (u128, u128))
    requires
        input.spec_bytes().len() <= 0xffff_ffff,
        rect(spec_lines(input.spec_bytes())),
    ensures
        r.0 == vis_total(spec_lines(input.spec_bytes()), spec_lines(input.spec_bytes()).len() as int),
        r.1 == best_total(
            spec_lines(input.spec_bytes()),
            spec_lines(input.spec_bytes()).len() as int,
        ),
{
    let g = lines_of(input);
    let ghost gv = views(g@);
    let h = g.len();
    proof {
        crate::util::lemma_spec_lines_count(input.spec_bytes());
        crate::util::lemma_spec_lines_each(input.spec_bytes());
    }
    if h == 0 {
        return (0, 0);
    }
    proof {
        assert forall|rr: int| 0 <= rr < g@.len() implies (#[trigger] g@[rr]@) == gv[rr] && g@[
            rr
        ]@.len() == gv[0].len() by {
            assert(gv[rr] == g@[rr]@);
        }
        assert(g@[0]@.len() == gv[0].len());
    }
    let w = g[0].len();
    let mut nvis: u128 = 0;
    let mut smax: u128 = 0;
    for y in 0..h
        invariant
            h == gv.len(),
            w == gv[0].len(),
            h <= 0x1_0000_0000,
            w < 0x1_0000_0000,
            nvis == vis_total(gv, y as int),
            smax == best_total(gv, y as int),
            nvis <= (y as int) * 0x1_0000_0000,
            smax <= 0x1_0000_0000_0000_0000_0000_0000_0000_0000 - 1,
    {
        for x in 0..w
            invariant
                h == gv.len(),
                w == gv[0].len(),
                h <= 0x1_0000_0000,
                w < 0x1_0000_0000,
                y < h,
                nvis == vis_total(gv, y as int) + vis_in_row(gv, y as int, x as int),
                smax == (if best_in_row(gv, y as int, x as int) > best_total(gv, y as int) {
                    best_in_row(gv, y as int, x as int)
                } else {
                    best_total(gv, y as int)
                }),
                nvis <= (y as int) * 0x1_0000_0000 + x,
                smax <= 0x1_0000_0000_0000_0000_0000_0000_0000_0000 - 1,
        {
            if vis_at(&g, x, y) {
                nvis = nvis + 1;
            }
            let sc = scenic_at(&g, x, y);
            proof {
                lemma_scenic_bound(gv, x as int, y as int);
            }
            if sc > smax {
                smax = sc;
            }
        }
    }
    (nvis, smax)
}

/// A scenic score stays below the fourth power of the grid bound.
proof fn lemma_scenic_bound(g: Seq<Seq<u8>>, x: int, y: int)
    requires
        g.len() <= 0x1_0000_0000,
        g[0].len() < 0x1_0000_0000,
        0 <= x < g[0].len(),
        0 <= y < g.len(),
    ensures
        scenic(g, x, y) < 0x1_0000_0000_0000_0000_0000_0000_0000_0000,
        scenic(g, x, y) >= 0,
{
    let w = g[0].len() as int;
    let h = g.len() as int;
    if x == 0 || y == 0 || x == w - 1 || y == h - 1 {
    } else {
        lemma_first_ge_right_range(g, x, y, x + 1);
        lemma_first_ge_left_range(g, x, y, x - 1);
        lemma_first_ge_down_range(g, x, y, y + 1);
        lemma_first_ge_up_range(g, x, y, y - 1);
        let r = first_ge_right(g, x, y, x + 1);
        let l = first_ge_left(g, x, y, x - 1);
        let d = first_ge_down(g, x, y, y + 1);
        let u = first_ge_up(g, x, y, y - 1);
        let f0 = if r == w {
            w - 1 - x
        } else {
            r - x
        };
        let f1 = if l == -1 {
            x
        } else {
            x - l
        };
        let f2 = if d == h {
            h - 1 - y
        } else {
            d - y
        };
        let f3 = if u == -1 {
            y
        } else {
            y - u
        };
        assert(0 <= f0 < 0x1_0000_0000 && 0 <= f1 < 0x1_0000_0000 && 0 <= f2 < 0x1_0000_0000 && 0
            <= f3 < 0x1_0000_0000);
        assert(f0 * f1 * f2 * f3 < 0x1_0000_0000_0000_0000_0000_0000_0000_0000 && f0 * f1 * f2 * f3
            >= 0) by (nonlinear_arith)
            requires
                0 <= f0 < 0x1_0000_0000 && 0 <= f1 < 0x1_0000_0000 && 0 <= f2 < 0x1_0000_0000 && 0
                    <= f3 < 0x1_0000_0000,
        ;
    }
}

proof fn lemma_first_ge_right_range(g: Seq<Seq<u8>>, x: int, y: int, k: int)
    requires
        0 <= k <= g[0].len(),
    ensures
        k <= first_ge_right(g, x, y, k) <= g[0].len(),
    decreases g[0].len() - k,
{
    if k < g[0].len() && !(g[y][k] >= g[y][x]) {
        lemma_first_ge_right_range(g, x, y, k + 1);
    }
}

proof fn lemma_first_ge_left_range(g: Seq<Seq<u8>>, x: int, y: int, k: int)
    ensures
        -1 <= first_ge_left(g, x, y, k),
        k >= -1 ==> first_ge_left(g, x, y, k) <= k,
    decreases k + 1,
{
    if k >= 0 && !(g[y][k] >= g[y][x]) {
        lemma_first_ge_left_range(g, x, y, k - 1);
    }
}

proof fn lemma_first_ge_down_range(g: Seq<Seq<u8>>, x: int, y: int, k: int)
    requires
        0 <= k <= g.len(),
    ensures
        k <= first_ge_down(g, x, y, k) <= g.len(),
    decreases g.len() - k,
{
    if k < g.len() && !(g[k][x] >= g[y][x]) {
        lemma_first_ge_down_range(g, x, y, k + 1);
    }
}

proof fn lemma_first_ge_up_range(g: Seq<Seq<u8>>, x: int, y: int, k: int)
    ensures
        -1 <= first_ge_up(g, x, y, k),
        k >= -1 ==> first_ge_up(g, x, y, k) <= k,
    decreases k + 1,
{
    if k >= 0 && !(g[k][x] >= g[y][x]) {
        lemma_first_ge_up_range(g, x, y, k - 1);
    }
}

/// Visible-tree count and best scenic score as "`p1` `p2`".
pub fn run(input: &str) -> (r: Result<String, crate::InputError>)
    requires
        input.spec_bytes().len() <= 0xffff_ffff,
        rect(spec_lines(input.spec_bytes())),
    ensures
        r is Ok,
        r->Ok_0@ == dec_digits(
            vis_total(spec_lines(input.spec_bytes()), spec_lines(input.spec_bytes()).len() as int),
        ) + seq![' '] + dec_digits(
            best_total(spec_lines(input.spec_bytes()), spec_lines(input.spec_bytes()).len() as int),
        ),
{
    let (p1, p2) = trees(input);
    Ok(two_answers(u128_string(p1), u128_string(p2)))
}

} // verus!
