//! Falling sand: rock segments fill a grid, sand drops from (500, 0) and
//! settles; count the units that come to rest before sand falls past the
//! lowest rock. Each settled unit occupies a free cell, which bounds the
//! whole process.

use vstd::prelude::*;
use vstd::string::StringSliceAdditionalSpecFns;

use crate::util::{first_sep, is_signed, lines_of, signed_val, split_bytes, two_answers, u64_string};

verus! {

/// The cave grid: columns `xmin ..= xmin + w - 1`, rows `0 ..= h - 1`,
/// row-major cells (`.` air, `#` rock, `o` sand).
pub struct Cave {
    xmin: i64,
    w: usize,
    h: usize,
    v: Vec<u8>,
}

/// How many cells hold air.
pub open spec fn count_air(s: Seq<u8>) -> int
    decreases s.len(),
{
    if s.len() == 0 {
        0
    } else {
        count_air(s.drop_last()) + if s.last() == 46u8 {
            1int
        } else {
            0int
        }
    }
}

proof fn lemma_count_air_update(s: Seq<u8>, i: int, v: u8)
    requires
        0 <= i < s.len(),
        s[i] == 46u8,
        v != 46u8,
    ensures
        count_air(s.update(i, v)) == count_air(s) - 1,
    decreases s.len(),
{
    let t = s.update(i, v);
    if i == s.len() - 1 {
        assert(t.drop_last() =~= s.drop_last());
    } else {
        assert(t.drop_last() =~= s.drop_last().update(i, v));
        lemma_count_air_update(s.drop_last(), i, v);
        assert(t.last() == s.last());
    }
}

proof fn lemma_count_air_nonneg(s: Seq<u8>)
    ensures
        0 <= count_air(s) <= s.len(),
    decreases s.len(),
{
    if s.len() > 0 {
        lemma_count_air_nonneg(s.drop_last());
    }
}

impl Cave {
    /// Geometry is consistent and fits comfortable bounds.
    pub open spec fn wf(self) -> bool {
        &&& 1 <= self.spec_w() <= 0x8000
        &&& 1 <= self.spec_h() <= 0x8000
        &&& self.cells().len() == self.spec_w() * self.spec_h()
        &&& -0x8000_0000 <= self.spec_xmin() <= 0x8000_0000
    }

    /// Grid width.
    pub closed spec fn spec_w(self) -> int {
        self.w as int
    }

    /// Grid height.
    pub closed spec fn spec_h(self) -> int {
        self.h as int
    }

    /// Leftmost column.
    pub closed spec fn spec_xmin(self) -> int {
        self.xmin as int
    }

    /// The cells, row-major.
    pub closed spec fn cells(self) -> Seq<u8> {
        self.v@
    }

    /// The cell index of a point, where it lies in the grid.
    fn pos(&self, x: i64, y: i64) -> (r: Option<usize>)
        requires
            self.wf(),
            -0x4000_0000_0000 <= x <= 0x4000_0000_0000,
            -0x4000_0000_0000 <= y <= 0x4000_0000_0000,
        ensures
            r is Some ==> r->0 < self.cells().len(),
            (r is Some <==> self.pos_spec(x as int, y as int) is Some),
            r is Some ==> r->0 == self.pos_spec(x as int, y as int)->0,
    {
        if self.xmin <= x && x < self.xmin + self.w as i64 && 0 <= y && y < self.h as i64 {
            let col = (x - self.xmin) as usize;
            let row = y as usize;
            proof {
                vstd::arithmetic::mul::lemma_mul_inequality(
                    row as int,
                    self.spec_h() - 1,
                    self.spec_w(),
                );
                vstd::arithmetic::mul::lemma_mul_upper_bound(
                    row as int,
                    0x8000,
                    self.spec_w(),
                    0x8000,
                );
                assert((self.spec_h() - 1) * self.spec_w() + self.spec_w() == self.spec_h()
                    * self.spec_w()) by (nonlinear_arith);
                assert(self.spec_w() * self.spec_h() == self.spec_h() * self.spec_w())
                    by (nonlinear_arith);
            }
            Some(col + row * self.w)
        } else {
            None
        }
    }

    /// The cell at a point; anything outside the grid reads as air.
    fn at(&self, x: i64, y: i64) -> (r: u8)
        requires
            self.wf(),
            -0x4000_0000_0000 <= x <= 0x4000_0000_0000,
            -0x4000_0000_0000 <= y <= 0x4000_0000_0000,
        ensures
            r == self.at_spec(x as int, y as int),
    {
        match self.pos(x, y) {
            Some(i) => self.v[i],
            None => 46u8,
        }
    }

    /// Drops one unit of sand from (500, 0). Returns whether it came to
    /// rest inside the grid, in which case one air cell turns to sand.
    pub fn drop_sand(&mut self) -> (r: bool)
        requires
            old(self).wf(),
        ensures
            final(self).wf(),
            final(self).cells().len() == old(self).cells().len(),
            r ==> count_air(final(self).cells()) == count_air(old(self).cells()) - 1,
            !r ==> *final(self) == *old(self),
    {
        let mut x: i64 = 500;
        let mut y: i64 = 0;
        if self.at(x, y) != 46u8 {
            return false;
        }
        let ghost entry = *self;
        let ymax = self.h as i64 - 1;
        loop
            invariant
                self.wf(),
                *self == entry,
                entry == *old(self),
                0 <= y <= ymax + 1,
                ymax == self.spec_h() - 1,
                500 - (y + 1) <= x <= 500 + (y + 1),
                self.at_spec(x as int, y as int) == 46u8,
            decreases ymax + 2 - y,
        {
            if y > ymax {
                return false;
            }
            if self.at(x, y + 1) == 46u8 {
                y = y + 1;
            } else if self.at(x - 1, y + 1) == 46u8 {
                x = x - 1;
                y = y + 1;
            } else if self.at(x + 1, y + 1) == 46u8 {
                x = x + 1;
                y = y + 1;
            } else {
                // the cell below is solid, so this resting point lies in
                // the grid
                proof {
                    assert(self.at_spec(x as int, y as int + 1) != 46u8);
                    assert(self.pos_spec(x as int, y as int + 1) is Some);
                    assert(self.pos_spec(x as int, y as int) is Some);
                }
                match self.pos(x, y) {
                    Some(i) => {
                        proof {
                            assert(self.cells()[i as int] == 46u8);
                            lemma_count_air_update(self.cells(), i as int, 111u8);
                        }
                        self.v[i] = 111u8;
                        return true;
                    },
                    None => {
                        proof {
                            assert(false);
                        }
                        return false;
                    },
                }
            }
        }
    }

    /// Ghost view of `pos`.
    pub open spec fn pos_spec(self, x: int, y: int) -> Option<int> {
        if self.spec_xmin() <= x < self.spec_xmin() + self.spec_w() && 0 <= y < self.spec_h() {
            Some((x - self.spec_xmin()) + y * self.spec_w())
        } else {
            None
        }
    }

    /// Ghost view of `at`.
    pub open spec fn at_spec(self, x: int, y: int) -> u8 {
        match self.pos_spec(x, y) {
            Some(i) => self.cells()[i],
            None => 46u8,
        }
    }
}

/// One coordinate pair `x,y` read from a token, both within `i32`.
pub open spec fn point_of(part: Seq<u8>) -> Option<(int, int)> {
    let c = first_sep(part, 44u8, 44u8);
    if c < 0 {
        None
    } else {
        let xs = part.take(c);
        let ys = part.skip(c + 1);
        if is_signed(xs) && is_signed(ys) && -0x8000_0000 <= signed_val(xs) <= 0x7fff_ffff
            && -0x8000_0000 <= signed_val(ys) <= 0x7fff_ffff {
            Some((signed_val(xs), signed_val(ys)))
        } else {
            None
        }
    }
}

/// Reads one `x,y` token.
fn parse_point(part: &Vec<u8>) -> (r: Option<(i64, i64)>)
    ensures
        r is Some <==> point_of(part@) is Some,
        r is Some ==> ((r->0).0 as int, (r->0).1 as int) == point_of(part@)->0,
{
    proof {
        crate::util::lemma_first_sep_range(part@, 44u8, 44u8);
        crate::util::lemma_first_sep_hit(part@, 44u8, 44u8);
    }
    let plen = part.len();
    let mut c: usize = 0;
    while c < plen && part[c] != 44u8
        invariant
            0 <= c <= plen,
            plen == part@.len(),
            forall|k: int| 0 <= k < c ==> part@[k] != 44u8,
        decreases plen - c,
    {
        c = c + 1;
    }
    if c == plen {
        proof {
            crate::util::lemma_first_sep_from_scan(part@, 44u8, 44u8, c as int);
        }
        return None;
    }
    proof {
        crate::util::lemma_first_sep_from_scan(part@, 44u8, 44u8, c as int);
    }
    let xs = vstd::slice::slice_subrange(part.as_slice(), 0, c);
    let ys = vstd::slice::slice_subrange(part.as_slice(), c + 1, plen);
    proof {
        assert(xs@ =~= part@.take(c as int));
        assert(ys@ =~= part@.skip(c as int + 1));
    }
    let x = match crate::util::parse_i64(xs) {
        Some(v) => v,
        None => {
            return None;
        },
    };
    let y = match crate::util::parse_i64(ys) {
        Some(v) => v,
        None => {
            return None;
        },
    };
    if -0x8000_0000i64 <= x && x <= 0x7fff_ffffi64 && -0x8000_0000i64 <= y && y
        <= 0x7fff_ffffi64 {
        Some((x, y))
    } else {
        None
    }
}


/// The point lies within the recorded bounding box.
pub open spec fn pt_ok(p: (i64, i64), xlo: i64, xhi: i64, yhi: i64) -> bool {
    &&& xlo <= p.0 <= xhi
    &&& 0 <= p.1 <= yhi
}

/// Every point of the line lies within the bounding box.
pub open spec fn line_ok(l: Seq<(i64, i64)>, xlo: i64, xhi: i64, yhi: i64) -> bool {
    forall|b: int| 0 <= b < l.len() ==> pt_ok(#[trigger] l[b], xlo, xhi, yhi)
}

proof fn lemma_line_ok_widen(
    l: Seq<(i64, i64)>,
    xlo: i64,
    xhi: i64,
    yhi: i64,
    xlo2: i64,
    xhi2: i64,
    yhi2: i64,
)
    requires
        line_ok(l, xlo, xhi, yhi),
        xlo2 <= xlo,
        xhi <= xhi2,
        yhi <= yhi2,
    ensures
        line_ok(l, xlo2, xhi2, yhi2),
{
    assert forall|b: int| 0 <= b < l.len() implies pt_ok(#[trigger] l[b], xlo2, xhi2, yhi2) by {
        assert(pt_ok(l[b], xlo, xhi, yhi));
    }
}

impl Cave {
    /// Reads the rock segments and rasterizes them. `None` when no point
    /// parses, a coordinate is negative in `y`, a segment is diagonal, or
    /// the bounding box exceeds the supported size.
    #[verifier::loop_isolation(false)]
    #[verifier::rlimit(100)]
    pub fn parse(input: &str) -> (r: Option<Cave>)
        ensures
            r is Some ==> r->0.wf(),
    {
        let ls = lines_of(input);
        // gather every segment point, line by line
        let mut pts: Vec<Vec<(i64, i64)>> = Vec::new();
        let mut xlo: i64 = 0;
        let mut xhi: i64 = 0;
        let mut yhi: i64 = 0;
        let mut any = false;
        let end = ls.len();
        for li in 0..end
            invariant
                forall|a: int|
                    0 <= a < pts@.len() ==> line_ok((#[trigger] pts@[a])@, xlo, xhi, yhi),
                !any ==> pts@.len() == 0,
                any ==> xlo <= xhi && 0 <= yhi <= 0x8000_0000 && -0x8000_0000 <= xlo && xhi
                    <= 0x8000_0000,
        {
            let parts = split_bytes(ls[li].as_slice(), 32u8, 32u8);
            let mut line_pts: Vec<(i64, i64)> = Vec::new();
            let plen = parts.len();
            for pi in 0..plen
                invariant
                    forall|a: int|
                        0 <= a < pts@.len() ==> line_ok((#[trigger] pts@[a])@, xlo, xhi, yhi),
                    line_ok(line_pts@, xlo, xhi, yhi),
                    !any ==> pts@.len() == 0 && line_pts@.len() == 0,
                    any ==> xlo <= xhi && 0 <= yhi <= 0x8000_0000 && -0x8000_0000 <= xlo && xhi
                        <= 0x8000_0000,
            {
                match parse_point(&parts[pi]) {
                    Some((x, y)) => {
                        if y < 0 {
                            return None;
                        }
                        let ghost oxlo = xlo;
                        let ghost oxhi = xhi;
                        let ghost oyhi = yhi;
                        if !any {
                            any = true;
                            xlo = x;
                            xhi = x;
                            yhi = y;
                            proof {
                                assert(line_ok(line_pts@, xlo, xhi, yhi));
                            }
                        } else {
                            if x < xlo {
                                xlo = x;
                            }
                            if x > xhi {
                                xhi = x;
                            }
                            if y > yhi {
                                yhi = y;
                            }
                            proof {
                                lemma_line_ok_widen(line_pts@, oxlo, oxhi, oyhi, xlo, xhi, yhi);
                                assert forall|a: int| 0 <= a < pts@.len() implies line_ok(
                                    (#[trigger] pts@[a])@,
                                    xlo,
                                    xhi,
                                    yhi,
                                ) by {
                                    lemma_line_ok_widen(pts@[a]@, oxlo, oxhi, oyhi, xlo, xhi, yhi);
                                }
                            }
                        }
                        let ghost olp = line_pts@;
                        line_pts.push((x, y));
                        proof {
                            assert forall|b: int| 0 <= b < line_pts@.len() implies pt_ok(
                                #[trigger] line_pts@[b],
                                xlo,
                                xhi,
                                yhi,
                            ) by {
                                if b < olp.len() {
                                    assert(line_pts@[b] == olp[b]);
                                    assert(pt_ok(olp[b], xlo, xhi, yhi));
                                } else {
                                    assert(line_pts@[b] == (x, y));
                                }
                            }
                        }
                    },
                    None => {},
                }
            }
            let ghost lpv = line_pts@;
            let ghost opts = pts@;
            pts.push(line_pts);
            proof {
                assert forall|a: int| 0 <= a < pts@.len() implies line_ok(
                    (#[trigger] pts@[a])@,
                    xlo,
                    xhi,
                    yhi,
                ) by {
                    if a < opts.len() {
                        assert(pts@[a] == opts[a]);
                        assert(line_ok(opts[a]@, xlo, xhi, yhi));
                    } else {
                        assert(pts@[a]@ == lpv);
                        assert(line_ok(lpv, xlo, xhi, yhi));
                    }
                }
            }
            if !any {
                let popped = pts.pop();
                proof {
                    assert(pts@ =~= opts);
                }
            }
        }
        if !any {
            return None;
        }
        let w64 = xhi - xlo + 1;
        let h64 = yhi + 1;
        if w64 > 0x8000 || h64 > 0x8000 {
            return None;
        }
        proof {
            assert(1 <= w64 <= 0x8000);
            assert(1 <= h64 <= 0x8000);
        }
        let w = w64 as usize;
        let h = h64 as usize;
        proof {
            assert(w as int * h as int <= 0x4000_0000) by (nonlinear_arith)
                requires
                    1 <= w <= 0x8000 && 1 <= h <= 0x8000,
            ;
        }
        let mut v: Vec<u8> = Vec::new();
        let total = w * h;
        for z in 0..total
            invariant
                v@.len() == z,
        {
            v.push(46u8);
        }
        let mut cave = Cave { xmin: xlo, w, h, v };
        proof {
            vstd::arithmetic::mul::lemma_mul_strictly_positive(w as int, h as int);
        }
        // rasterize each line's consecutive pairs
        let plen = pts.len();
        for a in 0..plen
            invariant
                plen == pts@.len(),
                cave.wf(),
                cave.spec_w() == w && cave.spec_h() == h && cave.spec_xmin() == xlo,
                forall|a2: int|
                    0 <= a2 < pts@.len() ==> line_ok((#[trigger] pts@[a2])@, xlo, xhi, yhi),
                xlo <= xhi && 0 <= yhi <= 0x8000_0000 && -0x8000_0000 <= xlo && xhi <= 0x8000_0000,
        {
            let lp = &pts[a];
            let np = lp.len();
            if np >= 1 {
                let mut b: usize = 1;
                while b < np
                    invariant
                        1 <= b,
                        np == lp@.len(),
                        lp@ == pts@[a as int]@,
                        line_ok(lp@, xlo, xhi, yhi),
                        cave.wf(),
                        cave.spec_w() == w && cave.spec_h() == h && cave.spec_xmin() == xlo,
                        xlo <= xhi && 0 <= yhi <= 0x8000_0000 && -0x8000_0000 <= xlo && xhi
                            <= 0x8000_0000,
                    decreases np - b,
                {
                    let (x0, y0) = lp[b - 1];
                    let (x1, y1) = lp[b];
                    proof {
                        assert(pt_ok(lp@[b - 1], xlo, xhi, yhi));
                        assert(pt_ok(lp@[b as int], xlo, xhi, yhi));
                    }
                    if x0 != x1 && y0 != y1 {
                        return None;
                    }
                    if !cave.fill_segment(x0, y0, x1, y1) {
                        return None;
                    }
                    b = b + 1;
                }
            }
        }
        Some(cave)
    }

    /// Marks an axis-aligned segment as rock. Returns false when an end
    /// lies outside the grid.
    fn fill_segment(&mut self, x0: i64, y0: i64, x1: i64, y1: i64) -> (r: bool)
        requires
            old(self).wf(),
            x0 == x1 || y0 == y1,
            -0x8000_0000 <= x0 <= 0x8000_0000,
            -0x8000_0000 <= x1 <= 0x8000_0000,
            0 <= y0 <= 0x8000_0000,
            0 <= y1 <= 0x8000_0000,
        ensures
            final(self).wf(),
            final(self).spec_w() == old(self).spec_w(),
            final(self).spec_h() == old(self).spec_h(),
            final(self).spec_xmin() == old(self).spec_xmin(),
    {
        if x0 == x1 {
            let lo = if y0 < y1 {
                y0
            } else {
                y1
            };
            let hi = if y0 < y1 {
                y1
            } else {
                y0
            };
            let mut y = lo;
            while y <= hi
                invariant
                    lo <= y <= hi + 1,
                    0 <= lo && hi <= 0x8000_0000,
                    -0x8000_0000 <= x0 <= 0x8000_0000,
                    self.wf(),
                    self.spec_w() == old(self).spec_w(),
                    self.spec_h() == old(self).spec_h(),
                    self.spec_xmin() == old(self).spec_xmin(),
                decreases hi + 1 - y,
            {
                match self.pos(x0, y) {
                    Some(i) => {
                        self.v[i] = 35u8;
                    },
                    None => {
                        return false;
                    },
                }
                y = y + 1;
            }
            true
        } else {
            let lo = if x0 < x1 {
                x0
            } else {
                x1
            };
            let hi = if x0 < x1 {
                x1
            } else {
                x0
            };
            let mut x = lo;
            while x <= hi
                invariant
                    lo <= x <= hi + 1,
                    -0x8000_0000 <= lo && hi <= 0x8000_0000,
                    0 <= y0 <= 0x8000_0000,
                    self.wf(),
                    self.spec_w() == old(self).spec_w(),
                    self.spec_h() == old(self).spec_h(),
                    self.spec_xmin() == old(self).spec_xmin(),
                decreases hi + 1 - x,
            {
                match self.pos(x, y0) {
                    Some(i) => {
                        self.v[i] = 35u8;
                    },
                    None => {
                        return false;
                    },
                }
                x = x + 1;
            }
            true
        }
    }
}

/// Drops sand until a unit falls past the grid or the source clogs; each
/// settled unit turns one air cell to sand, which bounds the count by the
/// air in the grid.
pub fn count_drops(m: Cave) -> (r: u64)
    requires
        m.wf(),
    ensures
        r <= m.cells().len(),
{
    let mut cave = m;
    let mut n: u64 = 0;
    proof {
        lemma_count_air_nonneg(cave.cells());
        vstd::std_specs::vec::axiom_spec_len(&cave.v);
    }
    while cave.drop_sand()
        invariant
            cave.wf(),
            cave.cells().len() == m.cells().len(),
            m.cells().len() <= usize::MAX,
            0 <= count_air(cave.cells()) <= m.cells().len(),
            n + count_air(cave.cells()) <= m.cells().len(),
        decreases count_air(cave.cells()),
    {
        proof {
            lemma_count_air_nonneg(cave.cells());
        }
        n = n + 1;
    }
    n
}

/// Settled sand count and an empty second part, as "`p1` ".
pub fn run(input: &str) -> (r: Result<String, crate::InputError>)
    ensures
        r is Ok ==> r->Ok_0@.contains(' '),
{
    match Cave::parse(input) {
        Some(cave) => {
            let p1 = count_drops(cave);
            let a = u64_string(p1);
            let ghost alen = a@.len();
            let empty = String::new();
            let s = two_answers(a, empty);
            proof {
                assert(s@[alen as int] == ' ');
            }
            Ok(s)
        },
        None => Err(crate::InputError::BadInput),
    }
}

} // verus!
