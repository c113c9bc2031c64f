//! Rucksack priorities: items are letters with priorities 1..52. Part one
//! sums, per line, the distinct priorities found in both halves; part two
//! sums, per group of three lines, the priorities common to the whole group.

use vstd::prelude::*;
use vstd::string::StringSliceAdditionalSpecFns;

use crate::util::{dec_digits, lines_of, spec_lines, two_answers, u64_string, views};

verus! {

/// The item byte carrying priority `v` (1..52).
pub open spec fn letter(v: int) -> u8 {
    if v <= 26 {
        (96 + v) as u8
    } else {
        (38 + v) as u8
    }
}

/// The byte occurs in `l` within `[lo, hi)`.
pub open spec fn occurs(l: Seq<u8>, lo: int, hi: int, b: u8) -> bool {
    exists|k: int| lo <= k < hi && k < l.len() && l[k] == b
}

/// Sum of the priorities `1..=v` whose item appears in both halves of the
/// line.
pub open spec fn half_common_sum(l: Seq<u8>, v: int) -> int
    decreases v,
{
    if v <= 0 {
        0
    } else {
        half_common_sum(l, v - 1) + if occurs(l, 0, l.len() as int / 2, letter(v)) && occurs(
            l,
            l.len() as int / 2,
            l.len() as int,
            letter(v),
        ) {
            v
        } else {
            0
        }
    }
}

/// Part-one sum over all lines.
pub open spec fn p1_sum(lines: Seq<Seq<u8>>) -> int
    decreases lines.len(),
{
    if lines.len() == 0 {
        0
    } else {
        p1_sum(lines.drop_last()) + half_common_sum(lines.last(), 52)
    }
}

/// The priority's item appears in every line of the chunk.
pub open spec fn chunk_has(lines: Seq<Seq<u8>>, i: int, c: int, v: int) -> bool {
    forall|j: int|
        i <= j < i + c ==> occurs(#[trigger] lines[j], 0, lines[j].len() as int, letter(v))
}

/// Sum of the priorities `1..=v` common to the chunk of `c` lines at `i`.
pub open spec fn chunk_sum(lines: Seq<Seq<u8>>, i: int, c: int, v: int) -> int
    decreases v,
{
    if v <= 0 {
        0
    } else {
        chunk_sum(lines, i, c, v - 1) + if chunk_has(lines, i, c, v) {
            v
        } else {
            0
        }
    }
}

/// Part-two sum over the chunks of three lines starting at `i` (a trailing
/// chunk may be shorter).
pub open spec fn p2_sum(lines: Seq<Seq<u8>>, i: int) -> int
    decreases lines.len() - i,
{
    if i < 0 || i >= lines.len() {
        0
    } else if i + 3 <= lines.len() {
        chunk_sum(lines, i, 3, 52) + p2_sum(lines, i + 3)
    } else {
        chunk_sum(lines, i, lines.len() - i, 52)
    }
}

/// Whether `b` occurs in `l` within `[lo, hi)`.
#[verifier::loop_isolation(false)]
fn scan_occurs(l: &Vec<u8>, lo: usize, hi: usize, b: u8) -> (r: bool)
    requires
        hi <= l@.len(),
    ensures
        r == occurs(l@, lo as int, hi as int, b),
{
    let mut k = lo;
    while k < hi
        invariant
            lo <= k,
            hi <= l@.len(),
            forall|kk: int| lo <= kk < k ==> l@[kk] != b,
        decreases hi - k,
    {
        if l[k] == b {
            return true;
        }
        k = k + 1;
    }
    false
}

/// Sum of the distinct priorities found in both halves of the line.
#[verifier::loop_isolation(false)]
pub fn in_both_halves(l: &Vec<u8>) -> (r: u64)
    ensures
        r == half_common_sum(l@, 52),
        r <= 2756,
{
    let half = l.len() / 2;
    let len = l.len();
    let mut sum: u64 = 0;
    let mut v: u64 = 1;
    while v <= 52
        invariant
            1 <= v <= 53,
            half == l@.len() / 2,
            len == l@.len(),
            sum == half_common_sum(l@, v - 1),
            sum <= (v - 1) * 53,
        decreases 53 - v,
    {
        let b: u8 = if v <= 26 {
            (96 + v) as u8
        } else {
            (38 + v) as u8
        };
        if scan_occurs(l, 0, half, b) && scan_occurs(l, half, len, b) {
            sum = sum + v;
        }
        v = v + 1;
    }
    sum
}

/// Part one: per-line sum of priorities shared by the two halves.
#[verifier::loop_isolation(false)]
pub fn p1(input: &str) -> (r: u64)
    requires
        input.spec_bytes().len() <= 0xffff_ffff,
    ensures
        r == p1_sum(spec_lines(input.spec_bytes())),
{
    let ls = lines_of(input);
    let ghost vl = views(ls@);
    let mut sum: u64 = 0;
    let end = ls.len();
    proof {
        crate::util::lemma_spec_lines_count(input.spec_bytes());
        assert(vl.take(0) =~= Seq::<Seq<u8>>::empty());
    }
    for i in 0..end
        invariant
            end == vl.len(),
            vl.len() <= 0x1_0000_0000,
            sum == p1_sum(vl.take(i as int)),
            sum <= (i as int) * 2756,
    {
        proof {
            assert(vl.take(i + 1).drop_last() =~= vl.take(i as int));
            assert(vl.take(i + 1).last() == vl[i as int]);
        }
        sum = sum + in_both_halves(&ls[i]);
    }
    proof {
        assert(vl.take(end as int) =~= vl);
    }
    sum
}

/// Sum of the priorities common to every line of the chunk `[i, i + c)`.
#[verifier::loop_isolation(false)]
fn chunk_common(ls: &Vec<Vec<u8>>, i: usize, c: usize) -> (r: u64)
    requires
        i + c <= ls@.len(),
    ensures
        r == chunk_sum(views(ls@), i as int, c as int, 52),
        r <= 2756,
{
    let total = ls.len();
    let mut sum: u64 = 0;
    let mut v: u64 = 1;
    while v <= 52
        invariant
            1 <= v <= 53,
            i + c <= ls@.len(),
            sum == chunk_sum(views(ls@), i as int, c as int, v - 1),
            sum <= (v - 1) * 53,
        decreases 53 - v,
    {
        let b: u8 = if v <= 26 {
            (96 + v) as u8
        } else {
            (38 + v) as u8
        };
        let mut all = true;
        let mut j = i;
        while j < i + c
            invariant
                i <= j <= i + c <= ls@.len(),
                all <==> forall|jj: int|
                    i <= jj < j ==> occurs(
                        #[trigger] views(ls@)[jj],
                        0,
                        views(ls@)[jj].len() as int,
                        b,
                    ),
            decreases i + c - j,
        {
            proof {
                assert(views(ls@)[j as int] == ls@[j as int]@);
            }
            let line = &ls[j];
            let line_len = line.len();
            if !scan_occurs(line, 0, line_len, b) {
                all = false;
                proof {
                    assert(!occurs(views(ls@)[j as int], 0, views(ls@)[j as int].len() as int, b));
                }
            }
            j = j + 1;
        }
        if all {
            sum = sum + v;
        }
        v = v + 1;
    }
    sum
}

/// Part two: per-chunk sum of priorities common to all three rucksacks.
#[verifier::loop_isolation(false)]
pub fn p2(input: &str) -> (r: u64)
    requires
        input.spec_bytes().len() <= 0xffff_ffff,
    ensures
        r == p2_sum(spec_lines(input.spec_bytes()), 0),
{
    let ls = lines_of(input);
    let ghost vl = views(ls@);
    let mut sum: u64 = 0;
    let end = ls.len();
    let mut i: usize = 0;
    proof {
        crate::util::lemma_spec_lines_count(input.spec_bytes());
    }
    while i < end
        invariant
            0 <= i <= end,
            end == vl.len(),
            vl.len() <= 0x1_0000_0000,
            sum + p2_sum(vl, i as int) == p2_sum(vl, 0),
            sum <= (i as int) * 2756 + 2756,
        decreases end - i,
    {
        if end - i >= 3 {
            sum = sum + chunk_common(&ls, i, 3);
            i = i + 3;
        } else {
            sum = sum + chunk_common(&ls, i, end - i);
            i = end;
        }
    }
    sum
}

/// Both rucksack sums as "`p1` `p2`".
pub fn run(input: &str) -> (r: Result<String, crate::InputError>)
    requires
        input.spec_bytes().len() <= 0xffff_ffff,
    ensures
        r is Ok,
        r->Ok_0@ == dec_digits(p1_sum(spec_lines(input.spec_bytes()))) + seq![' '] + dec_digits(
            p2_sum(spec_lines(input.spec_bytes()), 0),
        ),
{
    let a = p1(input);
    let b = p2(input);
    Ok(two_answers(u64_string(a), u64_string(b)))
}

} // verus!
