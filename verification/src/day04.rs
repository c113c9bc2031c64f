//! Camp cleanup ranges: each line holds two numeric ranges; count the lines
//! where one range contains the other, and the lines where they overlap.

use vstd::prelude::*;
use vstd::string::StringSliceAdditionalSpecFns;

use crate::util::{
    dec_digits, lines_of, nums_within, parse_nums_within, spec_lines, spec_split, split_bytes,
    two_answers, u64_string, views,
};

verus! {

/// The first four numbers of a line split at `-` and `,`, where there are
/// at least four.
pub open spec fn range_pair(l: Seq<u8>) -> Seq<int> {
    nums_within(spec_split(l, 45u8, 44u8), u32::MAX as int)
}

/// One range of the pair contains the other.
pub open spec fn contained(a: int, b: int, c: int, d: int) -> bool {
    (a <= c && d <= b) || (c <= a && b <= d)
}

/// The two ranges of the pair share a point.
pub open spec fn overlaps(a: int, b: int, c: int, d: int) -> bool {
    (a <= c <= b) || (a <= d <= b) || (c <= a <= d) || (c <= b <= d)
}

/// Whether the line's range pair satisfies the part's condition.
pub open spec fn line_counts(l: Seq<u8>, part2: bool) -> bool {
    let ns = range_pair(l);
    ns.len() >= 4 && if part2 {
        overlaps(ns[0], ns[1], ns[2], ns[3])
    } else {
        contained(ns[0], ns[1], ns[2], ns[3])
    }
}

/// How many lines satisfy the part's condition.
pub open spec fn count_lines(lines: Seq<Seq<u8>>, part2: bool) -> int
    decreases lines.len(),
{
    if lines.len() == 0 {
        0
    } else {
        count_lines(lines.drop_last(), part2) + if line_counts(lines.last(), part2) {
            1int
        } else {
            0int
        }
    }
}

/// The first four numbers of the line, where it has at least four.
pub fn parse_rng_pair(l: &Vec<u8>) -> (r: Option<(u64, u64, u64, u64)>)
    ensures
        r is Some <==> range_pair(l@).len() >= 4,
        r is Some ==> {
            let ns = range_pair(l@);
            (r->0).0 == ns[0] && (r->0).1 == ns[1] && (r->0).2 == ns[2] && (r->0).3 == ns[3]
        },
{
    let parts = split_bytes(l.as_slice(), 45u8, 44u8);
    let ns = parse_nums_within(&parts, 0xffff_ffffu64);
    if ns.len() >= 4 {
        Some((ns[0], ns[1], ns[2], ns[3]))
    } else {
        None
    }
}

/// Counts the lines whose range pair satisfies the part's condition.
#[verifier::loop_isolation(false)]
pub fn count_rp(input: &str, part2: bool) -> (r: usize)
    ensures
        r == count_lines(spec_lines(input.spec_bytes()), part2),
{
    let ls = lines_of(input);
    let ghost vl = views(ls@);
    let mut count: usize = 0;
    let end = ls.len();
    proof {
        assert(vl.take(0) =~= Seq::<Seq<u8>>::empty());
    }
    for i in 0..end
        invariant
            end == vl.len(),
            count == count_lines(vl.take(i as int), part2),
            count <= i,
    {
        proof {
            assert(vl.take(i + 1).drop_last() =~= vl.take(i as int));
            assert(vl.take(i + 1).last() == vl[i as int]);
        }
        match parse_rng_pair(&ls[i]) {
            Some(quad) => {
            let (a, b, c, d) = quad;
            let hit = if part2 {
                (a <= c && c <= b) || (a <= d && d <= b) || (c <= a && a <= d) || (c <= b && b
                    <= d)
            } else {
                (a <= c && d <= b) || (c <= a && b <= d)
            };
            if hit {
                count = count + 1;
            }
            },
            None => {},
        }
    }
    proof {
        assert(vl.take(end as int) =~= vl);
    }
    count
}

/// Containment and overlap counts as "`p1` `p2`".
pub fn run(input: &str) -> (r: Result<String, crate::InputError>)
    ensures
        r is Ok,
        r->Ok_0@ == dec_digits(count_lines(spec_lines(input.spec_bytes()), false)) + seq![' ']
            + dec_digits(count_lines(spec_lines(input.spec_bytes()), true)),
{
    let p1 = count_rp(input, false);
    let p2 = count_rp(input, true);
    Ok(two_answers(u64_string(p1 as u64), u64_string(p2 as u64)))
}

} // verus!
