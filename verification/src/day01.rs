//! Calorie counting: lines of numbers form groups separated by blank (or
//! unreadable) lines; report the largest group sum and the sum of the three
//! largest.

use vstd::prelude::*;
use vstd::string::StringSliceAdditionalSpecFns;

use crate::util::{
    dec_digits, digits_val, is_digits, lines_of, parse_u64, spec_lines, two_answers, u128_string,
    views,
};

verus! {

/// The line reads as one unsigned number.
pub open spec fn parses(l: Seq<u8>) -> bool {
    is_digits(l) && digits_val(l) <= u64::MAX
}

/// The group sums: numeric lines add to the running group, anything else
/// closes it.
pub open spec fn groups(lines: Seq<Seq<u8>>, acc: int) -> Seq<int>
    decreases lines.len(),
{
    if lines.len() == 0 {
        seq![acc]
    } else if parses(lines[0]) {
        groups(lines.drop_first(), acc + digits_val(lines[0]))
    } else {
        seq![acc] + groups(lines.drop_first(), 0)
    }
}

/// Keeps the three largest values seen, in order.
pub open spec fn ins3(x: int, t: (int, int, int)) -> (int, int, int) {
    if x >= t.0 {
        (x, t.0, t.1)
    } else if x >= t.1 {
        (t.0, x, t.1)
    } else if x >= t.2 {
        (t.0, t.1, x)
    } else {
        t
    }
}

/// Folds a sequence into its three largest values.
pub open spec fn top3(s: Seq<int>, t: (int, int, int)) -> (int, int, int)
    decreases s.len(),
{
    if s.len() == 0 {
        t
    } else {
        top3(s.drop_first(), ins3(s[0], t))
    }
}

proof fn lemma_top3_push(s: Seq<int>, t: (int, int, int), x: int)
    ensures
        top3(s.push(x), t) == ins3(x, top3(s, t)),
    decreases s.len(),
{
    if s.len() == 0 {
        assert(s.push(x)[0] == x);
        assert(s.push(x).drop_first() =~= Seq::<int>::empty());
        assert(top3(s.push(x), t) == top3(s.push(x).drop_first(), ins3(x, t)));
        assert(top3(s.push(x).drop_first(), ins3(x, t)) == ins3(x, t));
    } else {
        assert(s.push(x)[0] == s[0]);
        assert(s.push(x).drop_first() =~= s.drop_first().push(x));
        assert(top3(s.push(x), t) == top3(s.drop_first().push(x), ins3(s[0], t)));
        lemma_top3_push(s.drop_first(), ins3(s[0], t), x);
        assert(top3(s, t) == top3(s.drop_first(), ins3(s[0], t)));
    }
}

/// The group sums of the input, in order.
#[verifier::loop_isolation(false)]
#[verifier::rlimit(100)]
pub fn calories(input: &str) -> (r: Vec<u128>)
    requires
        input.spec_bytes().len() <= 0xffff_ffff,
    ensures
        r@.map_values(|x: u128| x as int) == groups(spec_lines(input.spec_bytes()), 0),
        r@.len() >= 1,
        forall|k: int|
            0 <= k < r@.len() ==> (#[trigger] r@[k]) as int <= 0x1_0000_0000 * (u64::MAX as int),
{
    let ls = lines_of(input);
    let ghost vl = views(ls@);
    let mut out: Vec<u128> = Vec::new();
    let mut acc: u128 = 0;
    let end = ls.len();
    proof {
        crate::util::lemma_spec_lines_count(input.spec_bytes());
        assert(vl.skip(0) =~= vl);
    }
    for i in 0..end
        invariant
            end == vl.len(),
            vl.len() <= 0x1_0000_0000,
            out@.map_values(|x: u128| x as int) + groups(vl.skip(i as int), acc as int) == groups(
                vl,
                0,
            ),
            acc <= (i as int) * (u64::MAX as int),
            out@.len() <= i,
            forall|k: int|
                0 <= k < out@.len() ==> (#[trigger] out@[k]) as int <= 0x1_0000_0000 * (
                u64::MAX as int),
    {
        let ghost rest = vl.skip(i as int);
        proof {
            assert(rest[0] == vl[i as int]);
            assert(rest.drop_first() =~= vl.skip(i as int + 1));
        }
        match parse_u64(ls[i].as_slice()) {
            Some(v) => {
                acc = acc + v as u128;
            },
            None => {
                let ghost oldmap = out@.map_values(|x: u128| x as int);
                out.push(acc);
                acc = 0;
                proof {
                    assert(out@.map_values(|x: u128| x as int) =~= oldmap + seq![out@.last() as int]);
                }
            },
        }
    }
    proof {
        assert(vl.skip(end as int) =~= Seq::<Seq<u8>>::empty());
    }
    let ghost oldmap = out@.map_values(|x: u128| x as int);
    out.push(acc);
    proof {
        assert(out@.map_values(|x: u128| x as int) =~= oldmap + seq![out@.last() as int]);
    }
    out
}

/// Largest group sum, and sum of the three largest, as "`p1` `p2`".
#[verifier::loop_isolation(false)]
pub fn run(input: &str) -> (r: Result<String, crate::InputError>)
    requires
        input.spec_bytes().len() <= 0xffff_ffff,
    ensures
        r is Ok,
        ({
            let t = top3(groups(spec_lines(input.spec_bytes()), 0), (0, 0, 0));
            r->Ok_0@ == dec_digits(t.0) + seq![' '] + dec_digits(t.0 + t.1 + t.2)
        }),
{
    let cals = calories(input);
    let ghost g = groups(spec_lines(input.spec_bytes()), 0);
    let mut a: u128 = 0;
    let mut b: u128 = 0;
    let mut c: u128 = 0;
    let end = cals.len();
    proof {
        assert(g.take(0) =~= Seq::<int>::empty());
    }
    for i in 0..end
        invariant
            end == cals@.len(),
            g == cals@.map_values(|x: u128| x as int),
            (a as int, b as int, c as int) == top3(g.take(i as int), (0, 0, 0)),
            c <= b <= a,
            a as int <= 0x1_0000_0000 * (u64::MAX as int),
            forall|k: int|
                0 <= k < end ==> (#[trigger] cals@[k]) as int <= 0x1_0000_0000 * (u64::MAX as int),
    {
        let x = cals[i];
        proof {
            lemma_top3_push(g.take(i as int), (0, 0, 0), g[i as int]);
            assert(g.take(i as int).push(g[i as int]) =~= g.take(i as int + 1));
        }
        if x >= a {
            c = b;
            b = a;
            a = x;
        } else if x >= b {
            c = b;
            b = x;
        } else if x >= c {
            c = x;
        }
    }
    proof {
        assert(g.take(end as int) =~= g);
    }
    let p2 = a + b + c;
    Ok(two_answers(u128_string(a), u128_string(p2)))
}

} // verus!
