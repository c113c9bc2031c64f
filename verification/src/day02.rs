//! Rock-paper-scissors tournament scoring. Each line names the opponent's
//! play (`A`..`C`) and a second letter (`X`..`Z`): first read as the own
//! play, then as the desired outcome. Lines of any other shape score 0.

use vstd::prelude::*;
use vstd::string::StringSliceAdditionalSpecFns;

use crate::util::{dec_digits, lines_of, spec_lines, two_answers, u64_string, views};

verus! {

/// Score of one round: the play's worth plus 6 for a win or 3 for a draw.
pub open spec fn round_score(o: int, p: int) -> int {
    p + 1 + if p == o {
        3int
    } else if (o + 1) % 3 == p {
        6int
    } else {
        0int
    }
}

/// Score of one line, reading the second letter as the own play.
pub open spec fn line_score1(l: Seq<u8>) -> int {
    if l.len() >= 3 && 65 <= l[0] <= 67 && 88 <= l[2] <= 90 {
        round_score(l[0] - 65, l[2] - 88)
    } else {
        0
    }
}

/// Score of one line, reading the second letter as the desired outcome.
pub open spec fn line_score2(l: Seq<u8>) -> int {
    if l.len() >= 3 && 65 <= l[0] <= 67 && 88 <= l[2] <= 90 {
        round_score(l[0] - 65, ((l[0] - 65) + (l[2] - 88) + 2) % 3)
    } else {
        0
    }
}

/// Total score over all lines.
pub open spec fn total_score(lines: Seq<Seq<u8>>, part2: bool) -> int
    decreases lines.len(),
{
    if lines.len() == 0 {
        0
    } else {
        total_score(lines.drop_last(), part2) + if part2 {
            line_score2(lines.last())
        } else {
            line_score1(lines.last())
        }
    }
}

/// Score of one well-formed round, by play values 0..2.
fn play_score(o: u8, p: u8) -> (r: u64)
    requires
        o < 3,
        p < 3,
    ensures
        r == round_score(o as int, p as int),
{
    let base = (p + 1) as u64;
    if p == o {
        base + 3
    } else if (o + 1) % 3 == p {
        base + 6
    } else {
        base
    }
}

/// Runs the tournament over every line.
#[verifier::loop_isolation(false)]
pub fn sim(input: &str, part2: bool) -> (r: u64)
    requires
        input.spec_bytes().len() <= 0xffff_ffff,
    ensures
        r == total_score(spec_lines(input.spec_bytes()), part2),
{
    let ls = lines_of(input);
    let ghost vl = views(ls@);
    let mut total: u64 = 0;
    let end = ls.len();
    proof {
        crate::util::lemma_spec_lines_count(input.spec_bytes());
        assert(vl.take(0) =~= Seq::<Seq<u8>>::empty());
    }
    for i in 0..end
        invariant
            end == vl.len(),
            vl.len() <= 0x1_0000_0000,
            total == total_score(vl.take(i as int), part2),
            total <= (i as int) * 10,
    {
        proof {
            assert(vl.take(i + 1).drop_last() =~= vl.take(i as int));
            assert(vl.take(i + 1).last() == vl[i as int]);
        }
        let line = &ls[i];
        if line.len() >= 3 {
            let o = line[0];
            let p = line[2];
            if 65 <= o && o <= 67 && 88 <= p && p <= 90 {
                let add = if part2 {
                    let z = p - 88;
                    play_score(o - 65, ((o - 65) + z + 2) % 3)
                } else {
                    play_score(o - 65, p - 88)
                };
                total = total + add;
            }
        }
    }
    proof {
        assert(vl.take(end as int) =~= vl);
    }
    total
}

/// Both scorings of the whole input as "`p1` `p2`".
pub fn run(input: &str) -> (r: Result<String, crate::InputError>)
    requires
        input.spec_bytes().len() <= 0xffff_ffff,
    ensures
        r is Ok,
        r->Ok_0@ == dec_digits(total_score(spec_lines(input.spec_bytes()), false)) + seq![' ']
            + dec_digits(total_score(spec_lines(input.spec_bytes()), true)),
{
    let p1 = sim(input, false);
    let p2 = sim(input, true);
    Ok(two_answers(u64_string(p1), u64_string(p2)))
}

} // verus!
