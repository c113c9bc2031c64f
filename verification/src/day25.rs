//! Balanced base-5 ("snafu") arithmetic: sum the snafu numbers given one
//! per line and render the sum back as snafu text.

use vstd::prelude::*;
use vstd::string::StringSliceAdditionalSpecFns;

use crate::util::{lines_of, spec_lines, two_answers, views};

verus! {

/// The value of one snafu digit character, if it is one.
pub open spec fn snafu_digit(c: u8) -> Option<int> {
    if c == 50u8 {
        Some(2int)
    } else if c == 49u8 {
        Some(1int)
    } else if c == 48u8 {
        Some(0int)
    } else if c == 45u8 {
        Some(-1int)
    } else if c == 61u8 {
        Some(-2int)
    } else {
        None
    }
}

/// The value of a snafu line: a base-5 fold over its digit characters,
/// passing over any other character.
pub open spec fn snafu_val(l: Seq<u8>) -> int
    decreases l.len(),
{
    if l.len() == 0 {
        0
    } else if snafu_digit(l.last()) is Some {
        snafu_val(l.drop_last()) * 5 + snafu_digit(l.last())->0
    } else {
        snafu_val(l.drop_last())
    }
}

/// The sum of the snafu values of all lines.
pub open spec fn snafu_sum(lines: Seq<Seq<u8>>) -> int
    decreases lines.len(),
{
    if lines.len() == 0 {
        0
    } else {
        snafu_sum(lines.drop_last()) + snafu_val(lines.last())
    }
}

/// The snafu digit characters of a positive number, empty for zero and
/// below (mirroring a fold that never starts).
pub open spec fn snafu_text(n: int) -> Seq<char>
    decreases n,
{
    if n <= 0 {
        Seq::empty()
    } else {
        let m = n % 5;
        if m == 3 {
            snafu_text(n / 5 + 1).push('=')
        } else if m == 4 {
            snafu_text(n / 5 + 1).push('-')
        } else if m == 0 {
            snafu_text(n / 5).push('0')
        } else if m == 1 {
            snafu_text(n / 5).push('1')
        } else {
            snafu_text(n / 5).push('2')
        }
    }
}

/// The value of one snafu digit byte.
pub fn from_snafu_char(c: u8) -> (r: Option<i64>)
    ensures
        r is Some <==> snafu_digit(c) is Some,
        r is Some ==> r->0 as int == snafu_digit(c)->0,
{
    match c {
        50u8 => Some(2),
        49u8 => Some(1),
        48u8 => Some(0),
        45u8 => Some(-1),
        61u8 => Some(-2),
        _ => None,
    }
}

/// The value of one snafu line.
#[verifier::loop_isolation(false)]
pub fn from_snafu(l: &Vec<u8>) -> (r: i128)
    requires
        l@.len() <= 26,
    ensures
        r == snafu_val(l@),
        -0x4000_0000_0000_0000 <= r <= 0x4000_0000_0000_0000,
{
    let mut acc: i128 = 0;
    let end = l.len();
    proof {
        assert(l@.take(0) =~= Seq::<u8>::empty());
        lemma_snafu_bound(l@.take(0));
    }
    for i in 0..end
        invariant
            end == l@.len() <= 26,
            acc == snafu_val(l@.take(i as int)),
            -0x4000_0000_0000_0000 <= acc <= 0x4000_0000_0000_0000,
    {
        proof {
            assert(l@.take(i + 1).drop_last() =~= l@.take(i as int));
            assert(l@.take(i + 1).last() == l@[i as int]);
            lemma_snafu_bound(l@.take(i + 1));
            lemma_snafu_bound(l@.take(i as int));
        }
        match from_snafu_char(l[i]) {
            Some(d) => {
                acc = acc * 5 + d as i128;
            },
            None => {},
        }
    }
    proof {
        assert(l@.take(end as int) =~= l@);
    }
    acc
}

/// A snafu value of at most `k` characters lies within half of `5^k`.
proof fn lemma_snafu_bound(l: Seq<u8>)
    requires
        l.len() <= 26,
    ensures
        -0x4000_0000_0000_0000 <= snafu_val(l) <= 0x4000_0000_0000_0000,
        -(pow5(l.len() as int) / 2) <= snafu_val(l) <= pow5(l.len() as int) / 2,
    decreases l.len(),
{
    lemma_pow5_mono(l.len() as int, 26);
    assert(pow5(26) == 1490116119384765625) by {
        reveal_with_fuel(pow5, 30);
    }
    if l.len() == 0 {
    } else {
        lemma_snafu_bound(l.drop_last());
        let p = pow5((l.len() - 1) as int);
        assert(pow5(l.len() as int) == p * 5);
        lemma_pow5_pos((l.len() - 1) as int);
        lemma_pow5_odd((l.len() - 1) as int);
        let v = snafu_val(l.drop_last());
        assert(-(p / 2) <= v <= p / 2);
        assert(v * 5 <= (p / 2) * 5 && -((p / 2) * 5) <= v * 5) by (nonlinear_arith)
            requires
                -(p / 2) <= v <= p / 2,
        ;
        assert((p / 2) * 5 + 2 <= (p * 5) / 2) by (nonlinear_arith)
            requires
                p >= 1 && p % 2 == 1,
        ;
    }
}

proof fn lemma_pow5_pos(k: int)
    ensures
        pow5(k) >= 1,
    decreases (if k > 0 {
        k
    } else {
        0int
    }),
{
    if k > 0 {
        lemma_pow5_pos(k - 1);
        assert(pow5(k - 1) * 5 >= 1) by (nonlinear_arith)
            requires
                pow5(k - 1) >= 1,
        ;
    }
}

proof fn lemma_pow5_odd(k: int)
    ensures
        pow5(k) % 2 == 1,
    decreases (if k > 0 {
        k
    } else {
        0int
    }),
{
    if k > 0 {
        lemma_pow5_odd(k - 1);
        assert(pow5(k - 1) * 5 % 2 == 1) by (nonlinear_arith)
            requires
                pow5(k - 1) % 2 == 1,
        ;
    }
}

/// Powers of five.
pub open spec fn pow5(k: int) -> int
    decreases k,
{
    if k <= 0 {
        1
    } else {
        pow5(k - 1) * 5
    }
}

proof fn lemma_pow5_mono(a: int, b: int)
    requires
        a <= b,
    ensures
        pow5(a) <= pow5(b),
    decreases b - a,
{
    if a < b {
        lemma_pow5_mono(a, b - 1);
        if b > 0 {
            lemma_pow5_pos(b - 1);
            assert(pow5(b) == pow5(b - 1) * 5);
            assert(pow5(b - 1) * 5 >= pow5(b - 1)) by (nonlinear_arith)
                requires
                    pow5(b - 1) >= 1,
            ;
        }
    }
}

/// Renders a number as snafu text; zero and below render empty.
pub fn to_snafu(n: i128) -> (r: String)
    ensures
        r@ == snafu_text(n as int),
    decreases (if n > 0 {
        n as int
    } else {
        0int
    }),
{
    if n <= 0 {
        let s = String::new();
        proof {
            assert(s@ =~= snafu_text(n as int));
        }
        s
    } else {
        let m = n % 5;
        let (carry, c): (i128, &'static str) = if m == 3 {
            proof {
                reveal_strlit("=");
            }
            (1, "=")
        } else if m == 4 {
            proof {
                reveal_strlit("-");
            }
            (1, "-")
        } else if m == 0 {
            proof {
                reveal_strlit("0");
            }
            (0, "0")
        } else if m == 1 {
            proof {
                reveal_strlit("1");
            }
            (0, "1")
        } else {
            proof {
                reveal_strlit("2");
            }
            (0, "2")
        };
        let mut s = to_snafu(n / 5 + carry);
        s.append(c);
        proof {
            assert(s@ =~= snafu_text(n as int));
        }
        s
    }
}

/// The snafu rendering of the sum of all lines, and an empty second part,
/// as "`p1` ".
#[verifier::loop_isolation(false)]
pub fn run(input: &str) -> (r: Result<String, crate::InputError>)
    requires
        input.spec_bytes().len() <= 0xffff_ffff,
        forall|i: int|
            0 <= i < spec_lines(input.spec_bytes()).len() ==> (#[trigger] spec_lines(
                input.spec_bytes(),
            )[i]).len() <= 26,
    ensures
        r is Ok,
        r->Ok_0@ == snafu_text(snafu_sum(spec_lines(input.spec_bytes()))) + seq![' '],
{
    let ls = lines_of(input);
    let ghost vl = views(ls@);
    let mut total: i128 = 0;
    let end = ls.len();
    proof {
        crate::util::lemma_spec_lines_count(input.spec_bytes());
        assert(vl.take(0) =~= Seq::<Seq<u8>>::empty());
    }
    for i in 0..end
        invariant
            end == vl.len(),
            vl.len() <= 0x1_0000_0000,
            forall|k: int| 0 <= k < vl.len() ==> (#[trigger] vl[k]).len() <= 26,
            total == snafu_sum(vl.take(i as int)),
            -0x4000_0000_0000_0000 * (i as int) <= total <= 0x4000_0000_0000_0000 * (i as int),
    {
        proof {
            assert(vl.take(i + 1).drop_last() =~= vl.take(i as int));
            assert(vl.take(i + 1).last() == vl[i as int]);
        }
        let v = from_snafu(&ls[i]);
        total = total + v;
    }
    proof {
        assert(vl.take(end as int) =~= vl);
    }
    let p1 = to_snafu(total);
    let ghost p1v = p1@;
    let empty = String::new();
    let s = two_answers(p1, empty);
    proof {
        assert(s@ =~= p1v + seq![' ']);
    }
    Ok(s)
}

} // verus!
