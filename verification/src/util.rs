//! Shared helpers for the text-puzzle solvers: splitting input into lines,
//! reading decimal numbers, and formatting numbers back into text.

use vstd::prelude::*;
use vstd::string::StringSliceAdditionalSpecFns;

verus! {

/// Index of the first line feed in `s`, or -1 when there is none.
pub open spec fn first_nl(s: Seq<u8>) -> int
    decreases s.len(),
{
    if s.len() == 0 {
        -1
    } else if s[0] == 10u8 {
        0
    } else if first_nl(s.drop_first()) < 0 {
        -1
    } else {
        first_nl(s.drop_first()) + 1
    }
}

/// A line with a trailing carriage return stripped.
pub open spec fn strip_cr(l: Seq<u8>) -> Seq<u8> {
    if l.len() > 0 && l.last() == 13u8 {
        l.drop_last()
    } else {
        l
    }
}

/// The first line feed, if any, lies within the text.
proof fn lemma_first_nl_range(s: Seq<u8>)
    ensures
        -1 <= first_nl(s) < s.len(),
    decreases s.len(),
{
    if s.len() > 0 && s[0] != 10u8 {
        lemma_first_nl_range(s.drop_first());
    }
}

/// The lines of a byte text, split at line feeds, each without its line
/// ending; a trailing line feed opens no further line.
pub open spec fn spec_lines(s: Seq<u8>) -> Seq<Seq<u8>>
    decreases s.len(),
    via spec_lines_dec
{
    if s.len() == 0 {
        Seq::empty()
    } else if first_nl(s) < 0 {
        seq![strip_cr(s)]
    } else {
        seq![strip_cr(s.take(first_nl(s)))] + spec_lines(s.skip(first_nl(s) + 1))
    }
}

#[via_fn]
proof fn spec_lines_dec(s: Seq<u8>) {
    lemma_first_nl_range(s);
}

/// The views of a vector of byte lines.
pub open spec fn views(r: Seq<Vec<u8>>) -> Seq<Seq<u8>> {
    r.map_values(|v: Vec<u8>| v@)
}

proof fn lemma_first_nl_from_scan(s: Seq<u8>, i: int)
    requires
        0 <= i <= s.len(),
        forall|k: int| 0 <= k < i ==> s[k] != 10u8,
        i < s.len() ==> s[i] == 10u8,
    ensures
        first_nl(s) == if i < s.len() {
            i
        } else {
            -1
        },
    decreases s.len(),
{
    if s.len() > 0 && s[0] != 10u8 {
        lemma_first_nl_from_scan(s.drop_first(), i - 1);
    }
}

/// Splits the input into its lines, as byte vectors.
#[verifier::loop_isolation(false)]
#[verifier::rlimit(100)]
pub fn lines_of(input: &str) -> (r: Vec<Vec<u8>>)
    ensures
        views(r@) == spec_lines(input.spec_bytes()),
{
    let bytes = input.as_bytes();
    let n = bytes.len();
    let mut out: Vec<Vec<u8>> = Vec::new();
    let mut pos: usize = 0;
    proof {
        assert(bytes@.skip(0) =~= bytes@);
        assert(views(out@) =~= Seq::<Seq<u8>>::empty());
        assert(views(out@) + spec_lines(bytes@.skip(0)) =~= spec_lines(bytes@));
    }
    while pos < n
        invariant
            0 <= pos <= n,
            views(out@) + spec_lines(bytes@.skip(pos as int)) == spec_lines(bytes@),
        decreases n - pos,
    {
        let start = pos;
        let mut cur: Vec<u8> = Vec::new();
        while pos < n && bytes[pos] != 10u8
            invariant
                start <= pos <= n,
                cur@ == bytes@.subrange(start as int, pos as int),
                forall|k: int| start <= k < pos ==> bytes@[k] != 10u8,
            decreases n - pos,
        {
            cur.push(bytes[pos]);
            pos = pos + 1;
        }
        proof {
            let tail = bytes@.skip(start as int);
            lemma_first_nl_from_scan(tail, pos - start);
            assert(tail.take(pos - start) =~= cur@);
        }
        if cur.len() > 0 && cur[cur.len() - 1] == 13u8 {
            cur.pop();
            proof {
                assert(cur@ =~= strip_cr(bytes@.subrange(start as int, pos as int)));
            }
        }
        let ghost oldout = views(out@);
        out.push(cur);
        if pos < n {
            pos = pos + 1;
            proof {
                assert(bytes@.skip(start as int).skip(pos - start) =~= bytes@.skip(pos as int));
                assert(views(out@) =~= oldout + seq![cur@]);
                assert(views(out@) + spec_lines(bytes@.skip(pos as int)) =~= spec_lines(bytes@));
            }
        } else {
            proof {
                assert(bytes@.skip(pos as int) =~= Seq::<u8>::empty());
                assert(views(out@) =~= oldout + seq![cur@]);
                assert(views(out@) + spec_lines(bytes@.skip(pos as int)) =~= spec_lines(bytes@));
            }
        }
    }
    proof {
        assert(bytes@.skip(pos as int) =~= Seq::<u8>::empty());
        assert(views(out@) =~= spec_lines(bytes@));
    }
    out
}

/// A text of `n` bytes has at most `n + 1` lines.
pub proof fn lemma_spec_lines_count(s: Seq<u8>)
    ensures
        spec_lines(s).len() <= s.len() + 1,
    decreases s.len(),
{
    lemma_first_nl_range(s);
    if s.len() > 0 && first_nl(s) >= 0 {
        lemma_spec_lines_count(s.skip(first_nl(s) + 1));
    }
}

/// No line is longer than the whole text.
pub proof fn lemma_spec_lines_each(s: Seq<u8>)
    ensures
        forall|i: int|
            0 <= i < spec_lines(s).len() ==> (#[trigger] spec_lines(s)[i]).len() <= s.len(),
    decreases s.len(),
{
    lemma_first_nl_range(s);
    if s.len() > 0 && first_nl(s) >= 0 {
        lemma_spec_lines_each(s.skip(first_nl(s) + 1));
        assert forall|i: int|
            0 <= i < spec_lines(s).len() implies (#[trigger] spec_lines(s)[i]).len()
            <= s.len() by {
            if i > 0 {
                assert(spec_lines(s)[i] == spec_lines(s.skip(first_nl(s) + 1))[i - 1]);
            }
        }
    }
}

/// Index of the first occurrence of either separator, or -1.
pub open spec fn first_sep(s: Seq<u8>, c1: u8, c2: u8) -> int
    decreases s.len(),
{
    if s.len() == 0 {
        -1
    } else if s[0] == c1 || s[0] == c2 {
        0
    } else if first_sep(s.drop_first(), c1, c2) < 0 {
        -1
    } else {
        first_sep(s.drop_first(), c1, c2) + 1
    }
}

/// The first separator index lies within the text, or is -1.
pub proof fn lemma_first_sep_range(s: Seq<u8>, c1: u8, c2: u8)
    ensures
        -1 <= first_sep(s, c1, c2) < s.len(),
    decreases s.len(),
{
    if s.len() > 0 && !(s[0] == c1 || s[0] == c2) {
        lemma_first_sep_range(s.drop_first(), c1, c2);
    }
}

/// A found first separator really is a separator, with none before it.
pub proof fn lemma_first_sep_hit(s: Seq<u8>, c1: u8, c2: u8)
    ensures
        first_sep(s, c1, c2) >= 0 ==> {
            let k = first_sep(s, c1, c2);
            k < s.len() && (s[k] == c1 || s[k] == c2) && forall|j: int|
                0 <= j < k ==> s[j] != c1 && s[j] != c2
        },
    decreases s.len(),
{
    lemma_first_sep_range(s, c1, c2);
    if s.len() > 0 && !(s[0] == c1 || s[0] == c2) {
        lemma_first_sep_hit(s.drop_first(), c1, c2);
        if first_sep(s, c1, c2) >= 0 {
            let k = first_sep(s, c1, c2);
            assert(s.drop_first()[k - 1] == s[k]);
            assert forall|j: int| 0 <= j < k implies s[j] != c1 && s[j] != c2 by {
                if j >= 1 {
                    assert(s.drop_first()[j - 1] == s[j]);
                }
            }
        }
    }
}

/// The segments of `s` between occurrences of the two separator bytes;
/// consecutive separators give empty segments, and the empty text has one
/// empty segment.
pub open spec fn spec_split(s: Seq<u8>, c1: u8, c2: u8) -> Seq<Seq<u8>>
    decreases s.len(),
    via spec_split_dec
{
    if first_sep(s, c1, c2) < 0 {
        seq![s]
    } else {
        seq![s.take(first_sep(s, c1, c2))] + spec_split(s.skip(first_sep(s, c1, c2) + 1), c1, c2)
    }
}

#[via_fn]
proof fn spec_split_dec(s: Seq<u8>, c1: u8, c2: u8) {
    lemma_first_sep_range(s, c1, c2);
}

/// A scan that found the first separator (or none) fixes `first_sep`.
pub proof fn lemma_first_sep_from_scan(s: Seq<u8>, c1: u8, c2: u8, i: int)
    requires
        0 <= i <= s.len(),
        forall|k: int| 0 <= k < i ==> s[k] != c1 && s[k] != c2,
        i < s.len() ==> s[i] == c1 || s[i] == c2,
    ensures
        first_sep(s, c1, c2) == if i < s.len() {
            i
        } else {
            -1
        },
    decreases s.len(),
{
    if s.len() > 0 && !(s[0] == c1 || s[0] == c2) {
        lemma_first_sep_from_scan(s.drop_first(), c1, c2, i - 1);
    }
}

/// Splits bytes at either separator.
#[verifier::loop_isolation(false)]
#[verifier::rlimit(100)]
pub fn split_bytes(s: &[u8], c1: u8, c2: u8) -> (r: Vec<Vec<u8>>)
    ensures
        views(r@) == spec_split(s@, c1, c2),
{
    let n = s.len();
    let mut out: Vec<Vec<u8>> = Vec::new();
    let mut pos: usize = 0;
    let mut cur: Vec<u8> = Vec::new();
    let ghost whole = s@;
    proof {
        assert(whole.skip(0) =~= whole);
        assert(views(out@) =~= Seq::<Seq<u8>>::empty());
    }
    while pos < n
        invariant
            0 <= pos <= n,
            n == whole.len(),
            s@ == whole,
            cur@ == whole.subrange(pos - cur@.len(), pos as int),
            forall|k: int| pos - cur@.len() <= k < pos ==> whole[k] != c1 && whole[k] != c2,
            cur@.len() <= pos,
            views(out@) + spec_split(whole.skip(pos - cur@.len()), c1, c2) == spec_split(
                whole,
                c1,
                c2,
            ),
        decreases n - pos,
    {
        let b = s[pos];
        if b == c1 || b == c2 {
            let ghost start = pos - cur@.len();
            proof {
                let tail = whole.skip(start);
                lemma_first_sep_from_scan(tail, c1, c2, pos - start);
                assert(tail.take(pos - start) =~= cur@);
                assert(tail.skip(pos - start + 1) =~= whole.skip(pos + 1));
            }
            let ghost oldout = views(out@);
            out.push(cur);
            cur = Vec::new();
            proof {
                assert(views(out@) =~= oldout + seq![whole.subrange(start, pos as int)]);
                assert(cur@ =~= whole.subrange(pos + 1 - cur@.len(), pos + 1));
            }
        } else {
            cur.push(b);
            proof {
                assert(cur@ =~= whole.subrange(pos + 1 - cur@.len(), pos + 1));
            }
        }
        pos = pos + 1;
    }
    proof {
        let tail = whole.skip(pos - cur@.len());
        lemma_first_sep_from_scan(tail, c1, c2, pos - (pos - cur@.len()));
        assert(tail =~= cur@);
    }
    let ghost oldout = views(out@);
    out.push(cur);
    proof {
        assert(views(out@) =~= oldout + seq![whole.skip(pos - cur@.len())]);
        assert(views(out@) =~= spec_split(whole, c1, c2));
    }
    out
}

/// The values of the segments that read as unsigned numbers no larger than
/// `bound`, in order; other segments are passed over.
pub open spec fn nums_within(parts: Seq<Seq<u8>>, bound: int) -> Seq<int>
    decreases parts.len(),
{
    if parts.len() == 0 {
        Seq::empty()
    } else {
        nums_within(parts.drop_last(), bound) + if is_digits(parts.last()) && digits_val(
            parts.last(),
        ) <= bound {
            seq![digits_val(parts.last())]
        } else {
            Seq::empty()
        }
    }
}

/// Reads every segment that is a number within `bound`.
#[verifier::loop_isolation(false)]
pub fn parse_nums_within(parts: &Vec<Vec<u8>>, bound: u64) -> (r: Vec<u64>)
    ensures
        r@.map_values(|x: u64| x as int) == nums_within(views(parts@), bound as int),
        forall|k: int| 0 <= k < r@.len() ==> #[trigger] r@[k] <= bound,
    decreases parts@.len(),
{
    let mut out: Vec<u64> = Vec::new();
    let end = parts.len();
    proof {
        assert(views(parts@).take(0) =~= Seq::<Seq<u8>>::empty());
    }
    for i in 0..end
        invariant
            end == parts@.len(),
            out@.map_values(|x: u64| x as int) == nums_within(views(parts@).take(i as int), bound as int),
            forall|k: int| 0 <= k < out@.len() ==> #[trigger] out@[k] <= bound,
    {
        proof {
            assert(views(parts@).take(i + 1).drop_last() =~= views(parts@).take(i as int));
            assert(views(parts@).take(i + 1).last() == parts@[i as int]@);
        }
        let ghost oldmap = out@.map_values(|x: u64| x as int);
        match parse_u64(parts[i].as_slice()) {
            Some(v) => {
                if v <= bound {
                    out.push(v);
                    proof {
                        assert(out@.map_values(|x: u64| x as int) =~= oldmap + seq![v as int]);
                    }
                }
            },
            None => {},
        }
    }
    proof {
        assert(views(parts@).take(end as int) =~= views(parts@));
    }
    out
}

/// The values of the segments that read as signed numbers within
/// `[lo, hi]`, in order; other segments are passed over.
pub open spec fn nums_signed(parts: Seq<Seq<u8>>, lo: int, hi: int) -> Seq<int>
    decreases parts.len(),
{
    if parts.len() == 0 {
        Seq::empty()
    } else {
        nums_signed(parts.drop_last(), lo, hi) + if is_signed(parts.last()) && lo <= signed_val(
            parts.last(),
        ) <= hi {
            seq![signed_val(parts.last())]
        } else {
            Seq::empty()
        }
    }
}

/// Reads every segment that is a signed number within `[lo, hi]`.
#[verifier::loop_isolation(false)]
pub fn parse_nums_signed(parts: &Vec<Vec<u8>>, lo: i64, hi: i64) -> (r: Vec<i64>)
    requires
        -0x7fff_ffff_ffff_ffff <= lo <= hi <= 0x7fff_ffff_ffff_ffff,
    ensures
        r@.map_values(|x: i64| x as int) == nums_signed(views(parts@), lo as int, hi as int),
        forall|k: int| 0 <= k < r@.len() ==> lo <= #[trigger] r@[k] <= hi,
{
    let mut out: Vec<i64> = Vec::new();
    let end = parts.len();
    proof {
        assert(views(parts@).take(0) =~= Seq::<Seq<u8>>::empty());
    }
    for i in 0..end
        invariant
            end == parts@.len(),
            out@.map_values(|x: i64| x as int) == nums_signed(
                views(parts@).take(i as int),
                lo as int,
                hi as int,
            ),
            forall|k: int| 0 <= k < out@.len() ==> lo <= #[trigger] out@[k] <= hi,
    {
        proof {
            assert(views(parts@).take(i + 1).drop_last() =~= views(parts@).take(i as int));
            assert(views(parts@).take(i + 1).last() == parts@[i as int]@);
        }
        let ghost oldmap = out@.map_values(|x: i64| x as int);
        match parse_i64(parts[i].as_slice()) {
            Some(v) => {
                if lo <= v && v <= hi {
                    out.push(v);
                    proof {
                        assert(out@.map_values(|x: i64| x as int) =~= oldmap + seq![v as int]);
                    }
                }
            },
            None => {},
        }
    }
    proof {
        assert(views(parts@).take(end as int) =~= views(parts@));
    }
    out
}

/// An ASCII whitespace byte.
pub open spec fn is_ws(b: u8) -> bool {
    b == 9u8 || b == 10u8 || b == 11u8 || b == 12u8 || b == 13u8 || b == 32u8
}

/// The text with leading whitespace dropped.
pub open spec fn trim_front(s: Seq<u8>) -> Seq<u8>
    decreases s.len(),
{
    if s.len() > 0 && is_ws(s[0]) {
        trim_front(s.drop_first())
    } else {
        s
    }
}

/// The text with trailing whitespace dropped.
pub open spec fn trim_back(s: Seq<u8>) -> Seq<u8>
    decreases s.len(),
{
    if s.len() > 0 && is_ws(s.last()) {
        trim_back(s.drop_last())
    } else {
        s
    }
}

/// Copies the bytes with ASCII whitespace trimmed from both ends.
#[verifier::loop_isolation(false)]
pub fn trim_ws(s: &[u8]) -> (r: Vec<u8>)
    ensures
        r@ == trim_back(trim_front(s@)),
{
    let n = s.len();
    let mut lo: usize = 0;
    proof {
        assert(s@.skip(0) =~= s@);
    }
    while lo < n && (s[lo] == 9 || s[lo] == 10 || s[lo] == 11 || s[lo] == 12 || s[lo] == 13 || s[lo]
        == 32)
        invariant
            0 <= lo <= n,
            n == s@.len(),
            trim_front(s@) == trim_front(s@.skip(lo as int)),
        decreases n - lo,
    {
        proof {
            assert(s@.skip(lo as int).drop_first() =~= s@.skip(lo + 1));
        }
        lo = lo + 1;
    }
    proof {
        assert(trim_front(s@) =~= s@.skip(lo as int));
    }
    let mut hi: usize = n;
    proof {
        assert(s@.skip(lo as int) =~= s@.subrange(lo as int, n as int));
    }
    while hi > lo && (s[hi - 1] == 9 || s[hi - 1] == 10 || s[hi - 1] == 11 || s[hi - 1] == 12 || s[
        hi - 1] == 13 || s[hi - 1] == 32)
        invariant
            lo <= hi <= n,
            n == s@.len(),
            trim_front(s@) == s@.skip(lo as int),
            trim_back(s@.skip(lo as int)) == trim_back(s@.subrange(lo as int, hi as int)),
        decreases hi,
    {
        proof {
            assert(s@.subrange(lo as int, hi as int).drop_last() =~= s@.subrange(
                lo as int,
                hi - 1,
            ));
        }
        hi = hi - 1;
    }
    proof {
        assert(trim_back(s@.subrange(lo as int, hi as int)) =~= s@.subrange(lo as int, hi as int));
    }
    let mut out: Vec<u8> = Vec::new();
    let mut k: usize = lo;
    while k < hi
        invariant
            lo <= k <= hi <= n,
            n == s@.len(),
            out@ == s@.subrange(lo as int, k as int),
        decreases hi - k,
    {
        out.push(s[k]);
        proof {
            assert(out@ =~= s@.subrange(lo as int, k + 1));
        }
        k = k + 1;
    }
    out
}

/// Every byte is a decimal digit, and there is at least one.
pub open spec fn is_digits(s: Seq<u8>) -> bool {
    s.len() > 0 && forall|k: int| 0 <= k < s.len() ==> 48u8 <= #[trigger] s[k] <= 57u8
}

/// The value of a string of decimal digits.
pub open spec fn digits_val(s: Seq<u8>) -> int
    decreases s.len(),
{
    if s.len() == 0 {
        0
    } else {
        digits_val(s.drop_last()) * 10 + (s.last() - 48u8)
    }
}

proof fn lemma_digits_val_nonneg(s: Seq<u8>)
    requires
        forall|k: int| 0 <= k < s.len() ==> 48u8 <= #[trigger] s[k] <= 57u8,
    ensures
        digits_val(s) >= 0,
    decreases s.len(),
{
    if s.len() > 0 {
        lemma_digits_val_nonneg(s.drop_last());
        vstd::arithmetic::mul::lemma_mul_inequality(0, digits_val(s.drop_last()), 10);
    }
}

/// Reads an unsigned decimal number: `Some` exactly when the bytes are all
/// digits (at least one) and the value fits in `u64`.
#[verifier::loop_isolation(false)]
pub fn parse_u64(s: &[u8]) -> (r: Option<u64>)
    ensures
        r is Some <==> is_digits(s@) && digits_val(s@) <= u64::MAX,
        r is Some ==> r->0 == digits_val(s@),
{
    let n = s.len();
    if n == 0 {
        return None;
    }
    let mut acc: u64 = 0;
    for i in 0..n
        invariant
            n == s@.len(),
            forall|k: int| 0 <= k < i ==> 48u8 <= #[trigger] s@[k] <= 57u8,
            acc == digits_val(s@.take(i as int)),
    {
        let c = s[i];
        if c < 48 || c > 57 {
            return None;
        }
        let d = (c - 48) as u64;
        proof {
            lemma_digits_val_nonneg(s@.take(i as int));
            assert(s@.take(i + 1).drop_last() =~= s@.take(i as int));
            assert(s@.take(i + 1).last() == c);
        }
        if acc > (u64::MAX - d) / 10 {
            // the value no longer fits; appending digits only grows it
            proof {
                assert(acc * 10 + d > u64::MAX) by (nonlinear_arith)
                    requires
                        acc > (u64::MAX - d) / 10 && 0 <= d <= 9,
                ;
                if is_digits(s@) {
                    lemma_digits_prefix_le(s@, i + 1);
                }
            }
            return None;
        }
        proof {
            assert(acc * 10 + d <= u64::MAX) by (nonlinear_arith)
                requires
                    acc <= (u64::MAX - d) / 10 && 0 <= d <= 9,
            ;
        }
        acc = acc * 10 + d;
    }
    proof {
        assert(s@.take(n as int) =~= s@);
    }
    Some(acc)
}

proof fn lemma_digits_prefix_le(s: Seq<u8>, i: int)
    requires
        0 <= i <= s.len(),
        forall|k: int| 0 <= k < s.len() ==> 48u8 <= #[trigger] s[k] <= 57u8,
    ensures
        digits_val(s) >= digits_val(s.take(i)),
    decreases s.len() - i,
{
    if i == s.len() {
        assert(s.take(i) =~= s);
    }
    if i < s.len() {
        lemma_digits_prefix_le(s, i + 1);
        lemma_digits_val_nonneg(s.take(i));
        assert(s.take(i + 1).drop_last() =~= s.take(i));
        assert(digits_val(s.take(i + 1)) == digits_val(s.take(i)) * 10 + (s[i] - 48u8));
        vstd::arithmetic::mul::lemma_mul_inequality(1, 10, digits_val(s.take(i)));
        vstd::arithmetic::mul::lemma_mul_basics(digits_val(s.take(i)));
    }
}

/// The value of an optionally signed decimal number.
pub open spec fn signed_val(s: Seq<u8>) -> int {
    if s.len() > 0 && s[0] == 45u8 {
        -digits_val(s.drop_first())
    } else {
        digits_val(s)
    }
}

/// The bytes form an optionally signed decimal number.
pub open spec fn is_signed(s: Seq<u8>) -> bool {
    if s.len() > 0 && s[0] == 45u8 {
        is_digits(s.drop_first())
    } else {
        is_digits(s)
    }
}

/// Reads an optionally signed decimal number: `Some` exactly when the bytes
/// are a minus sign or nothing followed by digits, with a value in a range
/// that comfortably fits `i64` computations.
pub fn parse_i64(s: &[u8]) -> (r: Option<i64>)
    ensures
        r is Some <==> is_signed(s@) && -0x7fff_ffff_ffff_ffff <= signed_val(s@)
            <= 0x7fff_ffff_ffff_ffff,
        r is Some ==> r->0 == signed_val(s@),
{
    if s.len() > 0 && s[0] == 45u8 {
        let rest = vstd::slice::slice_subrange(s, 1, s.len());
        proof {
            assert(rest@ =~= s@.drop_first());
        }
        match parse_u64(rest) {
            Some(v) => {
                if v <= 0x7fff_ffff_ffff_ffffu64 {
                    Some(-(v as i64))
                } else {
                    None
                }
            },
            None => None,
        }
    } else {
        match parse_u64(s) {
            Some(v) => {
                if v <= 0x7fff_ffff_ffff_ffffu64 {
                    Some(v as i64)
                } else {
                    None
                }
            },
            None => None,
        }
    }
}

/// The decimal digit characters of a non-negative number.
pub open spec fn dec_digits(n: int) -> Seq<char>
    decreases n,
{
    if n < 10 {
        seq![digit_char(n)]
    } else {
        dec_digits(n / 10).push(digit_char(n % 10))
    }
}

/// The character of one decimal digit.
pub open spec fn digit_char(d: int) -> char {
    if d == 0 {
        '0'
    } else if d == 1 {
        '1'
    } else if d == 2 {
        '2'
    } else if d == 3 {
        '3'
    } else if d == 4 {
        '4'
    } else if d == 5 {
        '5'
    } else if d == 6 {
        '6'
    } else if d == 7 {
        '7'
    } else if d == 8 {
        '8'
    } else {
        '9'
    }
}

/// The text of a signed number: a minus sign for negatives, then digits.
pub open spec fn dec_text(n: int) -> Seq<char> {
    if n < 0 {
        seq!['-'] + dec_digits(-n)
    } else {
        dec_digits(n)
    }
}

fn digit_str(d: u64) -> (r: &'static str)
    requires
        d < 10,
    ensures
        r@ == seq![digit_char(d as int)],
{
    proof {
        reveal_strlit("0");
        reveal_strlit("1");
        reveal_strlit("2");
        reveal_strlit("3");
        reveal_strlit("4");
        reveal_strlit("5");
        reveal_strlit("6");
        reveal_strlit("7");
        reveal_strlit("8");
        reveal_strlit("9");
    }
    let r = if d == 0 {
        "0"
    } else if d == 1 {
        "1"
    } else if d == 2 {
        "2"
    } else if d == 3 {
        "3"
    } else if d == 4 {
        "4"
    } else if d == 5 {
        "5"
    } else if d == 6 {
        "6"
    } else if d == 7 {
        "7"
    } else {
        "8"
    };
    if d == 9 {
        proof {
            reveal_strlit("9");
        }
        "9"
    } else {
        proof {
            assert(r@ =~= seq![digit_char(d as int)]);
        }
        r
    }
}

/// Formats a number as decimal text.
pub fn u64_string(n: u64) -> (r: String)
    ensures
        r@ == dec_digits(n as int),
    decreases n,
{
    if n < 10 {
        String::from_str(digit_str(n))
    } else {
        let mut s = u64_string(n / 10);
        s.append(digit_str(n % 10));
        proof {
            assert(s@ =~= dec_digits(n as int));
        }
        s
    }
}

/// Formats a wide number as decimal text.
pub fn u128_string(n: u128) -> (r: String)
    ensures
        r@ == dec_digits(n as int),
    decreases n,
{
    if n < 10 {
        String::from_str(digit_str(n as u64))
    } else {
        let mut s = u128_string(n / 10);
        s.append(digit_str((n % 10) as u64));
        proof {
            assert(s@ =~= dec_digits(n as int));
        }
        s
    }
}

/// Formats a signed number as decimal text.
pub fn i64_string(n: i64) -> (r: String)
    ensures
        r@ == dec_text(n as int),
{
    if n < 0 {
        proof {
            reveal_strlit("-");
        }
        let mut s = String::from_str("-");
        let mag: u64 = if n == i64::MIN {
            0x8000_0000_0000_0000u64
        } else {
            (-n) as u64
        };
        let d = u64_string(mag);
        s.append(d.as_str());
        proof {
            assert(s@ =~= dec_text(n as int));
        }
        s
    } else {
        u64_string(n as u64)
    }
}

/// Formats a wide signed number as decimal text.
pub fn i128_string(n: i128) -> (r: String)
    ensures
        r@ == dec_text(n as int),
{
    if n < 0 {
        proof {
            reveal_strlit("-");
        }
        let mut s = String::from_str("-");
        let mag: u128 = if n == i128::MIN {
            0x8000_0000_0000_0000_0000_0000_0000_0000u128
        } else {
            (-n) as u128
        };
        let d = u128_string(mag);
        s.append(d.as_str());
        proof {
            assert(s@ =~= dec_text(n as int));
        }
        s
    } else {
        u128_string(n as u128)
    }
}

/// Relies on `String::push`: appends exactly the one character.
#[verifier::external_body]
pub fn push_char(s: &mut String, c: char)
    ensures
        final(s)@ == old(s)@.push(c),
{
    s.push(c);
}

/// Joins two rendered answers with a space, the shape every solver's
/// output takes.
pub fn two_answers(a: String, b: String) -> (r: String)
    ensures
        r@ == a@ + seq![' '] + b@,
{
    proof {
        reveal_strlit(" ");
    }
    let ghost av = a@;
    let mut s = a;
    s.append(" ");
    s.append(b.as_str());
    proof {
        assert(s@ =~= av + seq![' '] + b@);
    }
    s
}

} // verus!
