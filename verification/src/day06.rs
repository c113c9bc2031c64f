//! Start-of-packet detection: the position just past the first window of
//! `n` pairwise distinct bytes in the (whitespace-trimmed) signal.

use vstd::prelude::*;
use vstd::string::StringSliceAdditionalSpecFns;

use crate::util::{dec_digits, trim_back, trim_front, trim_ws, two_answers, u64_string};

verus! {

/// The `n` bytes starting at `i` are pairwise distinct.
pub open spec fn distinct_window(s: Seq<u8>, i: int, n: int) -> bool {
    forall|k1: int, k2: int| i <= k1 < k2 < i + n ==> s[k1] != s[k2]
}

/// One past the first all-distinct window of width `n` at or after `i`,
/// or 0 when there is none.
pub open spec fn first_marker(s: Seq<u8>, n: int, i: int) -> int
    decreases s.len() - i,
{
    if i < 0 || i + n > s.len() {
        0
    } else if distinct_window(s, i, n) {
        i + n
    } else {
        first_marker(s, n, i + 1)
    }
}

/// Whether the window of width `n` at `i` is pairwise distinct.
#[verifier::loop_isolation(false)]
fn window_distinct(s: &[u8], i: usize, n: usize) -> (r: bool)
    requires
        i + n <= s@.len(),
    ensures
        r == distinct_window(s@, i as int, n as int),
{
    if n == 0 {
        return true;
    }
    let slen = s.len();
    proof {
        assert(s@.len() == slen);
    }
    for k2 in 1..n
        invariant
            i + n <= s@.len(),
            forall|a: int, b: int| i <= a < b < i + k2 ==> s@[a] != s@[b],
    {
        for k1 in 0..k2
            invariant
                i + n <= s@.len(),
                k2 < n,
                forall|a: int, b: int| i <= a < b < i + k2 ==> s@[a] != s@[b],
                forall|a: int| i <= a < i + k1 ==> #[trigger] s@[a] != s@[i + k2],
        {
            if s[i + k1] == s[i + k2] {
                return false;
            }
        }
    }
    true
}

/// Index just past the first window of `n` distinct bytes, or 0.
#[verifier::loop_isolation(false)]
pub fn nproc_start(s: &str, n: usize) -> (r: usize)
    ensures
        r == first_marker(s.spec_bytes(), n as int, 0),
{
    let bytes = s.as_bytes();
    let len = bytes.len();
    if n > len {
        return 0;
    }
    let mut i: usize = 0;
    while i <= len - n
        invariant
            0 <= i,
            n <= len,
            i <= len - n + 1,
            len == bytes@.len(),
            first_marker(bytes@, n as int, 0) == first_marker(bytes@, n as int, i as int),
        decreases len - i,
    {
        if window_distinct(bytes, i, n) {
            return i + n;
        }
        i = i + 1;
    }
    0
}

/// First packet (4 distinct) and message (14 distinct) markers of the
/// trimmed input, as "`p1` `p2`".
pub fn run(input: &str) -> (r: Result<String, crate::InputError>)
    ensures
        r is Ok,
        ({
            let t = trim_back(trim_front(input.spec_bytes()));
            r->Ok_0@ == dec_digits(first_marker(t, 4, 0)) + seq![' '] + dec_digits(
                first_marker(t, 14, 0),
            )
        }),
{
    let t = trim_ws(input.as_bytes());
    proof {
        vstd::std_specs::vec::axiom_spec_len(&t);
    }
    let p1 = nproc_start_bytes(&t, 4);
    let p2 = nproc_start_bytes(&t, 14);
    Ok(two_answers(u64_string(p1 as u64), u64_string(p2 as u64)))
}

/// `nproc_start` over an owned byte buffer.
#[verifier::loop_isolation(false)]
fn nproc_start_bytes(s: &Vec<u8>, n: usize) -> (r: usize)
    ensures
        r == first_marker(s@, n as int, 0),
{
    let bytes = s.as_slice();
    let len = bytes.len();
    if n > len {
        return 0;
    }
    let mut i: usize = 0;
    while i <= len - n
        invariant
            0 <= i,
            n <= len,
            i <= len - n + 1,
            len == bytes@.len(),
            bytes@ == s@,
            first_marker(s@, n as int, 0) == first_marker(s@, n as int, i as int),
        decreases len - i,
    {
        if window_distinct(bytes, i, n) {
            return i + n;
        }
        i = i + 1;
    }
    0
}

} // verus!
