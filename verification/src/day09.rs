//! Rope physics: a rope of knots follows head moves read from the input;
//! count the distinct positions the tail visits.

use vstd::prelude::*;
use vstd::string::StringSliceAdditionalSpecFns;

use crate::util::{
    dec_digits, first_sep, is_signed, lines_of, signed_val, spec_lines, two_answers, u64_string,
    views,
};

verus! {

/// One knot pulled after the knot ahead of it moved.
pub open spec fn pull_s(t: (int, int), h: (int, int)) -> (int, int) {
    let dx = h.0 - t.0;
    let dy = h.1 - t.1;
    if dx == 0 {
        if dy < -1 {
            (t.0, t.1 - 1)
        } else if dy > 1 {
            (t.0, t.1 + 1)
        } else {
            t
        }
    } else if dy == 0 {
        if dx < -1 {
            (t.0 - 1, t.1)
        } else if dx > 1 {
            (t.0 + 1, t.1)
        } else {
            t
        }
    } else if dx > 1 || dx < -1 || dy > 1 || dy < -1 {
        (
            if dx < 0 {
                t.0 - 1
            } else {
                t.0 + 1
            },
            if dy < 0 {
                t.1 - 1
            } else {
                t.1 + 1
            },
        )
    } else {
        t
    }
}

/// The rope behind a moved head: each knot pulled after its predecessor.
pub open spec fn chain(h: (int, int), rest: Seq<(int, int)>) -> Seq<(int, int)>
    decreases rest.len(),
{
    seq![h] + if rest.len() == 0 {
        Seq::empty()
    } else {
        chain(pull_s(rest[0], h), rest.drop_first())
    }
}

/// The whole rope after one head move by `d`.
pub open spec fn move_once(rope: Seq<(int, int)>, d: (int, int)) -> Seq<(int, int)> {
    chain((rope[0].0 + d.0, rope[0].1 + d.1), rope.drop_first())
}

/// `n` head moves by `d`, recording the tail position after each.
pub open spec fn run_steps(rope: Seq<(int, int)>, d: (int, int), n: int, tails: Seq<(int, int)>) -> (
    Seq<(int, int)>,
    Seq<(int, int)>,
)
    decreases n,
{
    if n <= 0 {
        (rope, tails)
    } else {
        let r2 = move_once(rope, d);
        run_steps(r2, d, n - 1, tails.push(r2.last()))
    }
}

/// The head move of one line: a direction letter, a space, and a count.
pub open spec fn line_step(l: Seq<u8>) -> Option<((int, int), int)> {
    let p = first_sep(l, 32u8, 32u8);
    if p != 1 {
        None
    } else {
        let rest = l.skip(2);
        if !(is_signed(rest) && -0x8000_0000 <= signed_val(rest) <= 0x7fff_ffff) {
            None
        } else {
            let n = signed_val(rest);
            if l[0] == 85u8 {
                Some(((0, 1), n))
            } else if l[0] == 68u8 {
                Some(((0, -1), n))
            } else if l[0] == 76u8 {
                Some(((-1, 0), n))
            } else if l[0] == 82u8 {
                Some(((1, 0), n))
            } else {
                None
            }
        }
    }
}

/// The rope and tail trace after all lines.
pub open spec fn sim_lines(lines: Seq<Seq<u8>>, k: int, rope: Seq<(int, int)>, tails: Seq<
    (int, int),
>) -> (Seq<(int, int)>, Seq<(int, int)>)
    decreases k,
{
    if k <= 0 {
        (rope, tails)
    } else {
        let prev = sim_lines(lines, k - 1, rope, tails);
        match line_step(lines[k - 1]) {
            Some(sn) => run_steps(prev.0, sn.0, sn.1, prev.1),
            None => prev,
        }
    }
}

/// The initial rope: `len` knots at the origin.
pub open spec fn init_rope(len: int) -> Seq<(int, int)> {
    Seq::new(len as nat, |j: int| (0int, 0int))
}

/// Distinct tail positions over the whole input, for a rope of `rope_len`
/// knots.
pub open spec fn spec_stretch(input: Seq<u8>, rope_len: int) -> int {
    sim_lines(
        spec_lines(input),
        spec_lines(input).len() as int,
        init_rope(rope_len),
        Seq::empty(),
    ).1.to_set().len() as int
}

proof fn lemma_chain_shape(h: (int, int), rest: Seq<(int, int)>)
    ensures
        chain(h, rest).len() == rest.len() + 1,
        chain(h, rest)[0] == h,
        forall|j: int|
            1 <= j <= rest.len() ==> #[trigger] chain(h, rest)[j] == pull_s(
                rest[j - 1],
                chain(h, rest)[j - 1],
            ),
    decreases rest.len(),
{
    if rest.len() > 0 {
        lemma_chain_shape(pull_s(rest[0], h), rest.drop_first());
        let c = chain(h, rest);
        let c2 = chain(pull_s(rest[0], h), rest.drop_first());
        assert forall|j: int| 1 <= j <= rest.len() implies #[trigger] c[j] == pull_s(
            rest[j - 1],
            c[j - 1],
        ) by {
            assert(c[j] == c2[j - 1]);
            if j >= 2 {
                assert(c2[j - 1] == pull_s(rest.drop_first()[j - 2], c2[j - 2]));
                assert(rest.drop_first()[j - 2] == rest[j - 1]);
                assert(c[j - 1] == c2[j - 2]);
            }
        }
    }
}

/// One knot pulled, executably.
fn pull(t: (i64, i64), h: (i64, i64)) -> (r: (i64, i64))
    requires
        -0x1000_0000_0000_0000 <= t.0 <= 0x1000_0000_0000_0000,
        -0x1000_0000_0000_0000 <= t.1 <= 0x1000_0000_0000_0000,
        -0x1000_0000_0000_0000 <= h.0 <= 0x1000_0000_0000_0000,
        -0x1000_0000_0000_0000 <= h.1 <= 0x1000_0000_0000_0000,
    ensures
        (r.0 as int, r.1 as int) == pull_s((t.0 as int, t.1 as int), (h.0 as int, h.1 as int)),
        t.0 - 1 <= r.0 <= t.0 + 1,
        t.1 - 1 <= r.1 <= t.1 + 1,
{
    let dx = h.0 - t.0;
    let dy = h.1 - t.1;
    if dx == 0 {
        if dy < -1 {
            (t.0, t.1 - 1)
        } else if dy > 1 {
            (t.0, t.1 + 1)
        } else {
            t
        }
    } else if dy == 0 {
        if dx < -1 {
            (t.0 - 1, t.1)
        } else if dx > 1 {
            (t.0 + 1, t.1)
        } else {
            t
        }
    } else if dx > 1 || dx < -1 || dy > 1 || dy < -1 {
        (
            if dx < 0 {
                t.0 - 1
            } else {
                t.0 + 1
            },
            if dy < 0 {
                t.1 - 1
            } else {
                t.1 + 1
            },
        )
    } else {
        t
    }
}

/// The view of an executable rope or trace.
pub open spec fn pmap(s: Seq<(i64, i64)>) -> Seq<(int, int)> {
    s.map_values(|p: (i64, i64)| (p.0 as int, p.1 as int))
}

proof fn lemma_push_to_set(s: Seq<(int, int)>, x: (int, int))
    ensures
        s.push(x).to_set() =~= s.to_set().insert(x),
{
    assert forall|q: (int, int)| #[trigger] s.push(x).to_set().contains(q) implies s.to_set().insert(
        x,
    ).contains(q) by {
        let k = choose|k: int| 0 <= k < s.push(x).len() && s.push(x)[k] == q;
        if k < s.len() {
            assert(s[k] == q);
        }
    }
    assert forall|q: (int, int)| #[trigger] s.to_set().insert(x).contains(q) implies s.push(
        x,
    ).to_set().contains(q) by {
        if q == x {
            assert(s.push(x)[s.len() as int] == q);
        } else {
            let k = choose|k: int| 0 <= k < s.len() && s[k] == q;
            assert(s.push(x)[k] == q);
        }
    }
}

/// Moves the head by `d` and pulls the rest of the rope after it.
#[verifier::loop_isolation(false)]
#[verifier::rlimit(100)]
fn advance_rope(rope: &mut Vec<(i64, i64)>, d: (i64, i64), Ghost(bound): Ghost<int>)
    requires
        old(rope)@.len() >= 1,
        -1 <= d.0 <= 1 && -1 <= d.1 <= 1,
        0 <= bound <= 0x1000_0000_0000_0000 - 2,
        forall|j: int|
            0 <= j < old(rope)@.len() ==> -bound <= (#[trigger] old(rope)@[j]).0 <= bound && -bound
                <= old(rope)@[j].1 <= bound,
    ensures
        final(rope)@.len() == old(rope)@.len(),
        pmap(final(rope)@) == move_once(pmap(old(rope)@), (d.0 as int, d.1 as int)),
        forall|j: int|
            0 <= j < final(rope)@.len() ==> -(bound + 1) <= (#[trigger] final(rope)@[j]).0 <= bound
                + 1 && -(bound + 1) <= final(rope)@[j].1 <= bound + 1,
{
    let ghost prevmap = pmap(rope@);
    let ghost dm = (d.0 as int, d.1 as int);
    let rope_len = rope.len();
    let h0 = rope[0];
    let nh = (h0.0 + d.0, h0.1 + d.1);
    rope[0] = nh;
    proof {
        lemma_chain_shape((prevmap[0].0 + dm.0, prevmap[0].1 + dm.1), prevmap.drop_first());
        assert(pmap(rope@)[0] == move_once(prevmap, dm)[0]);
        assert(forall|jj: int|
            1 <= jj < rope@.len() ==> #[trigger] pmap(rope@)[jj] == prevmap[jj]);
    }
    let mut j: usize = 1;
    while j < rope_len
        invariant
            1 <= j <= rope_len,
            rope@.len() == rope_len,
            move_once(prevmap, dm).len() == rope_len,
            forall|jj: int|
                0 <= jj < j ==> #[trigger] pmap(rope@)[jj] == move_once(prevmap, dm)[jj],
            forall|jj: int| j <= jj < rope_len ==> #[trigger] pmap(rope@)[jj] == prevmap[jj],
            forall|jj: int|
                0 <= jj < rope@.len() ==> -(bound + 1) <= (#[trigger] rope@[jj]).0 <= bound + 1
                    && -(bound + 1) <= rope@[jj].1 <= bound + 1,
        decreases rope_len - j,
    {
        let ghost before = pmap(rope@);
        proof {
            assert(before[j as int] == prevmap[j as int]);
            assert(before[j - 1] == move_once(prevmap, dm)[j - 1]);
        }
        let prev = rope[j - 1];
        let t = rope[j];
        let np = pull(t, prev);
        rope[j] = np;
        proof {
            assert((t.0 as int, t.1 as int) == before[j as int]);
            assert((prev.0 as int, prev.1 as int) == before[j - 1]);
            assert(move_once(prevmap, dm)[j as int] == pull_s(
                prevmap.drop_first()[j - 1],
                move_once(prevmap, dm)[j - 1],
            ));
            assert(prevmap.drop_first()[j - 1] == prevmap[j as int]);
            assert(pmap(rope@) =~= before.update(j as int, (np.0 as int, np.1 as int)));
            assert(pmap(rope@)[j as int] == move_once(prevmap, dm)[j as int]);
        }
        j = j + 1;
    }
    proof {
        assert(pmap(rope@) =~= move_once(prevmap, dm));
    }
}

/// Records a tail position, keeping the list free of repeats and its set
/// equal to the positions seen so far.
#[verifier::loop_isolation(false)]
fn note_tail(seen: &mut Vec<(i64, i64)>, tail: (i64, i64))
    requires
        pmap(old(seen)@).no_duplicates(),
    ensures
        pmap(final(seen)@).no_duplicates(),
        pmap(final(seen)@).to_set() == pmap(old(seen)@).to_set().insert(
            (tail.0 as int, tail.1 as int),
        ),
{
    let ghost oldseen = pmap(seen@);
    let ghost tm = (tail.0 as int, tail.1 as int);
    let mut found = false;
    let slen = seen.len();
    for si in 0..slen
        invariant
            slen == seen@.len(),
            found <==> exists|k: int|
                0 <= k < si && (#[trigger] seen@[k]).0 == tail.0 && seen@[k].1 == tail.1,
    {
        if seen[si].0 == tail.0 && seen[si].1 == tail.1 {
            found = true;
        }
    }
    if !found {
        seen.push(tail);
        proof {
            assert(pmap(seen@) =~= oldseen.push(tm));
            lemma_push_to_set(oldseen, tm);
            assert forall|k: int| 0 <= k < oldseen.len() implies #[trigger] oldseen[k] != tm by {
                assert(old(seen)@[k].0 != tail.0 || old(seen)@[k].1 != tail.1);
            }
            assert forall|k1: int, k2: int|
                0 <= k1 < k2 < pmap(seen@).len() implies #[trigger] pmap(seen@)[k1] != #[trigger] pmap(
                seen@,
            )[k2] by {
                if k2 < oldseen.len() {
                    assert(oldseen[k1] != oldseen[k2]);
                } else {
                    assert(pmap(seen@)[k2] == tm);
                    assert(oldseen[k1] != tm);
                }
            }
        }
    } else {
        proof {
            let k = choose|k: int|
                0 <= k < seen@.len() && (#[trigger] seen@[k]).0 == tail.0 && seen@[k].1 == tail.1;
            assert(oldseen[k] == tm);
            assert(oldseen.to_set().contains(tm));
            assert(pmap(seen@).to_set() =~= oldseen.to_set().insert(tm));
        }
    }
}

/// Distinct tail positions for a rope of `rope_len` knots.
#[verifier::loop_isolation(false)]
#[verifier::rlimit(100)]
pub fn stretch(input: &str, rope_len: usize) -> (r: usize)
    requires
        input.spec_bytes().len() <= 0xff_ffff,
        rope_len >= 1,
    ensures
        r == spec_stretch(input.spec_bytes(), rope_len as int),
{
    let ls = lines_of(input);
    let ghost vl = views(ls@);
    let mut rope: Vec<(i64, i64)> = Vec::new();
    for z in 0..rope_len
        invariant
            rope@.len() == z,
            forall|j: int| 0 <= j < z ==> #[trigger] rope@[j] == (0i64, 0i64),
    {
        rope.push((0, 0));
    }
    let mut seen: Vec<(i64, i64)> = Vec::new();
    let ghost mut tails: Seq<(int, int)> = Seq::empty();
    let ghost mut sd: int = 0;
    let end = ls.len();
    proof {
        crate::util::lemma_spec_lines_count(input.spec_bytes());
        assert(pmap(rope@) =~= init_rope(rope_len as int));
        assert(pmap(seen@) =~= Seq::<(int, int)>::empty());
        assert(pmap(seen@).to_set() =~= tails.to_set());
    }
    for li in 0..end
        invariant
            end == vl.len(),
            vl.len() <= 0x100_0000 + 1,
            rope@.len() == rope_len,
            0 <= sd <= (li as int) * 0x8000_0000,
            forall|j: int|
                0 <= j < rope@.len() ==> -sd <= (#[trigger] rope@[j]).0 <= sd && -sd <= rope@[j].1
                    <= sd,
            (pmap(rope@), tails) == sim_lines(
                vl,
                li as int,
                init_rope(rope_len as int),
                Seq::empty(),
            ),
            pmap(seen@).no_duplicates(),
            pmap(seen@).to_set() == tails.to_set(),
    {
        let line = &ls[li];
        let mut dir: (i64, i64) = (0, 0);
        let mut count: i64 = 0;
        let mut ok = false;
        if line.len() >= 2 && line[1] == 32u8 && line[0] != 32u8 {
            proof {
                assert(line@.drop_first()[0] == line@[1]);
                assert(first_sep(line@.drop_first(), 32u8, 32u8) == 0);
                assert(first_sep(line@, 32u8, 32u8) == 1);
            }
            let rest = vstd::slice::slice_subrange(line.as_slice(), 2, line.len());
            proof {
                assert(rest@ =~= line@.skip(2));
            }
            match crate::util::parse_i64(rest) {
                Some(n) => {
                    if -0x8000_0000i64 <= n && n <= 0x7fff_ffffi64 {
                        let d0 = line[0];
                        if d0 == 85u8 {
                            dir = (0, 1);
                            ok = true;
                        } else if d0 == 68u8 {
                            dir = (0, -1);
                            ok = true;
                        } else if d0 == 76u8 {
                            dir = (-1, 0);
                            ok = true;
                        } else if d0 == 82u8 {
                            dir = (1, 0);
                            ok = true;
                        }
                        count = n;
                    }
                },
                None => {},
            }
        } else {
            proof {
                crate::util::lemma_first_sep_range(line@, 32u8, 32u8);
                crate::util::lemma_first_sep_hit(line@, 32u8, 32u8);
            }
        }
        proof {
            assert(ok ==> line_step(vl[li as int]) == Some(
                ((dir.0 as int, dir.1 as int), count as int),
            ));
            assert(!ok ==> line_step(vl[li as int]) is None);
        }
        if ok {
            let ghost rope0 = pmap(rope@);
            let ghost tails0 = tails;
            let mut step: i64 = 0;
            while step < count
                invariant
                    0 <= step,
                    step <= (if count > 0 {
                        count as int
                    } else {
                        0int
                    }),
                    -0x8000_0000 <= count <= 0x7fff_ffff,
                    rope@.len() == rope_len,
                    li < end,
                    -1 <= dir.0 <= 1 && -1 <= dir.1 <= 1,
                    0 <= sd <= (li as int) * 0x8000_0000 + step,
                    forall|j: int|
                        0 <= j < rope@.len() ==> -sd <= (#[trigger] rope@[j]).0 <= sd && -sd
                            <= rope@[j].1 <= sd,
                    run_steps(rope0, (dir.0 as int, dir.1 as int), count as int, tails0)
                        == run_steps(
                        pmap(rope@),
                        (dir.0 as int, dir.1 as int),
                        count - step,
                        tails,
                    ),
                    pmap(seen@).no_duplicates(),
                    pmap(seen@).to_set() == tails.to_set(),
                decreases count - step,
            {
                let ghost prevmap = pmap(rope@);
                let ghost dm = (dir.0 as int, dir.1 as int);
                advance_rope(&mut rope, dir, Ghost(sd));
                proof {
                    sd = sd + 1;
                }
                let tail = rope[rope_len - 1];
                proof {
                    assert(pmap(rope@).last() == (tail.0 as int, tail.1 as int));
                    assert(run_steps(prevmap, dm, count - step, tails) == run_steps(
                        pmap(rope@),
                        dm,
                        count - step - 1,
                        tails.push((tail.0 as int, tail.1 as int)),
                    ));
                }
                let ghost tails0l = tails;
                let ghost tm = (tail.0 as int, tail.1 as int);
                proof {
                    tails = tails.push(tm);
                    lemma_push_to_set(tails0l, tm);
                }
                note_tail(&mut seen, tail);
                step = step + 1;
            }
            proof {
                assert((pmap(rope@), tails) == sim_lines(
                    vl,
                    li as int + 1,
                    init_rope(rope_len as int),
                    Seq::empty(),
                ));
            }
        }
    }
    proof {
        pmap(seen@).unique_seq_to_set();
        assert(vl =~= spec_lines(input.spec_bytes()));
    }
    seen.len()
}

/// Distinct tail positions for ropes of 2 and 10 knots, as "`p1` `p2`".
pub fn run(input: &str) -> (r: Result<String, crate::InputError>)
    requires
        input.spec_bytes().len() <= 0xff_ffff,
    ensures
        r is Ok,
        r->Ok_0@ == dec_digits(spec_stretch(input.spec_bytes(), 2)) + seq![' '] + dec_digits(
            spec_stretch(input.spec_bytes(), 10),
        ),
{
    let p1 = stretch(input, 2);
    let p2 = stretch(input, 10);
    Ok(two_answers(u64_string(p1 as u64), u64_string(p2 as u64)))
}

} // verus!
