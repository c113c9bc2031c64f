//! Supply stacks: a crate drawing followed by `move n from a to b` lines.
//! Report the top crate of every stack after moving crates one at a time,
//! and after moving them in blocks.

use vstd::prelude::*;
use vstd::string::StringSliceAdditionalSpecFns;

use crate::util::{
    lines_of, nums_within, parse_u64, push_char, spec_lines, spec_split, split_bytes, two_answers,
    views,
};

verus! {

/// The line begins with the given bytes.
pub open spec fn starts_with(l: Seq<u8>, p: Seq<u8>) -> bool {
    l.len() >= p.len() && l.take(p.len() as int) == p
}

/// The stack-number header that ends the crate drawing.
pub open spec fn header() -> Seq<u8> {
    seq![32u8, 49u8, 32u8, 32u8, 32u8, 50u8, 32u8, 32u8, 32u8, 51u8, 32u8]
}

/// The word `move`.
pub open spec fn move_kw() -> Seq<u8> {
    seq![109u8, 111u8, 118u8, 101u8]
}

/// The tokens at odd positions of the line split at spaces.
pub open spec fn odd_parts(l: Seq<u8>) -> Seq<Seq<u8>> {
    let parts = spec_split(l, 32u8, 32u8);
    Seq::new((parts.len() / 2) as nat, |i: int| parts[2 * i + 1])
}

/// The rearrangement of a `move` line: the first three numbers among its
/// odd tokens.
pub open spec fn rearr(l: Seq<u8>) -> Option<(int, int, int)> {
    let ns = nums_within(odd_parts(l), usize::MAX as int);
    if ns.len() >= 3 {
        Some((ns[0], ns[1], ns[2]))
    } else {
        None
    }
}

/// One pass over the input: drawing lines until the header, then the
/// parsed `move` lines.
pub open spec fn scan(lines: Seq<Seq<u8>>, k: int) -> (bool, Seq<Seq<u8>>, Seq<(int, int, int)>)
    decreases k,
{
    if k <= 0 {
        (true, Seq::empty(), Seq::empty())
    } else {
        let prev = scan(lines, k - 1);
        let l = lines[k - 1];
        if starts_with(l, header()) {
            (false, prev.1, prev.2)
        } else if prev.0 {
            (true, prev.1.push(l), prev.2)
        } else if starts_with(l, move_kw()) && rearr(l) is Some {
            (false, prev.1, prev.2.push(rearr(l)->0))
        } else {
            prev
        }
    }
}

/// Stacks grown to hold at least `m` entries.
pub open spec fn ensure(stks: Seq<Seq<u8>>, m: int) -> Seq<Seq<u8>> {
    if stks.len() >= m {
        stks
    } else {
        stks + Seq::new((m - stks.len()) as nat, |q: int| Seq::<u8>::empty())
    }
}

/// A crate letter pushed onto stack `idx`, growing the stacks as needed.
pub open spec fn push_at(stks: Seq<Seq<u8>>, idx: int, c: u8) -> Seq<Seq<u8>> {
    let s = ensure(stks, idx + 1);
    s.update(idx, s[idx].push(c))
}

/// The crates of one drawing line added: positions 1, 5, 9, ... hold the
/// letters, blanks are gaps.
pub open spec fn line_add(stks: Seq<Seq<u8>>, l: Seq<u8>, i: int) -> Seq<Seq<u8>>
    decreases i,
{
    if i <= 0 {
        stks
    } else {
        let s2 = line_add(stks, l, i - 1);
        if (i - 1) % 4 == 1 && l[i - 1] != 32u8 {
            push_at(s2, (i - 1) / 4, l[i - 1])
        } else {
            s2
        }
    }
}

/// The stacks built from the drawing, read bottom line first.
pub open spec fn build(stkv: Seq<Seq<u8>>, k: int) -> Seq<Seq<u8>>
    decreases k,
{
    if k <= 0 {
        Seq::empty()
    } else {
        line_add(build(stkv, k - 1), stkv[stkv.len() - k], stkv[stkv.len() - k].len() as int)
    }
}

/// Moving crates one at a time; a pull from an empty stack does nothing.
pub open spec fn rep_move(stks: Seq<Seq<u8>>, n: int, fi: int, ti: int) -> Seq<Seq<u8>>
    decreases n,
{
    if n <= 0 {
        stks
    } else {
        let prev = rep_move(stks, n - 1, fi, ti);
        if prev[fi].len() == 0 {
            prev
        } else {
            let c = prev[fi].last();
            let s1 = prev.update(fi, prev[fi].drop_last());
            s1.update(ti, s1[ti].push(c))
        }
    }
}

/// One rearrangement applied; out-of-range stack names are passed over.
pub open spec fn apply(stks: Seq<Seq<u8>>, mv: (int, int, int), part2: bool) -> Seq<Seq<u8>> {
    let (n, f, t) = mv;
    if f < 1 || t < 1 || f > stks.len() || t > stks.len() {
        stks
    } else if !part2 {
        rep_move(stks, n, f - 1, t - 1)
    } else if f == t {
        stks
    } else {
        let l0 = stks[f - 1].len() as int;
        let si = if n < l0 {
            l0 - n
        } else {
            0
        };
        let moved = stks[f - 1].skip(si);
        stks.update(t - 1, stks[t - 1] + moved).update(f - 1, stks[f - 1].take(si))
    }
}

/// All rearrangements applied in order.
pub open spec fn sim_moves(stks: Seq<Seq<u8>>, mvs: Seq<(int, int, int)>, k: int, part2: bool) -> Seq<
    Seq<u8>,
>
    decreases k,
{
    if k <= 0 {
        stks
    } else {
        apply(sim_moves(stks, mvs, k - 1, part2), mvs[k - 1], part2)
    }
}

/// The top crate of every non-empty stack, in stack order.
pub open spec fn tops(stks: Seq<Seq<u8>>, k: int) -> Seq<char>
    decreases k,
{
    if k <= 0 {
        Seq::empty()
    } else {
        tops(stks, k - 1) + if stks[k - 1].len() > 0 {
            seq![stks[k - 1].last() as char]
        } else {
            Seq::empty()
        }
    }
}

/// The answer of one part over the parsed input.
pub open spec fn part_tops(input: Seq<u8>, part2: bool) -> Seq<char> {
    let lines = spec_lines(input);
    let sc = scan(lines, lines.len() as int);
    let stks = build(sc.1, sc.1.len() as int);
    let fin = sim_moves(stks, sc.2, sc.2.len() as int, part2);
    tops(fin, fin.len() as int)
}

/// Whether the line begins with the given bytes.
#[verifier::loop_isolation(false)]
fn starts_with_exec(l: &Vec<u8>, p: &[u8]) -> (r: bool)
    ensures
        r == starts_with(l@, p@),
{
    let plen = p.len();
    if l.len() < plen {
        proof {
            assert(!starts_with(l@, p@));
        }
        return false;
    }
    for i in 0..plen
        invariant
            plen <= l@.len(),
            forall|k: int| 0 <= k < i ==> l@[k] == p@[k],
    {
        if l[i] != p[i] {
            proof {
                assert(l@.take(plen as int)[i as int] != p@[i as int]);
            }
            return false;
        }
    }
    proof {
        assert(l@.take(plen as int) =~= p@);
    }
    true
}

/// The first three numbers among the odd tokens of a `move` line.
#[verifier::loop_isolation(false)]
fn parse_rearr(l: &Vec<u8>) -> (r: Option<(usize, usize, usize)>)
    ensures
        r is Some <==> rearr(l@) is Some,
        r is Some ==> {
            let (n, f, t) = rearr(l@)->0;
            (r->0).0 == n && (r->0).1 == f && (r->0).2 == t
        },
{
    let parts = split_bytes(l.as_slice(), 32u8, 32u8);
    let plen = parts.len();
    let mut ns: Vec<u64> = Vec::new();
    proof {
        assert(ns@.map_values(|x: u64| x as int) =~= nums_within(
            odd_parts(l@).take(0),
            usize::MAX as int,
        ));
    }
    let mut i: usize = 1;
    while i < plen
        invariant
            plen == parts@.len(),
            1 <= i,
            i % 2 == 1,
            i <= plen + 1,
            ns@.map_values(|x: u64| x as int) == nums_within(
                odd_parts(l@).take(((i - 1) / 2) as int),
                usize::MAX as int,
            ),
            forall|k: int| 0 <= k < ns@.len() ==> (#[trigger] ns@[k]) <= usize::MAX as u64,
        decreases plen + 2 - i,
    {
        let ghost k = ((i - 1) / 2) as int;
        proof {
            assert(odd_parts(l@)[k] == views(parts@)[i as int]);
            assert(views(parts@)[i as int] == parts@[i as int]@);
            assert(odd_parts(l@).take(k + 1).drop_last() =~= odd_parts(l@).take(k));
            assert(odd_parts(l@).take(k + 1).last() == odd_parts(l@)[k]);
        }
        let ghost before = ns@.map_values(|x: u64| x as int);
        match parse_u64(parts[i].as_slice()) {
            Some(v) => {
                if v <= usize::MAX as u64 {
                    ns.push(v);
                    proof {
                        assert(ns@.map_values(|x: u64| x as int) =~= before.push(v as int));
                    }
                }
            },
            None => {},
        }
        i = i + 2;
    }
    proof {
        assert(((i - 1) / 2) as int >= odd_parts(l@).len());
        assert(odd_parts(l@).take(odd_parts(l@).len() as int) =~= odd_parts(l@));
        assert(odd_parts(l@).take(((i - 1) / 2) as int) =~= odd_parts(l@));
    }
    if ns.len() >= 3 {
        Some((ns[0] as usize, ns[1] as usize, ns[2] as usize))
    } else {
        None
    }
}

/// Runs the rearrangement procedure and reads the stack tops.
#[verifier::loop_isolation(false)]
#[verifier::rlimit(100)]
pub fn sim(input: &str, part2: bool) -> (r: String)
    ensures
        r@ == part_tops(input.spec_bytes(), part2),
{
    let ls = lines_of(input);
    let ghost vl = views(ls@);
    let mut pref = true;
    let mut stkv: Vec<usize> = Vec::new();
    let ghost mut stkv_seq: Seq<Seq<u8>> = Seq::empty();
    let mut moves: Vec<(usize, usize, usize)> = Vec::new();
    let end = ls.len();
    let hdr: [u8; 11] = [32, 49, 32, 32, 32, 50, 32, 32, 32, 51, 32];
    let mkw: [u8; 4] = [109, 111, 118, 101];
    proof {
        assert(hdr@ =~= header());
        assert(mkw@ =~= move_kw());
    }
    for li in 0..end
        invariant
            end == vl.len(),
            ({
                let sc = scan(vl, li as int);
                &&& pref == sc.0
                &&& stkv_seq == sc.1
                &&& moves@.map_values(|m: (usize, usize, usize)| (m.0 as int, m.1 as int, m.2 as int))
                    == sc.2
            }),
            stkv@.len() == stkv_seq.len(),
            forall|k: int|
                0 <= k < stkv@.len() ==> (#[trigger] stkv@[k]) < vl.len() && vl[stkv@[k] as int]
                    == stkv_seq[k],
    {
        let line = &ls[li];
        let ghost sc_pre = scan(vl, li as int);
        if starts_with_exec(line, hdr.as_slice()) {
            pref = false;
        } else if pref {
            stkv.push(li);
            proof {
                stkv_seq = stkv_seq.push(vl[li as int]);
            }
        } else if starts_with_exec(line, mkw.as_slice()) {
            match parse_rearr(line) {
                Some(mv) => {
                    let ghost beforem = moves@.map_values(
                        |m: (usize, usize, usize)| (m.0 as int, m.1 as int, m.2 as int),
                    );
                    moves.push(mv);
                    proof {
                        assert(moves@.map_values(
                            |m: (usize, usize, usize)| (m.0 as int, m.1 as int, m.2 as int),
                        ) =~= beforem.push((mv.0 as int, mv.1 as int, mv.2 as int)));
                    }
                },
                None => {},
            }
        }
    }
    // build the stacks from the drawing, bottom line first
    let mut stk: Vec<Vec<u8>> = Vec::new();
    let ghost stkvv = stkv_seq;
    let slen = stkv.len();
    for k in 0..slen
        invariant
            slen == stkv@.len() == stkvv.len(),
            stkvv == stkv_seq,
            forall|kk: int|
                0 <= kk < stkv@.len() ==> (#[trigger] stkv@[kk]) < vl.len() && vl[stkv@[kk] as int]
                    == stkvv[kk],
            views(ls@) == vl,
            views(stk@) == build(stkvv, k as int),
    {
        let line = &ls[stkv[slen - 1 - k]];
        proof {
            assert(line@ == stkvv[stkvv.len() - (k + 1)]);
        }
        let llen = line.len();
        for i in 0..llen
            invariant
                llen == line@.len(),
                line@ == stkvv[stkvv.len() - (k + 1)],
                views(stk@) == line_add(build(stkvv, k as int), line@, i as int),
        {
            if i % 4 == 1 && line[i] != 32u8 {
                let idx = i / 4;
                let ghost target = line_add(build(stkvv, k as int), line@, i as int);
                while stk.len() <= idx
                    invariant
                        target.len() <= stk@.len(),
                        views(stk@) == ensure(target, stk@.len() as int),
                        views(stk@) == target || stk@.len() <= idx + 1,
                    decreases idx + 1 - stk@.len(),
                {
                    let ghost beforestk = views(stk@);
                    stk.push(Vec::new());
                    proof {
                        assert(views(stk@) =~= beforestk.push(Seq::<u8>::empty()));
                        lemma_ensure_grow(target, beforestk);
                    }
                }
                proof {
                    if views(stk@) == target {
                        assert(views(stk@) =~= ensure(target, idx as int + 1));
                    } else {
                        assert(stk@.len() == idx + 1);
                        assert(views(stk@) =~= ensure(target, idx as int + 1));
                    }
                }
                let ghost beforepush = views(stk@);
                let c = line[i];
                let st = &mut stk[idx];
                st.push(c);
                proof {
                    assert(views(stk@) =~= beforepush.update(idx as int, beforepush[idx as int].push(c)));
                    assert(views(stk@) =~= line_add(build(stkvv, k as int), line@, i as int + 1));
                }
            }
        }
        proof {
            assert(views(stk@) =~= build(stkvv, k as int + 1));
        }
    }
    let ghost sc = scan(vl, vl.len() as int);
    let ghost mvs = moves@.map_values(|m: (usize, usize, usize)| (m.0 as int, m.1 as int, m.2 as int));
    // apply the moves
    let mlen = moves.len();
    let stklen0 = stk.len();
    for mi in 0..mlen
        invariant
            mlen == mvs.len(),
            mvs == moves@.map_values(
                |m: (usize, usize, usize)| (m.0 as int, m.1 as int, m.2 as int),
            ),
            views(stk@) == sim_moves(build(sc.1, sc.1.len() as int), mvs, mi as int, part2),
    {
        let (n, f, t) = moves[mi];
        let cnt = stk.len();
        if f >= 1 && t >= 1 && f <= cnt && t <= cnt {
            if !part2 {
                let ghost base = views(stk@);
                let mut z: usize = 0;
                while z < n
                    invariant
                        z <= n,
                        1 <= f <= stk@.len() && 1 <= t <= stk@.len(),
                        stk@.len() == base.len(),
                        views(stk@) == rep_move(base, z as int, f - 1, t - 1),
                    decreases n - z,
                {
                    let ghost prevv = views(stk@);
                    let flen = stk[f - 1].len();
                    if flen > 0 {
                        let c = stk[f - 1][flen - 1];
                        let sf = &mut stk[f - 1];
                        sf.pop();
                        proof {
                            assert(views(stk@) =~= prevv.update(f - 1, prevv[f - 1].drop_last()));
                        }
                        let ghost mid = views(stk@);
                        let st = &mut stk[t - 1];
                        st.push(c);
                        proof {
                            assert(views(stk@) =~= mid.update(t - 1, mid[t - 1].push(c)));
                            assert(views(stk@) =~= rep_move(base, z as int + 1, f - 1, t - 1));
                        }
                    } else {
                        proof {
                            assert(views(stk@) =~= rep_move(base, z as int + 1, f - 1, t - 1));
                        }
                    }
                    z = z + 1;
                }
                proof {
                    assert(views(stk@) =~= sim_moves(
                        build(sc.1, sc.1.len() as int),
                        mvs,
                        mi as int + 1,
                        part2,
                    ));
                }
            } else if f != t {
                let ghost base = views(stk@);
                let l0 = stk[f - 1].len();
                let si = if n < l0 {
                    l0 - n
                } else {
                    0
                };
                let mut z = si;
                while z < l0
                    invariant
                        si <= z <= l0,
                        1 <= f <= stk@.len() && 1 <= t <= stk@.len(),
                        f != t,
                        l0 == base[f - 1].len(),
                        stk@.len() == base.len(),
                        views(stk@) == base.update(
                            t - 1,
                            base[t - 1] + base[f - 1].subrange(si as int, z as int),
                        ),
                    decreases l0 - z,
                {
                    let ghost prevv = views(stk@);
                    proof {
                        assert(views(stk@)[f - 1] == base[f - 1]);
                        assert(views(stk@)[f - 1] == stk@[f - 1]@);
                    }
                    let c = stk[f - 1][z];
                    let st = &mut stk[t - 1];
                    st.push(c);
                    proof {
                        assert(views(stk@) =~= prevv.update(t - 1, prevv[t - 1].push(c)));
                        assert(base[f - 1].subrange(si as int, z as int).push(c) =~= base[f
                            - 1].subrange(si as int, z as int + 1));
                        assert(views(stk@) =~= base.update(
                            t - 1,
                            base[t - 1] + base[f - 1].subrange(si as int, z as int + 1),
                        ));
                    }
                    z = z + 1;
                }
                let ghost prevv = views(stk@);
                let sf = &mut stk[f - 1];
                sf.truncate(si);
                proof {
                    assert(views(stk@) =~= prevv.update(f - 1, prevv[f - 1].take(si as int)));
                    assert(base[f - 1].subrange(si as int, l0 as int) =~= base[f - 1].skip(
                        si as int,
                    ));
                    assert(prevv[f - 1].take(si as int) =~= base[f - 1].take(si as int));
                    assert(views(stk@) =~= sim_moves(
                        build(sc.1, sc.1.len() as int),
                        mvs,
                        mi as int + 1,
                        part2,
                    ));
                }
            } else {
                proof {
                    assert(views(stk@) =~= sim_moves(
                        build(sc.1, sc.1.len() as int),
                        mvs,
                        mi as int + 1,
                        part2,
                    ));
                }
            }
        } else {
            proof {
                assert(views(stk@) =~= sim_moves(
                    build(sc.1, sc.1.len() as int),
                    mvs,
                    mi as int + 1,
                    part2,
                ));
            }
        }
    }
    // read the tops
    let mut out = String::new();
    let cnt = stk.len();
    proof {
        assert(out@ =~= tops(views(stk@), 0));
    }
    for k in 0..cnt
        invariant
            cnt == stk@.len(),
            out@ == tops(views(stk@), k as int),
    {
        let st = &stk[k];
        if st.len() > 0 {
            let c = st[st.len() - 1];
            push_char(&mut out, c as char);
            proof {
                assert(views(stk@)[k as int].last() == c);
                assert(out@ =~= tops(views(stk@), k as int + 1));
            }
        }
    }
    proof {
        assert(views(stk@) =~= sim_moves(
            build(sc.1, sc.1.len() as int),
            mvs,
            mvs.len() as int,
            part2,
        ));
    }
    out
}

proof fn lemma_ensure_grow(target: Seq<Seq<u8>>, cur: Seq<Seq<u8>>)
    requires
        cur.len() >= target.len(),
        cur == ensure(target, cur.len() as int),
    ensures
        cur.push(Seq::<u8>::empty()) == ensure(target, cur.len() as int + 1),
{
    assert(cur.push(Seq::<u8>::empty()) =~= ensure(target, cur.len() as int + 1));
}

/// Stack tops after single-crate moves and after block moves, as
/// "`p1` `p2`".
pub fn run(input: &str) -> (r: Result<String, crate::InputError>)
    ensures
        r is Ok,
        r->Ok_0@ == part_tops(input.spec_bytes(), false) + seq![' '] + part_tops(
            input.spec_bytes(),
            true,
        ),
{
    let p1 = sim(input, false);
    let p2 = sim(input, true);
    Ok(two_answers(p1, p2))
}

} // verus!
