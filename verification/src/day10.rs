//! Cathode-ray tube: a register driven by `noop` and `addx` instructions.
//! Sum the signal strengths at cycles 20, 60, 100, ... and draw the screen,
//! lighting a pixel when the sprite covers the beam.

use vstd::prelude::*;
use vstd::string::StringSliceAdditionalSpecFns;

use crate::util::{
    dec_text, is_signed, lines_of, push_char, signed_val, spec_lines, spec_split, split_bytes,
    views,
};

verus! {

/// Machine state while the program runs: cycles spent, register value,
/// banked signal strength, and the pixels drawn so far.
pub struct CrtState {
    pub cycles: int,
    pub x: int,
    pub sig: int,
    pub pix: Seq<bool>,
}

/// The signal contribution of the cycle that starts after `i` cycles.
pub open spec fn sig_add(i: int, x: int) -> int {
    if (i + 1) % 40 == 20 {
        (i + 1) * x
    } else {
        0
    }
}

/// One cycle: bank the signal, draw one pixel, spend one cycle.
pub open spec fn tick(s: CrtState) -> CrtState {
    CrtState {
        cycles: s.cycles + 1,
        x: s.x,
        sig: s.sig + sig_add(s.cycles, s.x),
        pix: s.pix.push(-1 <= s.cycles % 40 - s.x <= 1),
    }
}

/// The `addx` argument of a line, if it is one.
pub open spec fn addx_of(l: Seq<u8>) -> Option<int> {
    let parts = spec_split(l, 32u8, 32u8);
    if parts[0] == seq![97u8, 100u8, 100u8, 120u8] && parts.len() == 2 && is_signed(parts[1])
        && -0x8000_0000 <= signed_val(parts[1]) <= 0x7fff_ffff {
        Some(signed_val(parts[1]))
    } else {
        None
    }
}

/// The line is a `noop` (and not an `addx`).
pub open spec fn is_noop(l: Seq<u8>) -> bool {
    let parts = spec_split(l, 32u8, 32u8);
    parts[0] != seq![97u8, 100u8, 100u8, 120u8] && parts[0] == seq![110u8, 111u8, 111u8, 112u8]
}

/// The machine after one line of the program.
pub open spec fn apply_line(s: CrtState, l: Seq<u8>) -> CrtState {
    let parts = spec_split(l, 32u8, 32u8);
    if parts[0] == seq![97u8, 100u8, 100u8, 120u8] {
        match addx_of(l) {
            Some(v) => {
                let s2 = tick(tick(s));
                CrtState { cycles: s2.cycles, x: s2.x + v, sig: s2.sig, pix: s2.pix }
            },
            None => s,
        }
    } else if is_noop(l) {
        tick(s)
    } else {
        s
    }
}

/// The machine after the first `k` lines.
pub open spec fn sim_to(lines: Seq<Seq<u8>>, k: int) -> CrtState
    decreases k,
{
    if k <= 0 {
        CrtState { cycles: 0, x: 1, sig: 0, pix: Seq::empty() }
    } else {
        apply_line(sim_to(lines, k - 1), lines[k - 1])
    }
}

/// The pixels as text: a newline before each row of forty.
pub open spec fn render_screen(pix: Seq<bool>, on: char, off: char) -> Seq<char>
    decreases pix.len(),
{
    if pix.len() == 0 {
        Seq::empty()
    } else {
        render_screen(pix.drop_last(), on, off) + (if (pix.len() - 1) % 40 == 0 {
            seq!['\n']
        } else {
            Seq::empty()
        }) + seq![
            if pix.last() {
                on
            } else {
                off
            },
        ]
    }
}

/// Whether the segment is exactly the four given bytes.
fn eq4(v: &Vec<u8>, a: u8, b: u8, c: u8, d: u8) -> (r: bool)
    ensures
        r == (v@ == seq![a, b, c, d]),
{
    if v.len() == 4 && v[0] == a && v[1] == b && v[2] == c && v[3] == d {
        proof {
            assert(v@ =~= seq![a, b, c, d]);
        }
        true
    } else {
        proof {
            if v@ == seq![a, b, c, d] {
                assert(v@.len() == 4);
                assert(false);
            }
        }
        false
    }
}

/// Runs the program, returning the banked signal strength and the screen.
#[verifier::loop_isolation(false)]
#[verifier::rlimit(100)]
pub fn sim(input: &str, on: char, off: char) -> (r: (i128, String))
    requires
        input.spec_bytes().len() <= 0xff_ffff,
    ensures
        ({
            let fin = sim_to(spec_lines(input.spec_bytes()), spec_lines(input.spec_bytes()).len() as int);
            r.0 == fin.sig && r.1@ == render_screen(fin.pix, on, off)
        }),
{
    let ls = lines_of(input);
    let ghost vl = views(ls@);
    let mut cycles: u64 = 0;
    let mut x: i128 = 1;
    let mut sig: i128 = 0;
    let mut screen = String::new();
    let ghost mut pix: Seq<bool> = Seq::empty();
    let end = ls.len();
    proof {
        crate::util::lemma_spec_lines_count(input.spec_bytes());
        assert(screen@ =~= render_screen(pix, on, off));
    }
    for li in 0..end
        invariant
            end == vl.len(),
            vl.len() <= 0x100_0000 + 1,
            cycles <= 2 * (li as int),
            pix.len() == cycles as int,
            -0x100_0000_0000_0000 <= x <= 0x100_0000_0000_0000,
            x - 1 <= (li as int) * 0x8000_0000 && 1 - x <= (li as int) * 0x8000_0000,
            -((cycles as int) * 0x4_0000_0000_0000_0000_0000_0000) <= sig <= (cycles as int)
                * 0x4_0000_0000_0000_0000_0000_0000,
            (CrtState { cycles: cycles as int, x: x as int, sig: sig as int, pix }) == sim_to(
                vl,
                li as int,
            ),
            screen@ == render_screen(pix, on, off),
    {
        let line = &ls[li];
        let parts = split_bytes(line.as_slice(), 32u8, 32u8);
        proof {
            crate::util::lemma_first_sep_range(line@, 32u8, 32u8);
            if crate::util::first_sep(line@, 32u8, 32u8) < 0 {
                assert(views(parts@).len() >= 1);
            } else {
                assert(views(parts@).len() >= 1);
            }
            assert(views(parts@)[0] == parts@[0]@);
            if parts@.len() >= 2 {
                assert(views(parts@)[1] == parts@[1]@);
            }
        }
        let is_addx = eq4(&parts[0], 97, 100, 100, 120);
        let mut addx_arg: i64 = 0;
        let mut do_addx = false;
        if is_addx && parts.len() == 2 {
            match crate::util::parse_i64(parts[1].as_slice()) {
                Some(v) => {
                    if -0x8000_0000i64 <= v && v <= 0x7fff_ffffi64 {
                        addx_arg = v;
                        do_addx = true;
                    }
                },
                None => {},
            }
        }
        let ghost before = CrtState { cycles: cycles as int, x: x as int, sig: sig as int, pix };
        if do_addx {
            proof {
                assert(addx_of(vl[li as int]) == Some(addx_arg as int));
            }
            let mut t: usize = 0;
            while t < 2
                invariant
                    t <= 2,
                    cycles as int == before.cycles + t,
                    pix.len() == cycles as int,
                    x as int == before.x,
                    (CrtState { cycles: cycles as int, x: x as int, sig: sig as int, pix }) == (
                    if t == 0 {
                        before
                    } else if t == 1 {
                        tick(before)
                    } else {
                        tick(tick(before))
                    }),
                    -((cycles as int) * 0x4_0000_0000_0000_0000_0000_0000) <= sig <= (
                    cycles as int) * 0x4_0000_0000_0000_0000_0000_0000,
                    screen@ == render_screen(pix, on, off),
                decreases 2 - t,
            {
                let c = (cycles % 40) as i128;
                if (cycles + 1) % 40 == 20 {
                    proof {
                        vstd::arithmetic::mul::lemma_mul_upper_bound(
                            cycles as int + 1,
                            0x2_0000_0002,
                            (if x >= 0 {
                                x as int
                            } else {
                                -(x as int)
                            }),
                            0x100_0000_0000_0000,
                        );
                        assert((cycles as int + 1) * (x as int) <= (cycles as int + 1) * (
                        if x >= 0 {
                            x as int
                        } else {
                            -(x as int)
                        })) by (nonlinear_arith)
                            requires
                                cycles as int + 1 >= 0,
                        ;
                        assert(-((cycles as int + 1) * (if x >= 0 {
                            x as int
                        } else {
                            -(x as int)
                        })) <= (cycles as int + 1) * (x as int)) by (nonlinear_arith)
                            requires
                                cycles as int + 1 >= 0,
                        ;
                    }
                    sig = sig + (cycles as i128 + 1) * x;
                }
                if c == 0 {
                    push_char(&mut screen, '\n');
                }
                let lit = -1 <= c - x && c - x <= 1;
                push_char(&mut screen, if lit {
                    on
                } else {
                    off
                });
                proof {
                    let ghost oldpix = pix;
                    pix = pix.push(-1 <= (cycles as int) % 40 - x <= 1);
                    assert(pix.drop_last() =~= oldpix);
                    assert(screen@ =~= render_screen(pix, on, off));
                }
                cycles = cycles + 1;
                t = t + 1;
            }
            x = x + addx_arg as i128;
            proof {
                assert(CrtState { cycles: cycles as int, x: x as int, sig: sig as int, pix }
                    == apply_line(before, vl[li as int]));
            }
        } else {
            let is_nop = eq4(&parts[0], 110, 111, 111, 112);
            proof {
                if is_addx {
                    assert(addx_of(vl[li as int]) is None);
                    assert(apply_line(before, vl[li as int]) == before);
                } else if is_nop {
                    assert(is_noop(vl[li as int]));
                } else {
                    assert(apply_line(before, vl[li as int]) == before);
                }
            }
            if !is_addx && is_nop {
                let c = (cycles % 40) as i128;
                if (cycles + 1) % 40 == 20 {
                    proof {
                        vstd::arithmetic::mul::lemma_mul_upper_bound(
                            cycles as int + 1,
                            0x2_0000_0002,
                            (if x >= 0 {
                                x as int
                            } else {
                                -(x as int)
                            }),
                            0x100_0000_0000_0000,
                        );
                        assert((cycles as int + 1) * (x as int) <= (cycles as int + 1) * (
                        if x >= 0 {
                            x as int
                        } else {
                            -(x as int)
                        })) by (nonlinear_arith)
                            requires
                                cycles as int + 1 >= 0,
                        ;
                        assert(-((cycles as int + 1) * (if x >= 0 {
                            x as int
                        } else {
                            -(x as int)
                        })) <= (cycles as int + 1) * (x as int)) by (nonlinear_arith)
                            requires
                                cycles as int + 1 >= 0,
                        ;
                    }
                    sig = sig + (cycles as i128 + 1) * x;
                }
                if c == 0 {
                    push_char(&mut screen, '\n');
                }
                let lit = -1 <= c - x && c - x <= 1;
                push_char(&mut screen, if lit {
                    on
                } else {
                    off
                });
                proof {
                    let ghost oldpix = pix;
                    pix = pix.push(-1 <= (cycles as int) % 40 - x <= 1);
                    assert(pix.drop_last() =~= oldpix);
                    assert(screen@ =~= render_screen(pix, on, off));
                    assert((CrtState {
                        cycles: cycles as int + 1,
                        x: x as int,
                        sig: sig as int,
                        pix,
                    }) == tick(before));
                }
                cycles = cycles + 1;
            }
        }
    }
    proof {
        assert(vl =~= spec_lines(input.spec_bytes()));
    }
    (sig, screen)
}

/// The banked signal strength of the whole program.
pub fn signal_strength(input: &str) -> (r: i128)
    requires
        input.spec_bytes().len() <= 0xff_ffff,
    ensures
        r == sim_to(spec_lines(input.spec_bytes()), spec_lines(input.spec_bytes()).len() as int).sig,
{
    let (sig, _screen) = sim(input, '#', '.');
    sig
}

/// The rendered screen with the given lit and dark pixel characters.
pub fn crt(input: &str, on: char, off: char) -> (r: String)
    requires
        input.spec_bytes().len() <= 0xff_ffff,
    ensures
        r@ == render_screen(
            sim_to(spec_lines(input.spec_bytes()), spec_lines(input.spec_bytes()).len() as int).pix,
            on,
            off,
        ),
{
    let (_sig, screen) = sim(input, on, off);
    screen
}

/// Signal strength and screen as one answer string.
pub fn run(input: &str) -> (r: Result<String, crate::InputError>)
    requires
        input.spec_bytes().len() <= 0xff_ffff,
    ensures
        r is Ok,
        ({
            let fin = sim_to(spec_lines(input.spec_bytes()), spec_lines(input.spec_bytes()).len() as int);
            r->Ok_0@ == dec_text(fin.sig) + render_screen(fin.pix, '#', ' ')
        }),
{
    let (sig, screen) = sim(input, '#', ' ');
    let mut out = crate::util::i128_string(sig);
    out.append(screen.as_str());
    Ok(out)
}

} // verus!
