//! Distress-signal packets: nested lists of numbers, one packet per line.
//! Count the pairs already in order, and place two divider packets.
//!
//! Packets live in one arena; a list node only ever points at nodes built
//! before it, which grounds every comparison.

use vstd::prelude::*;
use vstd::string::StringSliceAdditionalSpecFns;

use crate::util::{lines_of, two_answers, u64_string};

verus! {

/// One packet node: a number, or a list of earlier nodes.
pub enum PNode {
    Num(u32),
    List(Vec<usize>),
}

/// All packets of the input in one arena, with one root per packet.
pub struct Packets {
    nodes: Vec<PNode>,
    roots: Vec<usize>,
}

impl Packets {
    /// The arena nodes.
    pub closed spec fn nodes_seq(self) -> Seq<PNode> {
        self.nodes@
    }

    /// The packet roots, in input order.
    pub closed spec fn roots_seq(self) -> Seq<usize> {
        self.roots@
    }

    /// Every list points only at earlier nodes, and every root exists.
    pub open spec fn wf(self) -> bool {
        &&& forall|i: int|
            0 <= i < self.nodes_seq().len() ==> match #[trigger] self.nodes_seq()[i] {
                PNode::Num(_) => true,
                PNode::List(ch) => forall|k: int|
                    0 <= k < ch@.len() ==> (#[trigger] ch@[k]) < i,
            }
        &&& forall|r: int|
            0 <= r < self.roots_seq().len() ==> (#[trigger] self.roots_seq()[r]) < self.nodes_seq().len()
    }

    /// Number of packets.
    pub fn packet_count(&self) -> (r: usize)
        ensures
            r == self.roots_seq().len(),
    {
        self.roots.len()
    }

    /// Number of arena nodes.
    pub fn node_count(&self) -> (r: usize)
        ensures
            r == self.nodes_seq().len(),
    {
        self.nodes.len()
    }
}

/// Three-way order of two nodes: numbers compare as numbers, lists
/// lexicographically, and a number against a list as its singleton list.
pub open spec fn cmp_spec(ns: Seq<PNode>, a: int, b: int) -> int
    decreases a + b, 1int, 0int,
    when a >= 0 && b >= 0
{
    match (ns[a], ns[b]) {
        (PNode::Num(x), PNode::Num(y)) => if x < y {
            -1
        } else if x > y {
            1
        } else {
            0
        },
        (PNode::List(av), PNode::List(bv)) => lex_spec(ns, a, b, av@, bv@, 0),
        (PNode::Num(_), PNode::List(bv)) => {
            if bv@.len() == 0 {
                1
            } else if bv@[0] >= b {
                0
            } else {
                let c = cmp_spec(ns, a, bv@[0] as int);
                if c != 0 {
                    c
                } else if bv@.len() == 1 {
                    0
                } else {
                    -1
                }
            }
        },
        (PNode::List(av), PNode::Num(_)) => {
            if av@.len() == 0 {
                -1
            } else if av@[0] >= a {
                0
            } else {
                let c = cmp_spec(ns, av@[0] as int, b);
                if c != 0 {
                    c
                } else if av@.len() == 1 {
                    0
                } else {
                    1
                }
            }
        },
    }
}

/// Lexicographic order of two child lists from position `k` on.
pub open spec fn lex_spec(ns: Seq<PNode>, a: int, b: int, av: Seq<usize>, bv: Seq<usize>, k: int) -> int
    decreases a + b, 0int, av.len() + bv.len() - k,
    when a >= 0 && b >= 0 && k >= 0
{
    if k >= av.len() || k >= bv.len() {
        if av.len() < bv.len() {
            -1
        } else if av.len() > bv.len() {
            1
        } else {
            0
        }
    } else if av[k] >= a || bv[k] >= b || av.len() + bv.len() < k {
        0
    } else {
        let c = cmp_spec(ns, av[k] as int, bv[k] as int);
        if c != 0 {
            c
        } else {
            lex_spec(ns, a, b, av, bv, k + 1)
        }
    }
}

/// Three-way comparison of two packets in the arena.
pub fn cmp(p: &Packets, a: usize, b: usize) -> (r: i8)
    requires
        p.wf(),
        a < p.nodes_seq().len(),
        b < p.nodes_seq().len(),
    ensures
        r == cmp_spec(p.nodes_seq(), a as int, b as int),
    decreases a + b, 1int, 0int,
{
    let na = &p.nodes[a];
    let nb = &p.nodes[b];
    match (na, nb) {
        (PNode::Num(x), PNode::Num(y)) => {
            if x < y {
                -1
            } else if x > y {
                1
            } else {
                0
            }
        },
        (PNode::List(_), PNode::List(_)) => lex(p, a, b, 0),
        (PNode::Num(_), PNode::List(bv)) => {
            if bv.len() == 0 {
                1
            } else {
                let b0 = bv[0];
                let c = cmp(p, a, b0);
                if c != 0 {
                    c
                } else if bv.len() == 1 {
                    0
                } else {
                    -1
                }
            }
        },
        (PNode::List(av), PNode::Num(_)) => {
            if av.len() == 0 {
                -1
            } else {
                let a0 = av[0];
                let c = cmp(p, a0, b);
                if c != 0 {
                    c
                } else if av.len() == 1 {
                    0
                } else {
                    1
                }
            }
        },
    }
}

/// Lexicographic comparison of two list nodes from child `k` on.
fn lex(p: &Packets, a: usize, b: usize, k: usize) -> (r: i8)
    requires
        p.wf(),
        a < p.nodes_seq().len(),
        b < p.nodes_seq().len(),
        p.nodes_seq()[a as int] is List,
        p.nodes_seq()[b as int] is List,
    ensures
        r == lex_spec(
            p.nodes_seq(),
            a as int,
            b as int,
            p.nodes_seq()[a as int]->List_0@,
            p.nodes_seq()[b as int]->List_0@,
            k as int,
        ),
    decreases a + b, 0int, ({
        let av = p.nodes_seq()[a as int]->List_0@;
        let bv = p.nodes_seq()[b as int]->List_0@;
        av.len() + bv.len() - k
    }),
{
    let av_len = match &p.nodes[a] {
        PNode::List(av) => av.len(),
        PNode::Num(_) => 0,
    };
    let bv_len = match &p.nodes[b] {
        PNode::List(bv) => bv.len(),
        PNode::Num(_) => 0,
    };
    if k >= av_len || k >= bv_len {
        if av_len < bv_len {
            -1
        } else if av_len > bv_len {
            1
        } else {
            0
        }
    } else {
        let ak = match &p.nodes[a] {
            PNode::List(av) => av[k],
            PNode::Num(_) => 0,
        };
        let bk = match &p.nodes[b] {
            PNode::List(bv) => bv[k],
            PNode::Num(_) => 0,
        };
        let c = cmp(p, ak, bk);
        if c != 0 {
            c
        } else {
            lex(p, a, b, k + 1)
        }
    }
}

/// The left packet orders no later than the right one.
pub fn order_ok(p: &Packets, a: usize, b: usize) -> (r: bool)
    requires
        p.wf(),
        a < p.nodes_seq().len(),
        b < p.nodes_seq().len(),
    ensures
        r == (cmp_spec(p.nodes_seq(), a as int, b as int) <= 0),
{
    cmp(p, a, b) <= 0
}

/// The pair starting at root `2i` is already in order.
pub open spec fn pair_ok(ns: Seq<PNode>, roots: Seq<usize>, i: int) -> bool {
    cmp_spec(ns, roots[2 * i] as int, roots[2 * i + 1] as int) <= 0
}

/// Sum of the one-based indices of the pairs in order, over the first `i`
/// pairs.
pub open spec fn pairs_sum(ns: Seq<PNode>, roots: Seq<usize>, i: int) -> int
    decreases i,
{
    if i <= 0 {
        0
    } else {
        pairs_sum(ns, roots, i - 1) + if 2 * (i - 1) + 1 < roots.len() && pair_ok(
            ns,
            roots,
            i - 1,
        ) {
            i
        } else {
            0
        }
    }
}

/// Sum of the one-based indices of the packet pairs already in order.
#[verifier::loop_isolation(false)]
pub fn check_sort(p: &Packets) -> (r: u64)
    requires
        p.wf(),
        p.roots_seq().len() < 0x8000_0000,
    ensures
        r == pairs_sum(p.nodes_seq(), p.roots_seq(), (p.roots_seq().len() + 1) as int / 2),
{
    let total = p.roots.len();
    let npairs = (total + 1) / 2;
    let mut sum: u64 = 0;
    for i in 0..npairs
        invariant
            total == p.roots_seq().len(),
            npairs == (total + 1) as int / 2,
            npairs <= 0x4000_0000,
            sum == pairs_sum(p.nodes_seq(), p.roots_seq(), i as int),
            sum <= (i as int) * 0x8000_0000,
    {
        if 2 * i + 1 < total {
            let ra = p.roots[2 * i];
            let rb = p.roots[2 * i + 1];
            if order_ok(p, ra, rb) {
                sum = sum + (i as u64) + 1;
            }
        }
    }
    sum
}

/// How many packets among the roots order strictly before node `d`.
pub open spec fn count_less(ns: Seq<PNode>, roots: Seq<usize>, d: int, i: int) -> int
    decreases i,
{
    if i <= 0 {
        0
    } else {
        count_less(ns, roots, d, i - 1) + if cmp_spec(ns, roots[i - 1] as int, d) < 0 {
            1int
        } else {
            0int
        }
    }
}

/// The decoder key: the product of the one-based sorted positions of the
/// two divider packets `[[2]]` and `[[6]]` among all packets.
#[verifier::loop_isolation(false)]
#[verifier::rlimit(100)]
pub fn decoder_key(p: Packets) -> (r: u64)
    requires
        p.wf(),
        p.roots_seq().len() < 0x8000_0000,
        p.nodes_seq().len() < usize::MAX - 8,
    ensures
        r > 0,
{
    let mut p = p;
    let ghost nodes0 = p.nodes_seq();
    // build the dividers inside the arena
    let n0 = p.nodes.len();
    p.nodes.push(PNode::Num(2));
    let mut ch: Vec<usize> = Vec::new();
    ch.push(n0);
    p.nodes.push(PNode::List(ch));
    let mut ch2: Vec<usize> = Vec::new();
    ch2.push(n0 + 1);
    p.nodes.push(PNode::List(ch2));
    let d2 = n0 + 2;
    let n1 = p.nodes.len();
    p.nodes.push(PNode::Num(6));
    let mut ch3: Vec<usize> = Vec::new();
    ch3.push(n1);
    p.nodes.push(PNode::List(ch3));
    let mut ch4: Vec<usize> = Vec::new();
    ch4.push(n1 + 1);
    p.nodes.push(PNode::List(ch4));
    let d6 = n1 + 2;
    p.roots.push(d2);
    p.roots.push(d6);
    proof {
        assert forall|i: int| 0 <= i < p.nodes_seq().len() implies match #[trigger] p.nodes_seq()[i] {
            PNode::Num(_) => true,
            PNode::List(chs) => forall|k: int| 0 <= k < chs@.len() ==> (#[trigger] chs@[k]) < i,
        } by {
            if i < nodes0.len() {
                assert(p.nodes_seq()[i] == nodes0[i]);
            }
        }
        assert(p.wf());
    }
    let total = p.roots.len();
    let mut less2: u64 = 0;
    let mut less6: u64 = 0;
    for i in 0..total
        invariant
            total == p.roots_seq().len(),
            p.wf(),
            total < 0x8000_0000 + 2,
            d2 < p.nodes_seq().len(),
            d6 < p.nodes_seq().len(),
            less2 == count_less(p.nodes_seq(), p.roots_seq(), d2 as int, i as int),
            less6 == count_less(p.nodes_seq(), p.roots_seq(), d6 as int, i as int),
            less2 <= i && less6 <= i,
    {
        let ri = p.roots[i];
        if cmp(&p, ri, d2) < 0 {
            less2 = less2 + 1;
        }
        if cmp(&p, ri, d6) < 0 {
            less6 = less6 + 1;
        }
    }
    proof {
        vstd::arithmetic::mul::lemma_mul_strictly_positive(less2 as int + 1, less6 as int + 1);
        vstd::arithmetic::mul::lemma_mul_upper_bound(
            less2 as int + 1,
            0x8000_0002int,
            less6 as int + 1,
            0x8000_0002int,
        );
    }
    (less2 + 1) * (less6 + 1)
}

/// Reads the packet arena from the input; lines that are not packets
/// (stray characters) fail the whole parse.
#[verifier::loop_isolation(false)]
#[verifier::rlimit(100)]
pub fn parse(input: &str) -> (r: Result<Packets, crate::InputError>)
    ensures
        r is Ok ==> r->Ok_0.wf(),
{
    let ls = lines_of(input);
    let mut nodes: Vec<PNode> = Vec::new();
    let mut roots: Vec<usize> = Vec::new();
    let end = ls.len();
    for li in 0..end
        invariant
            forall|i: int|
                0 <= i < nodes@.len() ==> match #[trigger] nodes@[i] {
                    PNode::Num(_) => true,
                    PNode::List(ch) => forall|k: int| 0 <= k < ch@.len() ==> (#[trigger] ch@[k]) < i,
                },
            forall|r2: int| 0 <= r2 < roots@.len() ==> (#[trigger] roots@[r2]) < nodes@.len(),
    {
        let line = &ls[li];
        let llen = line.len();
        if llen == 0 {
        } else {
        // frames of children collected so far, innermost last
        let mut stack: Vec<Vec<usize>> = Vec::new();
        stack.push(Vec::new());
        let mut num: u32 = 0;
        let mut is_num = false;
        let mut bad = false;
        for ci in 0..llen
            invariant
                llen == line@.len(),
                stack@.len() >= 1,
                forall|i: int|
                    0 <= i < nodes@.len() ==> match #[trigger] nodes@[i] {
                        PNode::Num(_) => true,
                        PNode::List(ch) => forall|k: int|
                            0 <= k < ch@.len() ==> (#[trigger] ch@[k]) < i,
                    },
                forall|r2: int| 0 <= r2 < roots@.len() ==> (#[trigger] roots@[r2]) < nodes@.len(),
                forall|f: int, k: int|
                    0 <= f < stack@.len() && 0 <= k < stack@[f]@.len() ==> (#[trigger] stack@[f]@[k])
                        < nodes@.len(),
        {
            let c = line[ci];
            if bad {
            } else if c == 44u8 || c == 93u8 {
                if is_num {
                    nodes.push(PNode::Num(num));
                    let id = nodes.len() - 1;
                    let top = stack.len() - 1;
                    let fr = &mut stack[top];
                    fr.push(id);
                }
                is_num = false;
                num = 0;
                if c == 93u8 {
                    if stack.len() <= 1 {
                        bad = true;
                    } else {
                        let fr = stack.pop().unwrap();
                        nodes.push(PNode::List(fr));
                        let id = nodes.len() - 1;
                        let top = stack.len() - 1;
                        let fr2 = &mut stack[top];
                        fr2.push(id);
                    }
                }
            } else if c == 91u8 {
                stack.push(Vec::new());
            } else if 48 <= c && c <= 57 {
                let d = (c - 48) as u32;
                if num > (u32::MAX - d) / 10 {
                    bad = true;
                } else {
                    proof {
                        assert(num * 10 + d <= u32::MAX) by (nonlinear_arith)
                            requires
                                num <= (u32::MAX - d) / 10 && d <= 9,
                        ;
                    }
                    num = num * 10 + d;
                    is_num = true;
                }
            } else {
                bad = true;
            }
        }
        if bad {
            return Err(crate::InputError::BadInput);
        }
        let fr = stack.pop().unwrap();
        nodes.push(PNode::List(fr));
        let id = nodes.len() - 1;
        roots.push(id);
        }
    }
    Ok(Packets { nodes, roots })
}

/// Ordered-pair sum and decoder key as "`p1` `p2`".
pub fn run(input: &str) -> (r: Result<String, crate::InputError>)
    ensures
        r is Ok ==> r->Ok_0@.contains(' '),
{
    let p = match parse(input) {
        Ok(p) => p,
        Err(e) => {
            return Err(e);
        },
    };
    if p.packet_count() >= 0x8000_0000 {
        return Err(crate::InputError::BadInput);
    }
    if p.node_count() >= usize::MAX - 8 {
        return Err(crate::InputError::BadInput);
    }
    let p1 = check_sort(&p);
    let p2v = decoder_key(p);
    let a = u64_string(p1);
    let ghost alen = a@.len();
    let s = two_answers(a, u64_string(p2v));
    proof {
        assert(s@[alen as int] == ' ');
    }
    Ok(s)
}

} // verus!
