//! The regex abstract syntax tree, and its lowering to VM bytecode.

use vstd::prelude::*;

use crate::program::{entry_guarded, instr_wf, match_guarded, prog_wf, Instr, InstrPtr, Program};
use crate::state::SaveList;
use crate::token::{Token, TokenMap, TokenSet};

verus! {

/// A kind of repetition; the flag says whether it is greedy (`true`) or lazy
/// (`false`).
pub enum Repeater {
    /// Zero or one occurrence (`?`).
    ZeroOrOne(bool),
    /// Zero or more occurrences (`*`).
    ZeroOrMore(bool),
    /// One or more occurrences (`+`).
    OneOrMore(bool),
}

/// A parsed regular expression.
pub enum Regex<T: Token> {
    /// A literal sequence of tokens.
    Literal(Vec<T>),
    /// A class of tokens.
    Class(T::Set),
    /// Any single token.
    AnyToken,
    /// A word boundary.
    WordBoundary,
    /// A sequence of expressions.
    Concat(Vec<Regex<T>>),
    /// A choice between two expressions, preferring the first.
    Alt(Box<Regex<T>>, Box<Regex<T>>),
    /// A repeated expression.
    Repeat(Box<Regex<T>>, Repeater),
    /// A capturing group.
    Capture(Box<Regex<T>>),
}

/// Well-formedness of a regular expression: every class carrier in it is
/// well formed.
pub open spec fn regex_wf<T: Token>(re: Regex<T>) -> bool
    decreases re,
{
    match re {
        Regex::Literal(_) => true,
        Regex::Class(s) => s.wf(),
        Regex::AnyToken => true,
        Regex::WordBoundary => true,
        Regex::Concat(rs) => forall|i: int| 0 <= i < rs@.len() ==> regex_wf(#[trigger] rs@[i]),
        Regex::Alt(a, b) => regex_wf(*a) && regex_wf(*b),
        Regex::Repeat(r, _) => regex_wf(*r),
        Regex::Capture(r) => regex_wf(*r),
    }
}

/// The number of capturing groups in a regular expression.
pub open spec fn group_count<T: Token>(re: Regex<T>) -> nat
    decreases re,
{
    match re {
        Regex::Literal(_) => 0,
        Regex::Class(_) => 0,
        Regex::AnyToken => 0,
        Regex::WordBoundary => 0,
        Regex::Concat(rs) => group_count_seq(rs@),
        Regex::Alt(a, b) => group_count(*a) + group_count(*b),
        Regex::Repeat(r, _) => group_count(*r),
        Regex::Capture(r) => 1 + group_count(*r),
    }
}

/// The total number of capturing groups in a sequence of expressions.
pub open spec fn group_count_seq<T: Token>(rs: Seq<Regex<T>>) -> nat
    decreases rs, rs.len(),
{
    if rs.len() == 0 {
        0
    } else {
        group_count(rs[0]) + group_count_seq(rs.drop_first())
    }
}

/// The lowering of a regular expression, as a mathematical function: the
/// instructions it appends to a program `p`, and the capture-slot counter
/// after allocating its groups' slots from `ns` on.
///
/// `Split` prefers not to jump and `JSplit` prefers to jump, so a greedy
/// quantifier is entered with `Split` (the body comes first) and left with
/// `JSplit`, and a lazy one the other way round.  A capturing group wraps
/// its body in a pair of state updates for its two slots.
pub open spec fn spec_compile<T: Token>(
    re: Regex<T>,
    p: Seq<Instr<T, SaveList>>,
    ns: int,
) -> (Seq<Instr<T, SaveList>>, int)
    decreases re,
{
    match re {
        Regex::Literal(ts) => (
            p + ts@.map_values(|t: T| Instr::<T, SaveList>::Token(t)),
            ns,
        ),
        Regex::Class(s) => (p.push(Instr::Class(s)), ns),
        Regex::AnyToken => (p.push(Instr::Any), ns),
        Regex::WordBoundary => (p.push(Instr::WordBoundary), ns),
        Regex::Concat(rs) => spec_compile_seq(rs@, p, ns),
        Regex::Alt(a, b) => {
            let sp = p.len() as int;
            let r1 = spec_compile(*a, p.push(Instr::Split(0)), ns);
            let jp = r1.0.len() as int;
            let p2 = r1.0.push(Instr::Jump(0));
            let p3 = p2.update(sp, Instr::Split(p2.len() as InstrPtr));
            let r2 = spec_compile(*b, p3, r1.1);
            (r2.0.update(jp, Instr::Jump(r2.0.len() as InstrPtr)), r2.1)
        },
        Regex::Repeat(r, rep) => match rep {
            Repeater::ZeroOrOne(greedy) => {
                let sp = p.len() as int;
                let enter: Instr<T, SaveList> = if greedy {
                    Instr::Split(0)
                } else {
                    Instr::JSplit(0)
                };
                let r1 = spec_compile(*r, p.push(enter), ns);
                let out: Instr<T, SaveList> = if greedy {
                    Instr::Split(r1.0.len() as InstrPtr)
                } else {
                    Instr::JSplit(r1.0.len() as InstrPtr)
                };
                (r1.0.update(sp, out), r1.1)
            },
            Repeater::ZeroOrMore(greedy) => {
                let l = p.len() as int;
                let enter: Instr<T, SaveList> = if greedy {
                    Instr::Split(0)
                } else {
                    Instr::JSplit(0)
                };
                let r1 = spec_compile(*r, p.push(enter), ns);
                let p2 = r1.0.push(Instr::Jump(l as InstrPtr));
                let out: Instr<T, SaveList> = if greedy {
                    Instr::Split(p2.len() as InstrPtr)
                } else {
                    Instr::JSplit(p2.len() as InstrPtr)
                };
                (p2.update(l, out), r1.1)
            },
            Repeater::OneOrMore(greedy) => {
                let start = p.len() as InstrPtr;
                let r1 = spec_compile(*r, p, ns);
                let back: Instr<T, SaveList> = if greedy {
                    Instr::JSplit(start)
                } else {
                    Instr::Split(start)
                };
                (r1.0.push(back), r1.1)
            },
        },
        Regex::Capture(r) => {
            let slot = ns;
            let r1 = spec_compile(*r, p.push(Instr::UpdateState(slot as usize)), ns + 2);
            (r1.0.push(Instr::UpdateState((slot + 1) as usize)), r1.1)
        },
    }
}

/// The lowering of a sequence of expressions, in order.
pub open spec fn spec_compile_seq<T: Token>(
    rs: Seq<Regex<T>>,
    p: Seq<Instr<T, SaveList>>,
    ns: int,
) -> (Seq<Instr<T, SaveList>>, int)
    decreases rs, rs.len(),
{
    if rs.len() == 0 {
        (p, ns)
    } else {
        let r1 = spec_compile(rs[0], p, ns);
        spec_compile_seq(rs.drop_first(), r1.0, r1.1)
    }
}

/// What the lowering may place inside a compiled region: branch targets
/// never point before the region (so control cannot re-enter the preamble),
/// and no `Table`, `Reject` or `Match` is emitted.
pub open spec fn body_instr_ok<T: Token>(ins: Instr<T, SaveList>, lo: int) -> bool {
    match ins {
        Instr::Split(a) => lo <= a,
        Instr::JSplit(a) => lo <= a,
        Instr::Jump(a) => lo <= a,
        Instr::Table(_) => false,
        Instr::Reject => false,
        Instr::Match => false,
        _ => true,
    }
}

/// The lowering only appends: the result is at least as long as the input
/// program.
pub proof fn lemma_compile_len_mono<T: Token>(re: Regex<T>, p: Seq<Instr<T, SaveList>>, ns: int)
    ensures
        spec_compile(re, p, ns).0.len() >= p.len(),
    decreases re,
{
    match re {
        Regex::Literal(_) => {},
        Regex::Class(_) => {},
        Regex::AnyToken => {},
        Regex::WordBoundary => {},
        Regex::Concat(rs) => {
            lemma_compile_seq_len_mono(rs@, p, ns);
        },
        Regex::Alt(a, b) => {
            let p1 = p.push(Instr::<T, SaveList>::Split(0));
            let r1 = spec_compile(*a, p1, ns);
            lemma_compile_len_mono(*a, p1, ns);
            let p2 = r1.0.push(Instr::<T, SaveList>::Jump(0));
            let p3 = p2.update(p.len() as int, Instr::<T, SaveList>::Split(p2.len() as InstrPtr));
            lemma_compile_len_mono(*b, p3, r1.1);
        },
        Regex::Repeat(r, rep) => {
            match rep {
                Repeater::ZeroOrOne(greedy) => {
                    let enter: Instr<T, SaveList> = if greedy {
                        Instr::Split(0)
                    } else {
                        Instr::JSplit(0)
                    };
                    lemma_compile_len_mono(*r, p.push(enter), ns);
                },
                Repeater::ZeroOrMore(greedy) => {
                    let enter: Instr<T, SaveList> = if greedy {
                        Instr::Split(0)
                    } else {
                        Instr::JSplit(0)
                    };
                    lemma_compile_len_mono(*r, p.push(enter), ns);
                },
                Repeater::OneOrMore(greedy) => {
                    lemma_compile_len_mono(*r, p, ns);
                },
            }
        },
        Regex::Capture(r) => {
            lemma_compile_len_mono(*r, p.push(Instr::<T, SaveList>::UpdateState(ns as usize)), ns + 2);
        },
    }
}

/// [`lemma_compile_len_mono`], for a sequence of expressions.
pub proof fn lemma_compile_seq_len_mono<T: Token>(
    rs: Seq<Regex<T>>,
    p: Seq<Instr<T, SaveList>>,
    ns: int,
)
    ensures
        spec_compile_seq(rs, p, ns).0.len() >= p.len(),
    decreases rs, rs.len(),
{
    if rs.len() > 0 {
        let r1 = spec_compile(rs[0], p, ns);
        lemma_compile_len_mono(rs[0], p, ns);
        lemma_compile_seq_len_mono(rs.drop_first(), r1.0, r1.1);
    }
}

/// The lowering appends to the program, leaves the old instructions in
/// place, and every appended instruction obeys the region discipline of
/// [`body_instr_ok`].
pub proof fn lemma_compile_targets<T: Token>(re: Regex<T>, p: Seq<Instr<T, SaveList>>, ns: int)
    requires
        spec_compile(re, p, ns).0.len() <= usize::MAX,
    ensures
        spec_compile(re, p, ns).0.len() >= p.len(),
        forall|i: int| 0 <= i < p.len() ==> spec_compile(re, p, ns).0[i] == p[i],
        forall|i: int|
            p.len() <= i < spec_compile(re, p, ns).0.len() ==> body_instr_ok(
                #[trigger] spec_compile(re, p, ns).0[i],
                p.len() as int,
            ),
    decreases re,
{
    let r = spec_compile(re, p, ns);
    match re {
        Regex::Literal(ts) => {
            assert forall|i: int| p.len() <= i < r.0.len() implies body_instr_ok(
                r.0[i],
                p.len() as int,
            ) by {
                assert(r.0[i] == ts@.map_values(|t: T| Instr::<T, SaveList>::Token(t))[
                    i - p.len()
                ]);
            }
        },
        Regex::Class(_) => {},
        Regex::AnyToken => {},
        Regex::WordBoundary => {},
        Regex::Concat(rs) => {
            lemma_compile_seq_targets(rs@, p, ns);
        },
        Regex::Alt(a, b) => {
            let sp = p.len() as int;
            let p1 = p.push(Instr::<T, SaveList>::Split(0));
            let r1 = spec_compile(*a, p1, ns);
            let jp = r1.0.len() as int;
            let p2 = r1.0.push(Instr::<T, SaveList>::Jump(0));
            let p3 = p2.update(sp, Instr::<T, SaveList>::Split(p2.len() as InstrPtr));
            let r2 = spec_compile(*b, p3, r1.1);
            let fin = r2.0.update(jp, Instr::<T, SaveList>::Jump(r2.0.len() as InstrPtr));
            lemma_compile_len_mono(*a, p1, ns);
            lemma_compile_len_mono(*b, p3, r1.1);
            assert(r1.0.len() < r2.0.len() <= usize::MAX);
            lemma_compile_targets(*a, p1, ns);
            lemma_compile_targets(*b, p3, r1.1);
            assert forall|i: int| 0 <= i < p.len() implies fin[i] == p[i] by {
                assert(p1[i] == p[i]);
                assert(r1.0[i] == p1[i]);
                assert(p3[i] == p2[i]);
                assert(r2.0[i] == p3[i]);
            }
            assert(r1.0.len() >= p1.len());
            assert(r2.0.len() >= p3.len());
            assert(p3.len() == p2.len());
            assert(sp < p1.len());
            assert(p1.len() <= jp);
            assert forall|i: int| p.len() <= i < fin.len() implies body_instr_ok(
                fin[i],
                p.len() as int,
            ) by {
                if i == sp {
                    assert(r2.0[sp] == p3[sp]);
                    assert(p3[sp] == Instr::<T, SaveList>::Split(p2.len() as InstrPtr));
                    assert(fin[i] == Instr::<T, SaveList>::Split(p2.len() as InstrPtr));
                } else if i == jp {
                    assert(fin[i] == Instr::<T, SaveList>::Jump(r2.0.len() as InstrPtr));
                } else if p1.len() <= i < r1.0.len() {
                    assert(body_instr_ok(r1.0[i], p1.len() as int));
                    assert(fin[i] == r1.0[i]) by {
                        assert(p2[i] == r1.0[i]);
                        assert(p3[i] == p2[i]);
                        assert(r2.0[i] == p3[i]);
                        assert(i != jp);
                    }
                } else {
                    assert(p3.len() <= i < r2.0.len());
                    assert(body_instr_ok(r2.0[i], p3.len() as int));
                    assert(fin[i] == r2.0[i]);
                }
            }
        },
        Regex::Repeat(r_in, rep) => {
            match rep {
                Repeater::ZeroOrOne(greedy) => {
                    let sp = p.len() as int;
                    let enter: Instr<T, SaveList> = if greedy {
                        Instr::Split(0)
                    } else {
                        Instr::JSplit(0)
                    };
                    let p1 = p.push(enter);
                    let r1 = spec_compile(*r_in, p1, ns);
                    lemma_compile_len_mono(*r_in, p1, ns);
                    lemma_compile_targets(*r_in, p1, ns);
                    let out: Instr<T, SaveList> = if greedy {
                        Instr::Split(r1.0.len() as InstrPtr)
                    } else {
                        Instr::JSplit(r1.0.len() as InstrPtr)
                    };
                    let fin = r1.0.update(sp, out);
                    assert(r1.0.len() >= p1.len());
                    assert forall|i: int| 0 <= i < p.len() implies fin[i] == p[i] by {
                        assert(p1[i] == p[i]);
                        assert(r1.0[i] == p1[i]);
                    }
                    assert forall|i: int| p.len() <= i < fin.len() implies body_instr_ok(
                        fin[i],
                        p.len() as int,
                    ) by {
                        if i == sp {
                            assert(fin[i] == out);
                            assert(p.len() <= r1.0.len());
                        } else {
                            assert(p1.len() <= i < r1.0.len());
                            assert(body_instr_ok(r1.0[i], p1.len() as int));
                            assert(fin[i] == r1.0[i]);
                        }
                    }
                },
                Repeater::ZeroOrMore(greedy) => {
                    let l = p.len() as int;
                    let enter: Instr<T, SaveList> = if greedy {
                        Instr::Split(0)
                    } else {
                        Instr::JSplit(0)
                    };
                    let p1 = p.push(enter);
                    let r1 = spec_compile(*r_in, p1, ns);
                    lemma_compile_len_mono(*r_in, p1, ns);
                    lemma_compile_targets(*r_in, p1, ns);
                    let p2 = r1.0.push(Instr::<T, SaveList>::Jump(l as InstrPtr));
                    let out: Instr<T, SaveList> = if greedy {
                        Instr::Split(p2.len() as InstrPtr)
                    } else {
                        Instr::JSplit(p2.len() as InstrPtr)
                    };
                    let fin = p2.update(l, out);
                    assert(r1.0.len() >= p1.len());
                    assert(p2.len() == r1.0.len() + 1);
                    assert forall|i: int| 0 <= i < p.len() implies fin[i] == p[i] by {
                        assert(p1[i] == p[i]);
                        assert(r1.0[i] == p1[i]);
                        assert(p2[i] == r1.0[i]);
                    }
                    assert forall|i: int| p.len() <= i < fin.len() implies body_instr_ok(
                        fin[i],
                        p.len() as int,
                    ) by {
                        if i == l {
                            assert(fin[i] == out);
                        } else if i == r1.0.len() {
                            assert(fin[i] == Instr::<T, SaveList>::Jump(l as InstrPtr));
                        } else {
                            assert(p1.len() <= i < r1.0.len());
                            assert(body_instr_ok(r1.0[i], p1.len() as int));
                            assert(fin[i] == r1.0[i]) by {
                                assert(p2[i] == r1.0[i]);
                                assert(i != l);
                            }
                        }
                    }
                },
                Repeater::OneOrMore(greedy) => {
                    let start = p.len() as InstrPtr;
                    let r1 = spec_compile(*r_in, p, ns);
                    lemma_compile_len_mono(*r_in, p, ns);
                    lemma_compile_targets(*r_in, p, ns);
                    let back: Instr<T, SaveList> = if greedy {
                        Instr::JSplit(start)
                    } else {
                        Instr::Split(start)
                    };
                    let fin = r1.0.push(back);
                    assert(r1.0.len() >= p.len());
                    assert forall|i: int| p.len() <= i < fin.len() implies body_instr_ok(
                        fin[i],
                        p.len() as int,
                    ) by {
                        if i < r1.0.len() {
                            assert(body_instr_ok(r1.0[i], p.len() as int));
                            assert(fin[i] == r1.0[i]);
                        } else {
                            assert(fin[i] == back);
                        }
                    }
                },
            }
        },
        Regex::Capture(r_in) => {
            let slot = ns;
            let p1 = p.push(Instr::<T, SaveList>::UpdateState(slot as usize));
            let r1 = spec_compile(*r_in, p1, ns + 2);
            lemma_compile_len_mono(*r_in, p1, ns + 2);
            lemma_compile_targets(*r_in, p1, ns + 2);
            let fin = r1.0.push(Instr::<T, SaveList>::UpdateState((slot + 1) as usize));
            assert(r1.0.len() >= p1.len());
            assert forall|i: int| 0 <= i < p.len() implies fin[i] == p[i] by {
                assert(p1[i] == p[i]);
                assert(r1.0[i] == p1[i]);
            }
            assert forall|i: int| p.len() <= i < fin.len() implies body_instr_ok(
                fin[i],
                p.len() as int,
            ) by {
                if i == p.len() {
                    assert(r1.0[i] == p1[i]);
                    assert(fin[i] == Instr::<T, SaveList>::UpdateState(slot as usize));
                } else if i == r1.0.len() {
                    assert(fin[i] == Instr::<T, SaveList>::UpdateState((slot + 1) as usize));
                } else {
                    assert(p1.len() <= i < r1.0.len());
                    assert(body_instr_ok(r1.0[i], p1.len() as int));
                    assert(fin[i] == r1.0[i]);
                }
            }
        },
    }
}

/// [`lemma_compile_targets`], for a sequence of expressions.
pub proof fn lemma_compile_seq_targets<T: Token>(
    rs: Seq<Regex<T>>,
    p: Seq<Instr<T, SaveList>>,
    ns: int,
)
    requires
        spec_compile_seq(rs, p, ns).0.len() <= usize::MAX,
    ensures
        spec_compile_seq(rs, p, ns).0.len() >= p.len(),
        forall|i: int| 0 <= i < p.len() ==> spec_compile_seq(rs, p, ns).0[i] == p[i],
        forall|i: int|
            p.len() <= i < spec_compile_seq(rs, p, ns).0.len() ==> body_instr_ok(
                #[trigger] spec_compile_seq(rs, p, ns).0[i],
                p.len() as int,
            ),
    decreases rs, rs.len(),
{
    if rs.len() > 0 {
        let r1 = spec_compile(rs[0], p, ns);
        lemma_compile_len_mono(rs[0], p, ns);
        lemma_compile_seq_len_mono(rs.drop_first(), r1.0, r1.1);
        lemma_compile_targets(rs[0], p, ns);
        lemma_compile_seq_targets(rs.drop_first(), r1.0, r1.1);
        let fin = spec_compile_seq(rs, p, ns).0;
        assert forall|i: int| p.len() <= i < fin.len() implies body_instr_ok(
            fin[i],
            p.len() as int,
        ) by {
            if i < r1.0.len() {
                assert(body_instr_ok(r1.0[i], p.len() as int));
                assert(fin[i] == r1.0[i]);
            } else {
                assert(body_instr_ok(fin[i], r1.0.len() as int));
            }
        }
    }
}

/// Well-formedness of one compiled instruction relative to a region that
/// ends at `bound`: every instruction pointer the engine can step to from it
/// stays at or before `bound`.
spec fn instr_region_ok<T: Token>(prog: Seq<Instr<T, SaveList>>, i: int, bound: int) -> bool {
    match prog[i] {
        Instr::Token(_) => i + 1 <= bound,
        Instr::Any => i + 1 <= bound,
        Instr::Table(m) => m.wf() && i + 1 <= bound && (forall|t: T|
            (#[trigger] m.spec_get(t)) matches Some(p) ==> p <= bound),
        Instr::Class(s) => s.wf() && i + 1 <= bound,
        Instr::WordBoundary => i + 1 <= bound,
        Instr::Split(a) => i + 1 <= bound && a <= bound,
        Instr::JSplit(a) => i + 1 <= bound && a <= bound,
        Instr::Jump(a) => a <= bound,
        Instr::UpdateState(_) => i + 1 <= bound,
        Instr::Reject => true,
        Instr::Match => false,
    }
}

/// Well-formedness of the compiled region `[lo, hi)` relative to `bound`.
spec fn region_ok<T: Token>(prog: Seq<Instr<T, SaveList>>, lo: int, hi: int, bound: int) -> bool {
    forall|i: int| lo <= i < hi ==> instr_region_ok(prog, i, bound)
}

/// Every save slot that the region's update instructions write lies below
/// `bound`.
spec fn slots_below<T: Token>(prog: Seq<Instr<T, SaveList>>, lo: int, hi: int, bound: int) -> bool {
    forall|i: int|
        lo <= i < hi ==> ((#[trigger] prog[i]) matches Instr::UpdateState(u) ==> u < bound)
}

/// Written slots stay below a bound when the program grows around the
/// region and the bound moves up.
proof fn lemma_slots_mono<T: Token>(
    p1: Seq<Instr<T, SaveList>>,
    p2: Seq<Instr<T, SaveList>>,
    lo: int,
    hi: int,
    b1: int,
    b2: int,
)
    requires
        slots_below(p1, lo, hi, b1),
        b1 <= b2,
        forall|i: int| lo <= i < hi ==> p1[i] == p2[i],
    ensures
        slots_below(p2, lo, hi, b2),
{
    assert forall|i: int|
        lo <= i < hi implies ((#[trigger] p2[i]) matches Instr::UpdateState(u) ==> u < b2) by {
        assert(p1[i] matches Instr::UpdateState(u) ==> u < b1);
        assert(p2[i] == p1[i]);
    }
}

/// The new program extends the old one: the old instructions are unchanged.
spec fn extends<T: Token>(old_p: Seq<Instr<T, SaveList>>, new_p: Seq<Instr<T, SaveList>>) -> bool {
    new_p.len() >= old_p.len() && new_p.take(old_p.len() as int) == old_p
}

/// A compiled region stays well formed when the program grows around it and
/// the bound moves right.
proof fn lemma_region_mono<T: Token>(
    p1: Seq<Instr<T, SaveList>>,
    p2: Seq<Instr<T, SaveList>>,
    lo: int,
    hi: int,
    b1: int,
    b2: int,
)
    requires
        region_ok(p1, lo, hi, b1),
        b1 <= b2,
        0 <= lo,
        hi <= p1.len(),
        hi <= p2.len(),
        forall|i: int| lo <= i < hi ==> p1[i] == p2[i],
    ensures
        region_ok(p2, lo, hi, b2),
{
    assert forall|i: int| lo <= i < hi implies instr_region_ok(p2, i, b2) by {
        assert(instr_region_ok(p1, i, b1));
        assert(p2[i] == p1[i]);
        match p2[i] {
            Instr::Table(m) => {
                assert(forall|t: T| (#[trigger] m.spec_get(t)) matches Some(p) ==> p <= b1);
            },
            _ => {},
        }
    }
}

/// `extends` composes across successive pushes and compilations.
proof fn lemma_extends_trans<T: Token>(
    p1: Seq<Instr<T, SaveList>>,
    p2: Seq<Instr<T, SaveList>>,
    p3: Seq<Instr<T, SaveList>>,
)
    requires
        extends(p1, p2),
        extends(p2, p3),
    ensures
        extends(p1, p3),
{
    assert(p3.take(p1.len() as int) =~= p2.take(p2.len() as int).take(p1.len() as int));
    assert(p2.take(p2.len() as int) =~= p2);
    assert(p2.take(p1.len() as int) =~= p1);
    assert(p3.take(p1.len() as int) =~= p1);
}

/// An extension leaves every old instruction, and every prefix of the old
/// program, in place.
proof fn lemma_take_prefix<T: Token>(
    p1: Seq<Instr<T, SaveList>>,
    p2: Seq<Instr<T, SaveList>>,
    lo: int,
)
    requires
        extends(p1, p2),
        0 <= lo <= p1.len(),
    ensures
        p2.take(lo) == p1.take(lo),
        forall|i: int| 0 <= i < p1.len() ==> p2[i] == p1[i],
{
    assert forall|i: int| 0 <= i < p1.len() implies p2[i] == p1[i] by {
        assert(p2.take(p1.len() as int)[i] == p2[i]);
    }
    assert(p2.take(lo) =~= p1.take(lo));
}

impl<T: Token> Regex<T> {
    /// Compiles the regular expression to a VM program over the `SaveList`
    /// state.
    ///
    /// The program starts with an implicit lazy `.*?` preamble so that a
    /// match is found anywhere in the input, records the whole-match span in
    /// slots `0` and `1`, and the span of capturing group `k` (in order of
    /// appearance) in slots `2k` and `2k + 1`.  The emitted instructions are
    /// exactly the lowering [`spec_compile`] describes, wrapped in that
    /// preamble and a final `Match`; the result is well formed, so it can be
    /// executed directly, and every save slot it writes exists, so none of
    /// its updates can reject.
    pub fn compile(self) -> (p: Program<T, SaveList>)
        requires
            regex_wf(self),
            2 * group_count(self) + 2 <= usize::MAX,
        ensures
            p.wf(),
            match_guarded(p.instructions()),
            entry_guarded(p.instructions()),
            p.init_param() == 2 * group_count(self) + 2,
            forall|i: int|
                0 <= i < p.instructions().len() ==> ((#[trigger] p.instructions()[i]) matches
                Instr::UpdateState(u) ==> u < p.init_param()),
            p.instructions() == spec_compile(
                self,
                seq![
                    Instr::<T, SaveList>::JSplit(3),
                    Instr::<T, SaveList>::Any,
                    Instr::<T, SaveList>::Jump(0),
                    Instr::<T, SaveList>::UpdateState(0),
                ],
                2,
            ).0.push(Instr::UpdateState(1)).push(Instr::Match),
            p.init_param() as int == spec_compile(
                self,
                seq![
                    Instr::<T, SaveList>::JSplit(3),
                    Instr::<T, SaveList>::Any,
                    Instr::<T, SaveList>::Jump(0),
                    Instr::<T, SaveList>::UpdateState(0),
                ],
                2,
            ).1,
    {
        let mut prog: Vec<Instr<T, SaveList>> = Vec::new();
        // match .*? before the start of the match
        prog.push(Instr::JSplit(3));
        prog.push(Instr::Any);
        prog.push(Instr::Jump(0));
        // start of the whole match
        prog.push(Instr::UpdateState(0));
        let ghost pre = prog@;
        proof {
            assert(pre =~= seq![
                Instr::<T, SaveList>::JSplit(3),
                Instr::<T, SaveList>::Any,
                Instr::<T, SaveList>::Jump(0),
                Instr::<T, SaveList>::UpdateState(0),
            ]);
        }
        let mut next_slot: usize = 2;
        self.compile_into(&mut prog, &mut next_slot);
        let ghost pbody = prog@;
        let ghost body_end = prog@.len() as int;
        // end of the whole match
        prog.push(Instr::UpdateState(1));
        let ghost pb1 = prog@;
        prog.push(Instr::Match);
        proof {
            let p = prog@;
            let len = p.len() as int;
            lemma_take_prefix(pre, pbody, 4);
            assert(forall|i: int| 0 <= i < pb1.len() ==> p[i] == pb1[i]);
            assert(forall|i: int| 0 <= i < pbody.len() ==> pb1[i] == pbody[i]);
            assert(p[0] == Instr::<T, SaveList>::JSplit(3));
            assert(p[1] == Instr::<T, SaveList>::Any);
            assert(p[2] == Instr::<T, SaveList>::Jump(0));
            assert(p[3] == Instr::<T, SaveList>::UpdateState(0));
            assert(p[body_end] == Instr::<T, SaveList>::UpdateState(1));
            assert(p[body_end + 1] == Instr::<T, SaveList>::Match);
            lemma_region_mono(pbody, p, 4, body_end, body_end, body_end);
            assert forall|i: int| 0 <= i < p.len() implies instr_wf(p, i) by {
                if 4 <= i < body_end {
                    assert(instr_region_ok(p, i, body_end));
                }
            }
            assert(prog_wf(p));
            assert forall|i: int|
                0 <= i < p.len() implies ((#[trigger] p[i]) matches Instr::UpdateState(u) ==> u
                < next_slot) by {
                if 4 <= i < body_end {
                    assert(p[i] matches Instr::UpdateState(u) ==> u < next_slot);
                }
            }
            assert(entry_guarded(p)) by {
                lemma_compile_len_mono(self, pre, 2);
                assert(spec_compile(self, pre, 2).0.len() <= usize::MAX) by {
                    assert(p.len() == prog.len());
                    assert(pbody.len() + 2 == p.len());
                }
                lemma_compile_targets(self, pre, 2);
                assert(forall|i: int| 4 <= i < body_end ==> pbody[i] == spec_compile(
                    self,
                    pre,
                    2,
                ).0[i]);
                assert forall|i: int|
                    4 <= i < len implies match #[trigger] p[i] {
                        Instr::Token(_) => i + 1 < len,
                        Instr::Any => i + 1 < len,
                        Instr::Table(m) => i + 1 < len && (forall|t: T|
                            (#[trigger] m.spec_get(t)) matches Some(q) ==> 4 <= q < len),
                        Instr::Class(_) => i + 1 < len,
                        Instr::WordBoundary => i + 1 < len,
                        Instr::Split(a) => i + 1 < len && 4 <= a < len,
                        Instr::JSplit(a) => i + 1 < len && 4 <= a < len,
                        Instr::Jump(a) => 4 <= a < len,
                        Instr::UpdateState(_) => i + 1 < len,
                        Instr::Reject => true,
                        Instr::Match => true,
                    } by {
                    assert(instr_wf(p, i));
                    if 4 <= i < body_end {
                        assert(crate::ast::body_instr_ok(
                            spec_compile(self, pre, 2).0[i],
                            4,
                        ));
                        assert(p[i] == pbody[i]);
                    }
                }
            }
            assert(match_guarded(p)) by {
                assert(p[len - 1] == Instr::<T, SaveList>::Match);
                assert(p[len - 2] == Instr::<T, SaveList>::UpdateState(1usize));
                assert forall|i: int|
                    0 <= i < len - 2 implies match #[trigger] p[i] {
                        Instr::Token(_) => i + 1 <= len - 2,
                        Instr::Any => i + 1 <= len - 2,
                        Instr::Table(m) => i + 1 <= len - 2 && (forall|t: T|
                            (#[trigger] m.spec_get(t)) matches Some(q) ==> q <= len - 2),
                        Instr::Class(_) => i + 1 <= len - 2,
                        Instr::WordBoundary => i + 1 <= len - 2,
                        Instr::Split(a) => i + 1 <= len - 2 && a <= len - 2,
                        Instr::JSplit(a) => i + 1 <= len - 2 && a <= len - 2,
                        Instr::Jump(a) => a <= len - 2,
                        Instr::UpdateState(_) => i + 1 <= len - 2,
                        Instr::Reject => true,
                        Instr::Match => false,
                    } by {
                    if 4 <= i < body_end {
                        assert(instr_region_ok(p, i, body_end));
                    }
                }
            }
        }
        Program::new(prog, next_slot)
    }

    /// Appends the lowering of the expression to `prog`, allocating capture
    /// slots from `next_slot` on.
    fn compile_into(self, prog: &mut Vec<Instr<T, SaveList>>, next_slot: &mut usize)
        requires
            regex_wf(self),
            *old(next_slot) + 2 * group_count(self) <= usize::MAX,
        ensures
            extends(old(prog)@, final (prog)@),
            region_ok(
                final (prog)@,
                old(prog)@.len() as int,
                final (prog)@.len() as int,
                final (prog)@.len() as int,
            ),
            *final (next_slot) == *old(next_slot) + 2 * group_count(self),
            slots_below(
                final (prog)@,
                old(prog)@.len() as int,
                final (prog)@.len() as int,
                *final (next_slot) as int,
            ),
            final (prog)@ == spec_compile(self, old(prog)@, *old(next_slot) as int).0,
            *final (next_slot) as int == spec_compile(self, old(prog)@, *old(next_slot) as int).1,
        decreases self,
    {
        let ghost lo = prog@.len() as int;
        let ghost ns0 = *next_slot as int;
        match self {
            Regex::Literal(ts) => {
                // a sequence of single-token instructions
                let ghost tsv = ts;
                let ghost ts0 = ts@;
                let mut ts = ts;
                let mut rev: Vec<T> = Vec::new();
                loop
                    invariant
                        rev@.len() + ts@.len() == ts0.len(),
                        ts@ =~= ts0.take(ts@.len() as int),
                        forall|j: int| 0 <= j < rev@.len() ==> rev@[j] == ts0[ts0.len() - 1 - j],
                    ensures
                        ts@.len() == 0,
                        rev@.len() == ts0.len(),
                        forall|j: int| 0 <= j < rev@.len() ==> rev@[j] == ts0[ts0.len() - 1 - j],
                    decreases ts@.len(),
                {
                    match ts.pop() {
                        Some(t) => {
                            proof {
                                assert(ts0.take(ts@.len() as int + 1)[ts@.len() as int] == ts0[
                                    ts@.len() as int
                                ]);
                                assert(ts0.take(ts@.len() as int + 1).drop_last() =~= ts0.take(
                                    ts@.len() as int,
                                ));
                            }
                            rev.push(t);
                        },
                        None => {
                            break ;
                        },
                    }
                }
                proof {
                    assert(prog@.take(lo) =~= old(prog)@);
                    assert(prog@ =~= old(prog)@ + ts0.take(0).map_values(
                        |t: T| Instr::<T, SaveList>::Token(t),
                    ));
                }
                loop
                    invariant
                        rev@.len() <= ts0.len(),
                        forall|j: int| 0 <= j < rev@.len() ==> rev@[j] == ts0[ts0.len() - 1 - j],
                        extends(old(prog)@, prog@),
                        region_ok(prog@, lo, prog@.len() as int, prog@.len() as int),
                        slots_below(prog@, lo, prog@.len() as int, *next_slot as int),
                        0 <= lo <= prog@.len(),
                        prog@ =~= old(prog)@ + ts0.take(ts0.len() - rev@.len()).map_values(
                            |t: T| Instr::<T, SaveList>::Token(t),
                        ),
                    ensures
                        rev@.len() == 0,
                        extends(old(prog)@, prog@),
                        region_ok(prog@, lo, prog@.len() as int, prog@.len() as int),
                        slots_below(prog@, lo, prog@.len() as int, *next_slot as int),
                        prog@ =~= old(prog)@ + ts0.map_values(
                            |t: T| Instr::<T, SaveList>::Token(t),
                        ),
                    decreases rev@.len(),
                {
                    let ghost k = ts0.len() - rev@.len() as int;
                    match rev.pop() {
                        Some(t) => {
                            let ghost p1 = prog@;
                            prog.push(Instr::Token(t));
                            proof {
                                assert(t == ts0[k]);
                                assert(forall|i: int| 0 <= i < p1.len() ==> prog@[i] == p1[i]);
                                assert(prog@.take(old(prog)@.len() as int) =~= p1.take(
                                    old(prog)@.len() as int,
                                ));
                                lemma_region_mono(
                                    p1,
                                    prog@,
                                    lo,
                                    p1.len() as int,
                                    p1.len() as int,
                                    prog@.len() as int,
                                );
                                assert(instr_region_ok(prog@, p1.len() as int, prog@.len() as int));
                                lemma_slots_mono(
                                    p1,
                                    prog@,
                                    lo,
                                    p1.len() as int,
                                    *next_slot as int,
                                    *next_slot as int,
                                );
                                assert(ts0.take(k + 1).map_values(
                                    |t: T| Instr::<T, SaveList>::Token(t),
                                ) =~= ts0.take(k).map_values(
                                    |t: T| Instr::<T, SaveList>::Token(t),
                                ).push(Instr::Token(ts0[k])));
                                assert(prog@ =~= old(prog)@ + ts0.take(k + 1).map_values(
                                    |t: T| Instr::<T, SaveList>::Token(t),
                                ));
                            }
                        },
                        None => {
                            break ;
                        },
                    }
                }
                proof {
                    assert(ts0.take(ts0.len() as int) =~= ts0);
                    assert(prog@ == old(prog)@ + ts0.map_values(
                        |t: T| Instr::<T, SaveList>::Token(t),
                    ));
                    assert(self == Regex::<T>::Literal(tsv) && tsv@ == ts0);
                    assert(prog@ == spec_compile(self, old(prog)@, ns0).0);
                }
            },
            Regex::Class(s) => {
                let ghost sv = s;
                prog.push(Instr::Class(s));
                proof {
                    assert(prog@.take(lo) =~= old(prog)@);
                    assert(slots_below(prog@, lo, prog@.len() as int, *next_slot as int));
                    assert(self == Regex::<T>::Class(sv));
                    assert(prog@ == spec_compile(self, old(prog)@, ns0).0);
                }
            },
            Regex::AnyToken => {
                prog.push(Instr::Any);
                proof {
                    assert(prog@.take(lo) =~= old(prog)@);
                    assert(slots_below(prog@, lo, prog@.len() as int, *next_slot as int));
                    assert(prog@ == spec_compile(self, old(prog)@, ns0).0);
                }
            },
            Regex::WordBoundary => {
                prog.push(Instr::WordBoundary);
                proof {
                    assert(prog@.take(lo) =~= old(prog)@);
                    assert(slots_below(prog@, lo, prog@.len() as int, *next_slot as int));
                    assert(prog@ == spec_compile(self, old(prog)@, ns0).0);
                }
            },
            Regex::Concat(rs) => {
                let ghost rsv = rs;
                let ghost rs0 = rs@;
                let mut rs = rs;
                let mut rev: Vec<Regex<T>> = Vec::new();
                loop
                    invariant
                        rev@.len() + rs@.len() == rs0.len(),
                        rs@ =~= rs0.take(rs@.len() as int),
                        forall|j: int| 0 <= j < rev@.len() ==> rev@[j] == rs0[rs0.len() - 1 - j],
                    ensures
                        rs@.len() == 0,
                        rev@.len() == rs0.len(),
                        forall|j: int| 0 <= j < rev@.len() ==> rev@[j] == rs0[rs0.len() - 1 - j],
                    decreases rs@.len(),
                {
                    match rs.pop() {
                        Some(r) => {
                            proof {
                                assert(rs0.take(rs@.len() as int + 1)[rs@.len() as int] == rs0[
                                    rs@.len() as int
                                ]);
                                assert(rs0.take(rs@.len() as int + 1).drop_last() =~= rs0.take(
                                    rs@.len() as int,
                                ));
                            }
                            rev.push(r);
                        },
                        None => {
                            break ;
                        },
                    }
                }
                // compile each piece in order
                let ghost slot0 = *next_slot;
                proof {
                    assert(rs0.skip(rs0.len() - rev@.len()) =~= rs0);
                    assert(prog@.take(lo) =~= old(prog)@);
                    assert(slots_below(prog@, lo, prog@.len() as int, *next_slot as int));
                    assert(spec_compile_seq(
                        rs0.skip(rs0.len() - rev@.len()),
                        prog@,
                        *next_slot as int,
                    ) == spec_compile_seq(rs0, old(prog)@, ns0));
                }
                loop
                    invariant
                        rev@.len() <= rs0.len(),
                        forall|j: int| 0 <= j < rev@.len() ==> rev@[j] == rs0[rs0.len() - 1 - j],
                        forall|j: int|
                            0 <= j < rev@.len() ==> regex_wf(#[trigger] rs0[rs0.len() - 1 - j]),
                        *next_slot + 2 * group_count_seq(rs0.skip(
                            rs0.len() - rev@.len(),
                        )) <= usize::MAX,
                        *next_slot == slot0 + 2 * (group_count_seq(rs0) - group_count_seq(
                            rs0.skip(rs0.len() - rev@.len()),
                        )),
                        group_count_seq(rs0.skip(rs0.len() - rev@.len())) <= group_count_seq(rs0),
                        extends(old(prog)@, prog@),
                        region_ok(prog@, lo, prog@.len() as int, prog@.len() as int),
                        slots_below(prog@, lo, prog@.len() as int, *next_slot as int),
                        0 <= lo <= prog@.len(),
                        self == Regex::Concat(rsv),
                        rsv@ == rs0,
                        spec_compile_seq(rs0.skip(rs0.len() - rev@.len()), prog@, *next_slot as int)
                            == spec_compile_seq(rs0, old(prog)@, ns0),
                    ensures
                        rev@.len() == 0,
                        extends(old(prog)@, prog@),
                        region_ok(prog@, lo, prog@.len() as int, prog@.len() as int),
                        slots_below(prog@, lo, prog@.len() as int, *next_slot as int),
                        *next_slot == slot0 + 2 * group_count_seq(rs0),
                        spec_compile_seq(rs0.skip(rs0.len() - rev@.len()), prog@, *next_slot as int)
                            == spec_compile_seq(rs0, old(prog)@, ns0),
                    decreases rev@.len(),
                {
                    let ghost rlen = rev@.len() as int;
                    let ghost remaining = rs0.skip(rs0.len() - rlen);
                    match rev.pop() {
                        Some(r) => {
                            proof {
                                assert(r == rs0[rs0.len() - rlen]);
                                assert(remaining[0] == rs0[rs0.len() - rlen + 0]);
                                assert(remaining[0] == r);
                                assert(remaining.drop_first() =~= rs0.skip(
                                    rs0.len() - rlen + 1,
                                ));
                                assert(rs0.len() - rev@.len() == rs0.len() - rlen + 1);
                                assert(group_count_seq(remaining) == group_count(r)
                                    + group_count_seq(remaining.drop_first()));
                                assert(regex_wf(r));
                                assert(self->Concat_0 == rsv);
                                assert(decreases_to!(self => self->Concat_0));
                                assert(decreases_to!(rsv => rsv@));
                                assert(decreases_to!(rsv@ => rsv@[rs0.len() - rlen]));
                                assert(rsv@[rs0.len() - rlen] == r);
                                assert(decreases_to!(self => r));
                            }
                            let ghost p1 = prog@;
                            let ghost s1 = *next_slot;
                            r.compile_into(prog, next_slot);
                            proof {
                                lemma_take_prefix(p1, prog@, lo);
                                lemma_extends_trans(old(prog)@, p1, prog@);
                                lemma_region_mono(
                                    p1,
                                    prog@,
                                    lo,
                                    p1.len() as int,
                                    p1.len() as int,
                                    prog@.len() as int,
                                );
                                lemma_slots_mono(
                                    p1,
                                    prog@,
                                    lo,
                                    p1.len() as int,
                                    s1 as int,
                                    *next_slot as int,
                                );
                                assert(spec_compile_seq(remaining, p1, s1 as int)
                                    == spec_compile_seq(
                                    remaining.drop_first(),
                                    spec_compile(r, p1, s1 as int).0,
                                    spec_compile(r, p1, s1 as int).1,
                                ));
                                assert(spec_compile(r, p1, s1 as int).0 == prog@);
                                assert(spec_compile(r, p1, s1 as int).1 == *next_slot as int);
                            }
                        },
                        None => {
                            break ;
                        },
                    }
                }
                proof {
                    assert(rs0.skip(rs0.len() as int) =~= Seq::<Regex<T>>::empty());
                    assert(spec_compile_seq(
                        Seq::<Regex<T>>::empty(),
                        prog@,
                        *next_slot as int,
                    ) == (prog@, *next_slot as int));
                    assert(prog@ == spec_compile(self, old(prog)@, ns0).0);
                    assert(*next_slot as int == spec_compile(self, old(prog)@, ns0).1);
                }
            },
            Regex::Alt(a, b) => {
                let ghost av = *a;
                let ghost bv = *b;
                let sp = prog.len();
                prog.push(Instr::Split(0));
                let ghost p1 = prog@;
                proof {
                    assert(decreases_to!(self => *a));
                    assert(decreases_to!(self => *b));
                }
                (*a).compile_into(prog, next_slot);
                let jp = prog.len();
                let ghost p2 = prog@;
                let ghost ns1 = *next_slot;
                proof {
                    lemma_take_prefix(p1, p2, lo + 1);
                }
                prog.push(Instr::Jump(0));
                let ghost p3 = prog@;
                let alt = prog.len();
                prog.set(sp, Instr::Split(alt));
                let ghost p4 = prog@;
                (*b).compile_into(prog, next_slot);
                let ghost p5 = prog@;
                proof {
                    lemma_take_prefix(p4, p5, lo);
                }
                let end = prog.len();
                prog.set(jp, Instr::Jump(end));
                proof {
                    let p = prog@;
                    let len = p.len() as int;
                    // the old prefix is untouched
                    assert(forall|i: int| 0 <= i < p2.len() ==> p3[i] == p2[i]);
                    assert(forall|i: int| 0 <= i < p3.len() && i != sp ==> p4[i] == p3[i]);
                    assert(forall|i: int| 0 <= i < p5.len() && i != jp ==> p[i] == p5[i]);
                    assert(p.take(lo) =~= old(prog)@);
                    // instruction by instruction, the region is well formed
                    assert(p[sp as int] == Instr::<T, SaveList>::Split(alt as InstrPtr));
                    assert(p[jp as int] == Instr::<T, SaveList>::Jump(end as InstrPtr));
                    assert(forall|i: int| lo + 1 <= i < jp ==> p[i] == p2[i]);
                    lemma_region_mono(p2, p, lo + 1, jp as int, jp as int, len);
                    assert(forall|i: int| alt as int <= i < end ==> p[i] == p5[i]);
                    lemma_region_mono(p5, p, alt as int, end as int, end as int, len);
                    assert(region_ok(p, lo, len, len));
                    lemma_slots_mono(p2, p, lo + 1, jp as int, ns1 as int, *next_slot as int);
                    lemma_slots_mono(
                        p5,
                        p,
                        alt as int,
                        end as int,
                        *next_slot as int,
                        *next_slot as int,
                    );
                    assert(slots_below(p, lo, len, *next_slot as int));
                    // the program built step by step is the lowering
                    assert(p1 == old(prog)@.push(Instr::Split(0)));
                    assert(p2 == spec_compile(av, p1, ns0).0);
                    assert(ns1 as int == spec_compile(av, p1, ns0).1);
                    assert(p3 == p2.push(Instr::Jump(0)));
                    assert(p4 == p3.update(sp as int, Instr::Split(alt as InstrPtr)));
                    assert(p5 == spec_compile(bv, p4, ns1 as int).0);
                    assert(*next_slot as int == spec_compile(bv, p4, ns1 as int).1);
                    assert(p == p5.update(jp as int, Instr::Jump(end as InstrPtr)));
                    assert(p == spec_compile(self, old(prog)@, ns0).0);
                    assert(*next_slot as int == spec_compile(self, old(prog)@, ns0).1);
                }
            },
            Regex::Repeat(r, rep) => {
                let ghost rv = *r;
                let ghost repv = rep;
                proof {
                    assert(decreases_to!(self => *r));
                }
                match rep {
                    Repeater::ZeroOrOne(greedy) => {
                        let sp = prog.len();
                        if greedy {
                            prog.push(Instr::Split(0));
                        } else {
                            prog.push(Instr::JSplit(0));
                        }
                        let ghost p1 = prog@;
                        (*r).compile_into(prog, next_slot);
                        let ghost p2 = prog@;
                        proof {
                            lemma_take_prefix(p1, p2, lo);
                        }
                        let end = prog.len();
                        if greedy {
                            prog.set(sp, Instr::Split(end));
                        } else {
                            prog.set(sp, Instr::JSplit(end));
                        }
                        proof {
                            let p = prog@;
                            let len = p.len() as int;
                            assert(forall|i: int| 0 <= i < p2.len() && i != sp ==> p[i] == p2[i]);
                            assert(p.take(lo) =~= old(prog)@);
                            assert(forall|i: int| lo + 1 <= i < end ==> p[i] == p2[i]);
                            lemma_region_mono(p2, p, lo + 1, end as int, end as int, len);
                            assert(region_ok(p, lo, len, len));
                            lemma_slots_mono(
                                p2,
                                p,
                                lo + 1,
                                end as int,
                                *next_slot as int,
                                *next_slot as int,
                            );
                            assert(slots_below(p, lo, len, *next_slot as int));
                            assert(p1 == old(prog)@.push(
                                if greedy {
                                    Instr::<T, SaveList>::Split(0)
                                } else {
                                    Instr::<T, SaveList>::JSplit(0)
                                },
                            ));
                            assert(p2 == spec_compile(rv, p1, ns0).0);
                            assert(*next_slot as int == spec_compile(rv, p1, ns0).1);
                            assert(p == p2.update(
                                sp as int,
                                if greedy {
                                    Instr::<T, SaveList>::Split(end as InstrPtr)
                                } else {
                                    Instr::<T, SaveList>::JSplit(end as InstrPtr)
                                },
                            ));
                            assert(self == Regex::Repeat(Box::new(rv), repv));
                            assert(p == spec_compile(self, old(prog)@, ns0).0);
                            assert(*next_slot as int == spec_compile(self, old(prog)@, ns0).1);
                        }
                    },
                    Repeater::ZeroOrMore(greedy) => {
                        let l = prog.len();
                        if greedy {
                            prog.push(Instr::Split(0));
                        } else {
                            prog.push(Instr::JSplit(0));
                        }
                        let ghost p1 = prog@;
                        (*r).compile_into(prog, next_slot);
                        let ghost p2 = prog@;
                        proof {
                            lemma_take_prefix(p1, p2, lo);
                        }
                        prog.push(Instr::Jump(l));
                        let ghost p3 = prog@;
                        let end = prog.len();
                        if greedy {
                            prog.set(l, Instr::Split(end));
                        } else {
                            prog.set(l, Instr::JSplit(end));
                        }
                        proof {
                            let p = prog@;
                            let len = p.len() as int;
                            assert(forall|i: int| 0 <= i < p2.len() ==> p3[i] == p2[i]);
                            assert(forall|i: int| 0 <= i < p3.len() && i != l ==> p[i] == p3[i]);
                            assert(p.take(lo) =~= old(prog)@);
                            assert(forall|i: int| lo + 1 <= i < p2.len() ==> p[i] == p2[i]);
                            lemma_region_mono(
                                p2,
                                p,
                                lo + 1,
                                p2.len() as int,
                                p2.len() as int,
                                len,
                            );
                            assert(p[l as int] == if greedy {
                                Instr::<T, SaveList>::Split(end as InstrPtr)
                            } else {
                                Instr::<T, SaveList>::JSplit(end as InstrPtr)
                            });
                            assert(p[p2.len() as int] == Instr::<T, SaveList>::Jump(
                                l as InstrPtr,
                            ));
                            assert(region_ok(p, lo, len, len));
                            lemma_slots_mono(
                                p2,
                                p,
                                lo + 1,
                                p2.len() as int,
                                *next_slot as int,
                                *next_slot as int,
                            );
                            assert(slots_below(p, lo, len, *next_slot as int));
                            assert(p1 == old(prog)@.push(
                                if greedy {
                                    Instr::<T, SaveList>::Split(0)
                                } else {
                                    Instr::<T, SaveList>::JSplit(0)
                                },
                            ));
                            assert(p2 == spec_compile(rv, p1, ns0).0);
                            assert(*next_slot as int == spec_compile(rv, p1, ns0).1);
                            assert(p3 == p2.push(Instr::Jump(l as InstrPtr)));
                            assert(p == p3.update(
                                l as int,
                                if greedy {
                                    Instr::<T, SaveList>::Split(end as InstrPtr)
                                } else {
                                    Instr::<T, SaveList>::JSplit(end as InstrPtr)
                                },
                            ));
                            assert(self == Regex::Repeat(Box::new(rv), repv));
                            assert(p == spec_compile(self, old(prog)@, ns0).0);
                            assert(*next_slot as int == spec_compile(self, old(prog)@, ns0).1);
                        }
                    },
                    Repeater::OneOrMore(greedy) => {
                        let start = prog.len();
                        (*r).compile_into(prog, next_slot);
                        let ghost p1 = prog@;
                        proof {
                            lemma_take_prefix(old(prog)@, p1, lo);
                        }
                        if greedy {
                            prog.push(Instr::JSplit(start));
                        } else {
                            prog.push(Instr::Split(start));
                        }
                        proof {
                            let p = prog@;
                            let len = p.len() as int;
                            assert(forall|i: int| 0 <= i < p1.len() ==> p[i] == p1[i]);
                            assert(p.take(lo) =~= old(prog)@);
                            lemma_region_mono(p1, p, lo, p1.len() as int, p1.len() as int, len);
                            assert(region_ok(p, lo, len, len));
                            lemma_slots_mono(
                                p1,
                                p,
                                lo,
                                p1.len() as int,
                                *next_slot as int,
                                *next_slot as int,
                            );
                            assert(slots_below(p, lo, len, *next_slot as int));
                            assert(p1 == spec_compile(rv, old(prog)@, ns0).0);
                            assert(*next_slot as int == spec_compile(rv, old(prog)@, ns0).1);
                            assert(p == p1.push(
                                if greedy {
                                    Instr::<T, SaveList>::JSplit(start)
                                } else {
                                    Instr::<T, SaveList>::Split(start)
                                },
                            ));
                            assert(self == Regex::Repeat(Box::new(rv), repv));
                            assert(p == spec_compile(self, old(prog)@, ns0).0);
                            assert(*next_slot as int == spec_compile(self, old(prog)@, ns0).1);
                        }
                    },
                }
            },
            Regex::Capture(r) => {
                let ghost rv = *r;
                proof {
                    assert(decreases_to!(self => *r));
                }
                // save the group's span to the next pair of slots
                let slot = *next_slot;
                *next_slot = slot + 2;
                prog.push(Instr::UpdateState(slot));
                let ghost p1 = prog@;
                (*r).compile_into(prog, next_slot);
                let ghost p2 = prog@;
                proof {
                    lemma_take_prefix(p1, p2, lo);
                }
                prog.push(Instr::UpdateState(slot + 1));
                proof {
                    let p = prog@;
                    let len = p.len() as int;
                    assert(forall|i: int| 0 <= i < p2.len() ==> p[i] == p2[i]);
                    assert(p.take(lo) =~= old(prog)@);
                    assert(forall|i: int| lo + 1 <= i < p2.len() ==> p[i] == p2[i]);
                    lemma_region_mono(p2, p, lo + 1, p2.len() as int, p2.len() as int, len);
                    assert(region_ok(p, lo, len, len));
                    lemma_slots_mono(
                        p2,
                        p,
                        lo + 1,
                        p2.len() as int,
                        *next_slot as int,
                        *next_slot as int,
                    );
                    assert(p[lo] == Instr::<T, SaveList>::UpdateState(slot));
                    assert(p[p2.len() as int] == Instr::<T, SaveList>::UpdateState((slot + 1) as usize));
                    assert(slot + 2 <= *next_slot);
                    assert(slots_below(p, lo, len, *next_slot as int));
                    assert(p1 == old(prog)@.push(Instr::UpdateState(slot)));
                    assert(p2 == spec_compile(rv, p1, slot + 2).0);
                    assert(*next_slot as int == spec_compile(rv, p1, slot + 2).1);
                    assert(p == p2.push(Instr::UpdateState((slot + 1) as usize)));
                    assert(self == Regex::Capture(Box::new(rv)));
                    assert(p == spec_compile(self, old(prog)@, ns0).0);
                    assert(*next_slot as int == spec_compile(self, old(prog)@, ns0).1);
                }
            },
        }
    }
}

} // verus!
