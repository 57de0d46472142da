//! Engine-level properties, proved once and for all against the execution
//! model.
//!
//! Determinism ([`lemma_exec_deterministic`]); priority order — results are
//! append-only ([`lemma_run_grows`], [`lemma_matches_persist`]), admission
//! never merges or removes threads ([`lemma_add_thread_appends`]), and the
//! matches of one input position come out in thread-priority order
//! ([`lemma_consume_results_in_order`] and the per-phase order lemmas); the
//! active-list invariant ([`lemma_run_list_ok`]); index conservation for
//! `SaveList` runs ([`lemma_save_slots_within`] with its uniform and UTF-8
//! corollaries); and the whole-match span of compiled programs — its start
//! is saved ([`lemma_match_starts_saved`]), its end is saved and bounds
//! every saved index ([`lemma_match_spans_ordered`]), so the span is
//! ordered and lies within the input.

use vstd::prelude::*;

use crate::program::{
    entry_guarded, lemma_step_list_ok, list_ok, match_guarded, prog_wf, spec_add_thread,
    spec_collect, spec_consume, spec_exec, spec_finish_list, spec_run, spec_seed, spec_step_list,
    Instr, InstrPtr, VmState,
};
use crate::searcher::{char_stream, scalar_width, uniform_stream, utf8_len};
use crate::state::{SaveList, State};
use crate::token::{Token, TokenMap, TokenSet};

verus! {

/// Determinism: execution is a mathematical function of the program, the
/// state initialiser and the token stream, so repeated execution on
/// identical inputs yields identical result vectors.
pub proof fn lemma_exec_deterministic<T: Token, S: State<T>>(
    prog: Seq<Instr<T, S>>,
    init: S::Init,
    stream: Seq<(usize, T)>,
    r1: Seq<S::V>,
    r2: Seq<S::V>,
)
    requires
        r1 == spec_exec(prog, init, stream),
        r2 == spec_exec(prog, init, stream),
    ensures
        r1 == r2,
{
}

/// Advancing the thread list only appends to the recorded results.
proof fn lemma_step_list_grows<T: Token, S: State<T>>(
    prog: Seq<Instr<T, S>>,
    curr: Seq<(InstrPtr, S::V)>,
    k: int,
    next: Seq<(InstrPtr, S::V)>,
    results: Seq<S::V>,
    idx: usize,
    tok: T,
    word_boundary: bool,
    prev_index: usize,
)
    ensures
        results.is_prefix_of(
            spec_step_list(prog, curr, k, next, results, idx, tok, word_boundary, prev_index).1,
        ),
    decreases curr.len() - k,
{
    assert(results.is_prefix_of(results));
    assert(results.is_prefix_of(results.push(curr[k].1))) by {
        assert(results =~= results.push(curr[k].1).take(results.len() as int));
    }
    if 0 <= k < curr.len() {
        let stepped = step_of(prog, curr, k, next, results, idx, tok, word_boundary, prev_index);
        lemma_step_list_grows(
            prog,
            curr,
            k + 1,
            stepped.0,
            stepped.1,
            idx,
            tok,
            word_boundary,
            prev_index,
        );
        lemma_prefix_trans(
            results,
            stepped.1,
            spec_step_list(prog, curr, k, next, results, idx, tok, word_boundary, prev_index).1,
        );
    }
}

/// The pair that one step of [`spec_step_list`] accumulates.
spec fn step_of<T: Token, S: State<T>>(
    prog: Seq<Instr<T, S>>,
    curr: Seq<(InstrPtr, S::V)>,
    k: int,
    next: Seq<(InstrPtr, S::V)>,
    results: Seq<S::V>,
    idx: usize,
    tok: T,
    word_boundary: bool,
    prev_index: usize,
) -> (Seq<(InstrPtr, S::V)>, Seq<S::V>) {
    let pc = curr[k].0;
    let st = curr[k].1;
    let fuel = prog.len() as nat;
    if pc >= prog.len() {
        (next, results)
    } else {
        match prog[pc as int] {
            Instr::Token(t) => if tok == t {
                (spec_add_thread(prog, next, (pc + 1) as InstrPtr, idx, Some(tok), st, fuel), results)
            } else {
                (next, results)
            },
            Instr::Any => (
                spec_add_thread(prog, next, (pc + 1) as InstrPtr, idx, Some(tok), st, fuel),
                results,
            ),
            Instr::Class(s) => if s.spec_contains(tok) {
                (spec_add_thread(prog, next, (pc + 1) as InstrPtr, idx, Some(tok), st, fuel), results)
            } else {
                (next, results)
            },
            Instr::Table(m) => {
                let target = match m.spec_get(tok) {
                    Some(p) => p,
                    None => (pc + 1) as InstrPtr,
                };
                (spec_add_thread(prog, next, target, idx, Some(tok), st, fuel), results)
            },
            Instr::WordBoundary => if word_boundary {
                (
                    spec_add_thread(
                        prog,
                        next,
                        (pc + 1) as InstrPtr,
                        prev_index,
                        Some(tok),
                        st,
                        fuel,
                    ),
                    results,
                )
            } else {
                (next, results)
            },
            Instr::Match => (next, results.push(st)),
            _ => (next, results),
        }
    }
}

/// Prefixes compose.
proof fn lemma_prefix_trans<A>(s1: Seq<A>, s2: Seq<A>, s3: Seq<A>)
    requires
        s1.is_prefix_of(s2),
        s2.is_prefix_of(s3),
    ensures
        s1.is_prefix_of(s3),
{
    assert(s1 =~= s3.take(s1.len() as int)) by {
        assert(forall|i: int|
            0 <= i < s1.len() ==> s3.take(s1.len() as int)[i] == s3[i] && s2.take(
                s2.len() as int,
            )[i] == s2[i] && s2.take(s1.len() as int)[i] == s2[i] && s1[i] == s2.take(
                s1.len() as int,
            )[i]);
        assert(forall|i: int| 0 <= i < s2.len() ==> s2[i] == s3.take(s2.len() as int)[i]);
    }
}

/// Consuming one token only appends to the recorded results.
proof fn lemma_consume_grows<T: Token, S: State<T>>(
    prog: Seq<Instr<T, S>>,
    vm: VmState<S::V>,
    idx: usize,
    tok: T,
)
    ensures
        vm.results.is_prefix_of(spec_consume(prog, vm, idx, tok).results),
{
    let new_word = tok.spec_is_word();
    let word_boundary = new_word != vm.word;
    lemma_step_list_grows(
        prog,
        vm.curr,
        0,
        Seq::empty(),
        vm.results,
        idx,
        tok,
        word_boundary,
        vm.index,
    );
}

/// Running the engine over any further input only appends to the recorded
/// results: a match, once recorded, keeps its place.
pub proof fn lemma_run_grows<T: Token, S: State<T>>(
    prog: Seq<Instr<T, S>>,
    vm: VmState<S::V>,
    stream: Seq<(usize, T)>,
)
    ensures
        vm.results.is_prefix_of(spec_run(prog, vm, stream).results),
    decreases stream.len(),
{
    if stream.len() == 0 {
        assert(vm.results =~= vm.results.take(vm.results.len() as int));
    } else {
        let vm1 = spec_consume(prog, vm, stream[0].0, stream[0].1);
        lemma_consume_grows(prog, vm, stream[0].0, stream[0].1);
        lemma_run_grows(prog, vm1, stream.drop_first());
        lemma_prefix_trans(vm.results, vm1.results, spec_run(prog, vm, stream).results);
    }
}

/// The first terminal sweep only appends to the recorded results.
proof fn lemma_finish_list_grows<T: Token, S: State<T>>(
    prog: Seq<Instr<T, S>>,
    curr: Seq<(InstrPtr, S::V)>,
    k: int,
    next: Seq<(InstrPtr, S::V)>,
    results: Seq<S::V>,
    word: bool,
    index: usize,
)
    ensures
        results.is_prefix_of(spec_finish_list(prog, curr, k, next, results, word, index).1),
    decreases curr.len() - k,
{
    assert(results.is_prefix_of(results));
    assert(results.is_prefix_of(results.push(curr[k].1))) by {
        assert(results =~= results.push(curr[k].1).take(results.len() as int));
    }
    if 0 <= k < curr.len() {
        let pc = curr[k].0;
        let st = curr[k].1;
        let stepped: (Seq<(InstrPtr, S::V)>, Seq<S::V>) = if pc >= prog.len() {
            (next, results)
        } else {
            match prog[pc as int] {
                Instr::WordBoundary => if word {
                    (
                        spec_add_thread(
                            prog,
                            next,
                            (pc + 1) as InstrPtr,
                            index,
                            None,
                            st,
                            prog.len() as nat,
                        ),
                        results,
                    )
                } else {
                    (next, results)
                },
                Instr::Match => (next, results.push(st)),
                _ => (next, results),
            }
        };
        lemma_finish_list_grows(prog, curr, k + 1, stepped.0, stepped.1, word, index);
        lemma_prefix_trans(
            results,
            stepped.1,
            spec_finish_list(prog, curr, k, next, results, word, index).1,
        );
    }
}

/// The second terminal sweep only appends to the recorded results.
proof fn lemma_collect_grows<T: Token, S: State<T>>(
    prog: Seq<Instr<T, S>>,
    list: Seq<(InstrPtr, S::V)>,
    k: int,
    results: Seq<S::V>,
)
    ensures
        results.is_prefix_of(spec_collect(prog, list, k, results)),
    decreases list.len() - k,
{
    assert(results.is_prefix_of(results));
    assert(results.is_prefix_of(results.push(list[k].1))) by {
        assert(results =~= results.push(list[k].1).take(results.len() as int));
    }
    if 0 <= k < list.len() {
        let pc = list[k].0;
        let stepped: Seq<S::V> = if pc < prog.len() && (prog[pc as int] matches Instr::Match) {
            results.push(list[k].1)
        } else {
            results
        };
        lemma_collect_grows(prog, list, k + 1, stepped);
        lemma_prefix_trans(results, stepped, spec_collect(prog, list, k, results));
    }
}

/// Splitting the input stream splits the run.
proof fn lemma_run_append<T: Token, S: State<T>>(
    prog: Seq<Instr<T, S>>,
    vm: VmState<S::V>,
    s1: Seq<(usize, T)>,
    s2: Seq<(usize, T)>,
)
    ensures
        spec_run(prog, vm, s1 + s2) == spec_run(prog, spec_run(prog, vm, s1), s2),
    decreases s1.len(),
{
    if s1.len() == 0 {
        assert(s1 + s2 =~= s2);
        assert(spec_run(prog, vm, s1) == vm);
    } else {
        assert((s1 + s2)[0] == s1[0]);
        assert((s1 + s2).drop_first() =~= s1.drop_first() + s2);
        let vm1 = spec_consume(prog, vm, s1[0].0, s1[0].1);
        lemma_run_append(prog, vm1, s1.drop_first(), s2);
        assert(spec_run(prog, vm, s1) == spec_run(prog, vm1, s1.drop_first()));
    }
}

/// Priority order is append-only: every match recorded while consuming a
/// prefix of the input keeps its position in the final result vector.
/// Together with the exactness of execution this pins the result order: a
/// higher-priority match is recorded earlier and stays earlier.
pub proof fn lemma_matches_persist<T: Token, S: State<T>>(
    prog: Seq<Instr<T, S>>,
    init: S::Init,
    stream: Seq<(usize, T)>,
    k: int,
)
    requires
        0 <= k <= stream.len(),
    ensures
        spec_run(prog, spec_seed(prog, init), stream.take(k)).results.is_prefix_of(
            spec_exec(prog, init, stream),
        ),
{
    let seed = spec_seed(prog, init);
    let vmk = spec_run(prog, seed, stream.take(k));
    assert(stream =~= stream.take(k) + stream.skip(k));
    lemma_run_append(prog, seed, stream.take(k), stream.skip(k));
    let vmn = spec_run(prog, seed, stream);
    lemma_run_grows(prog, vmk, stream.skip(k));
    lemma_finish_list_grows(prog, vmn.curr, 0, Seq::empty(), vmn.results, vmn.word, vmn.index);
    let swept = spec_finish_list(prog, vmn.curr, 0, Seq::empty(), vmn.results, vmn.word, vmn.index);
    lemma_collect_grows(prog, swept.0, 0, swept.1);
    lemma_prefix_trans(vmk.results, vmn.results, swept.1);
    lemma_prefix_trans(vmk.results, swept.1, spec_exec(prog, init, stream));
}

/// The active thread list never holds a thread at a zero-width instruction,
/// nor one outside the program: admission resolves those on the spot, so
/// running the engine preserves the invariant.
pub proof fn lemma_run_list_ok<T: Token, S: State<T>>(
    prog: Seq<Instr<T, S>>,
    vm: VmState<S::V>,
    stream: Seq<(usize, T)>,
)
    requires
        prog_wf(prog),
        list_ok(prog, vm.curr),
    ensures
        list_ok(prog, spec_run(prog, vm, stream).curr),
    decreases stream.len(),
{
    if stream.len() > 0 {
        let tok = stream[0].1;
        let new_word = tok.spec_is_word();
        let word_boundary = new_word != vm.word;
        assert(list_ok(prog, Seq::<(InstrPtr, S::V)>::empty()));
        lemma_step_list_ok(
            prog,
            vm.curr,
            0,
            Seq::empty(),
            vm.results,
            stream[0].0,
            tok,
            word_boundary,
            vm.index,
        );
        lemma_run_list_ok(
            prog,
            spec_consume(prog, vm, stream[0].0, tok),
            stream.drop_first(),
        );
    }
}

/// Every saved index of one `SaveList` view lies in `allowed`.
pub open spec fn saves_within(sv: Seq<Option<usize>>, allowed: Set<usize>) -> bool {
    forall|k: int|
        0 <= k < sv.len() ==> ((#[trigger] sv[k]) matches Some(v) ==> allowed.contains(v))
}

/// Every saved index of every state on the thread list lies in `allowed`.
pub open spec fn list_saves_within(
    list: Seq<(InstrPtr, Seq<Option<usize>>)>,
    allowed: Set<usize>,
) -> bool {
    forall|k: int| 0 <= k < list.len() ==> saves_within((#[trigger] list[k]).1, allowed)
}

/// Every saved index of every recorded result lies in `allowed`.
pub open spec fn results_within(results: Seq<Seq<Option<usize>>>, allowed: Set<usize>) -> bool {
    forall|m: int| 0 <= m < results.len() ==> saves_within(#[trigger] results[m], allowed)
}

/// Admission at an allowed index keeps every save slot within `allowed`.
proof fn lemma_add_saves<T: Token>(
    prog: Seq<Instr<T, SaveList>>,
    list: Seq<(InstrPtr, Seq<Option<usize>>)>,
    ip: InstrPtr,
    token_index: usize,
    token: Option<T>,
    st: Seq<Option<usize>>,
    fuel: nat,
    allowed: Set<usize>,
)
    requires
        list_saves_within(list, allowed),
        saves_within(st, allowed),
        allowed.contains(token_index),
    ensures
        list_saves_within(
            spec_add_thread(prog, list, ip, token_index, token, st, fuel),
            allowed,
        ),
    decreases fuel,
{
    if ip < prog.len() && fuel > 0 {
        match prog[ip as int] {
            Instr::Split(a) => {
                let l1 = spec_add_thread(
                    prog,
                    list,
                    (ip + 1) as InstrPtr,
                    token_index,
                    token,
                    st,
                    (fuel - 1) as nat,
                );
                lemma_add_saves(
                    prog,
                    list,
                    (ip + 1) as InstrPtr,
                    token_index,
                    token,
                    st,
                    (fuel - 1) as nat,
                    allowed,
                );
                lemma_add_saves(prog, l1, a, token_index, token, st, (fuel - 1) as nat, allowed);
            },
            Instr::JSplit(a) => {
                let l1 = spec_add_thread(prog, list, a, token_index, token, st, (fuel - 1) as nat);
                lemma_add_saves(prog, list, a, token_index, token, st, (fuel - 1) as nat, allowed);
                lemma_add_saves(
                    prog,
                    l1,
                    (ip + 1) as InstrPtr,
                    token_index,
                    token,
                    st,
                    (fuel - 1) as nat,
                    allowed,
                );
            },
            Instr::Jump(a) => {
                lemma_add_saves(prog, list, a, token_index, token, st, (fuel - 1) as nat, allowed);
            },
            Instr::UpdateState(u) => {
                match <SaveList as State<T>>::spec_update(st, u, ip, token_index, token) {
                    Some(v) => {
                        assert(saves_within(v, allowed));
                        lemma_add_saves(
                            prog,
                            list,
                            (ip + 1) as InstrPtr,
                            token_index,
                            token,
                            v,
                            (fuel - 1) as nat,
                            allowed,
                        );
                    },
                    None => {},
                }
            },
            Instr::Reject => {},
            _ => {
                assert(list_saves_within(list.push((ip, st)), allowed));
            },
        }
    } else {
        if ip < prog.len() {
            match prog[ip as int] {
                Instr::Split(_) => {},
                Instr::JSplit(_) => {},
                Instr::Jump(_) => {},
                Instr::UpdateState(_) => {},
                Instr::Reject => {},
                _ => {
                    assert(list_saves_within(list.push((ip, st)), allowed));
                },
            }
        }
    }
}

/// One advance over the thread list at allowed indices keeps every save slot
/// within `allowed`.
proof fn lemma_step_saves<T: Token>(
    prog: Seq<Instr<T, SaveList>>,
    curr: Seq<(InstrPtr, Seq<Option<usize>>)>,
    k: int,
    next: Seq<(InstrPtr, Seq<Option<usize>>)>,
    results: Seq<Seq<Option<usize>>>,
    idx: usize,
    tok: T,
    word_boundary: bool,
    prev_index: usize,
    allowed: Set<usize>,
)
    requires
        list_saves_within(curr, allowed),
        list_saves_within(next, allowed),
        results_within(results, allowed),
        allowed.contains(idx),
        allowed.contains(prev_index),
    ensures
        list_saves_within(
            spec_step_list(prog, curr, k, next, results, idx, tok, word_boundary, prev_index).0,
            allowed,
        ),
        results_within(
            spec_step_list(prog, curr, k, next, results, idx, tok, word_boundary, prev_index).1,
            allowed,
        ),
    decreases curr.len() - k,
{
    if 0 <= k < curr.len() {
        let pc = curr[k].0;
        let st = curr[k].1;
        let fuel = prog.len() as nat;
        assert(saves_within(st, allowed));
        if pc < prog.len() {
            match prog[pc as int] {
                Instr::Token(t) => {
                    if tok == t {
                        lemma_add_saves(
                            prog,
                            next,
                            (pc + 1) as InstrPtr,
                            idx,
                            Some(tok),
                            st,
                            fuel,
                            allowed,
                        );
                    }
                },
                Instr::Any => {
                    lemma_add_saves(
                        prog,
                        next,
                        (pc + 1) as InstrPtr,
                        idx,
                        Some(tok),
                        st,
                        fuel,
                        allowed,
                    );
                },
                Instr::Class(s) => {
                    if s.spec_contains(tok) {
                        lemma_add_saves(
                            prog,
                            next,
                            (pc + 1) as InstrPtr,
                            idx,
                            Some(tok),
                            st,
                            fuel,
                            allowed,
                        );
                    }
                },
                Instr::Table(m) => {
                    let target = match m.spec_get(tok) {
                        Some(p) => p,
                        None => (pc + 1) as InstrPtr,
                    };
                    lemma_add_saves(prog, next, target, idx, Some(tok), st, fuel, allowed);
                },
                Instr::WordBoundary => {
                    if word_boundary {
                        lemma_add_saves(
                            prog,
                            next,
                            (pc + 1) as InstrPtr,
                            prev_index,
                            Some(tok),
                            st,
                            fuel,
                            allowed,
                        );
                    }
                },
                Instr::Match => {
                    assert(results_within(results.push(st), allowed));
                },
                _ => {},
            }
        }
        let stepped = step_of(prog, curr, k, next, results, idx, tok, word_boundary, prev_index);
        lemma_step_saves(
            prog,
            curr,
            k + 1,
            stepped.0,
            stepped.1,
            idx,
            tok,
            word_boundary,
            prev_index,
            allowed,
        );
    }
}

/// A whole run over a stream of allowed indices keeps every save slot
/// within `allowed`.
proof fn lemma_run_saves<T: Token>(
    prog: Seq<Instr<T, SaveList>>,
    vm: VmState<Seq<Option<usize>>>,
    stream: Seq<(usize, T)>,
    allowed: Set<usize>,
)
    requires
        list_saves_within(vm.curr, allowed),
        results_within(vm.results, allowed),
        allowed.contains(vm.index),
        forall|j: int| 0 <= j < stream.len() ==> allowed.contains((#[trigger] stream[j]).0),
    ensures
        list_saves_within(spec_run(prog, vm, stream).curr, allowed),
        results_within(spec_run(prog, vm, stream).results, allowed),
        allowed.contains(spec_run(prog, vm, stream).index),
    decreases stream.len(),
{
    if stream.len() > 0 {
        let idx = stream[0].0;
        let tok = stream[0].1;
        let new_word = tok.spec_is_word();
        let word_boundary = new_word != vm.word;
        assert(allowed.contains(idx));
        lemma_step_saves(
            prog,
            vm.curr,
            0,
            Seq::empty(),
            vm.results,
            idx,
            tok,
            word_boundary,
            vm.index,
            allowed,
        );
        let vm1 = spec_consume(prog, vm, idx, tok);
        assert(forall|j: int|
            0 <= j < stream.drop_first().len() ==> allowed.contains(
                (#[trigger] stream.drop_first()[j]).0,
            ));
        lemma_run_saves(prog, vm1, stream.drop_first(), allowed);
    }
}

/// The terminal sweeps keep every save slot within `allowed`.
proof fn lemma_finish_saves<T: Token>(
    prog: Seq<Instr<T, SaveList>>,
    curr: Seq<(InstrPtr, Seq<Option<usize>>)>,
    k: int,
    next: Seq<(InstrPtr, Seq<Option<usize>>)>,
    results: Seq<Seq<Option<usize>>>,
    word: bool,
    index: usize,
    allowed: Set<usize>,
)
    requires
        list_saves_within(curr, allowed),
        list_saves_within(next, allowed),
        results_within(results, allowed),
        allowed.contains(index),
    ensures
        list_saves_within(
            spec_finish_list(prog, curr, k, next, results, word, index).0,
            allowed,
        ),
        results_within(spec_finish_list(prog, curr, k, next, results, word, index).1, allowed),
    decreases curr.len() - k,
{
    if 0 <= k < curr.len() {
        let pc = curr[k].0;
        let st = curr[k].1;
        assert(saves_within(st, allowed));
        let stepped: (Seq<(InstrPtr, Seq<Option<usize>>)>, Seq<Seq<Option<usize>>>) = if pc
            >= prog.len() {
            (next, results)
        } else {
            match prog[pc as int] {
                Instr::WordBoundary => if word {
                    (
                        spec_add_thread(
                            prog,
                            next,
                            (pc + 1) as InstrPtr,
                            index,
                            None,
                            st,
                            prog.len() as nat,
                        ),
                        results,
                    )
                } else {
                    (next, results)
                },
                Instr::Match => (next, results.push(st)),
                _ => (next, results),
            }
        };
        if pc < prog.len() {
            match prog[pc as int] {
                Instr::WordBoundary => {
                    if word {
                        lemma_add_saves(
                            prog,
                            next,
                            (pc + 1) as InstrPtr,
                            index,
                            None,
                            st,
                            prog.len() as nat,
                            allowed,
                        );
                    }
                },
                Instr::Match => {
                    assert(results_within(results.push(st), allowed));
                },
                _ => {},
            }
        }
        lemma_finish_saves(prog, curr, k + 1, stepped.0, stepped.1, word, index, allowed);
    }
}

/// The final collection keeps every save slot within `allowed`.
proof fn lemma_collect_saves<T: Token>(
    prog: Seq<Instr<T, SaveList>>,
    list: Seq<(InstrPtr, Seq<Option<usize>>)>,
    k: int,
    results: Seq<Seq<Option<usize>>>,
    allowed: Set<usize>,
)
    requires
        list_saves_within(list, allowed),
        results_within(results, allowed),
    ensures
        results_within(spec_collect(prog, list, k, results), allowed),
    decreases list.len() - k,
{
    if 0 <= k < list.len() {
        let stepped: Seq<Seq<Option<usize>>> = if list[k].0 < prog.len() && (prog[list[k].0 as int]
            matches Instr::Match) {
            results.push(list[k].1)
        } else {
            results
        };
        assert(saves_within(list[k].1, allowed));
        assert(results_within(stepped, allowed));
        lemma_collect_saves(prog, list, k + 1, stepped, allowed);
    }
}

/// Index conservation: when a program runs over the `SaveList` state, every
/// index saved in every result is either `0` or one of the stream's
/// post-consumption indices.  In particular every saved index is a position
/// of the input.
pub proof fn lemma_save_slots_within<T: Token>(
    prog: Seq<Instr<T, SaveList>>,
    init: usize,
    stream: Seq<(usize, T)>,
    allowed: Set<usize>,
)
    requires
        allowed.contains(0),
        forall|j: int| 0 <= j < stream.len() ==> allowed.contains((#[trigger] stream[j]).0),
    ensures
        results_within(spec_exec(prog, init, stream), allowed),
{
    let seed = spec_seed::<T, SaveList>(prog, init);
    assert(saves_within(<SaveList as State<T>>::spec_init(init), allowed));
    assert(list_saves_within(Seq::empty(), allowed));
    lemma_add_saves(
        prog,
        Seq::empty(),
        0,
        0,
        None,
        <SaveList as State<T>>::spec_init(init),
        prog.len() as nat,
        allowed,
    );
    assert(results_within(Seq::empty(), allowed));
    lemma_run_saves(prog, seed, stream, allowed);
    let vmn = spec_run(prog, seed, stream);
    lemma_finish_saves(prog, vmn.curr, 0, Seq::empty(), vmn.results, vmn.word, vmn.index, allowed);
    let swept = spec_finish_list(prog, vmn.curr, 0, Seq::empty(), vmn.results, vmn.word, vmn.index);
    lemma_collect_saves(prog, swept.0, 0, swept.1, allowed);
}

/// Index conservation over uniform input: every saved index is at most the
/// number of input tokens, so it is a valid index into the input.
pub proof fn lemma_uniform_save_bounds<T: Token>(
    prog: Seq<Instr<T, SaveList>>,
    init: usize,
    ts: Seq<T>,
)
    requires
        ts.len() <= usize::MAX,
    ensures
        forall|m: int, k: int|
            #![trigger spec_exec(prog, init, crate::searcher::uniform_stream(ts))[m][k]]
            {
                let results = spec_exec(prog, init, crate::searcher::uniform_stream(ts));
                (0 <= m < results.len() && 0 <= k < results[m].len() && results[m][k] is Some)
                    ==> results[m][k]->0 <= ts.len()
            },
{
    let allowed = Set::new(|v: usize| v <= ts.len());
    let stream = crate::searcher::uniform_stream(ts);
    assert(allowed.contains(0));
    assert(forall|j: int| 0 <= j < stream.len() ==> allowed.contains((#[trigger] stream[j]).0));
    lemma_save_slots_within(prog, init, stream, allowed);
    let results = spec_exec(prog, init, stream);
    assert forall|m: int, k: int|
        (0 <= m < results.len() && 0 <= k < results[m].len() && results[m][k] is Some) implies
        results[m][k]->0 <= ts.len() by {
        assert(saves_within(results[m], allowed));
        assert(results[m][k] matches Some(v) ==> allowed.contains(v));
    }
}

/// The byte length of a character sequence splits at any prefix.
proof fn lemma_utf8_len_split(cs: Seq<char>, j: int)
    requires
        0 <= j <= cs.len(),
    ensures
        utf8_len(cs) == utf8_len(cs.take(j)) + utf8_len(cs.skip(j)),
    decreases j,
{
    if j == 0 {
        assert(cs.take(0) =~= Seq::<char>::empty());
        assert(cs.skip(0) =~= cs);
    } else {
        let rest = cs.drop_first();
        assert(cs.take(j)[0] == cs[0]);
        assert(cs.take(j).drop_first() =~= rest.take(j - 1));
        assert(cs.skip(j) =~= rest.skip(j - 1));
        lemma_utf8_len_split(rest, j - 1);
        assert(utf8_len(cs) == scalar_width(cs[0]) + utf8_len(rest));
        assert(utf8_len(cs.take(j)) == scalar_width(cs[0]) + utf8_len(rest.take(j - 1)));
    }
}

/// The position attached to the `j`-th codepoint of a character stream is
/// the byte length of the encoding of the first `j + 1` codepoints.
proof fn lemma_char_stream_positions(cs: Seq<char>, base: int, j: int)
    requires
        0 <= j < cs.len(),
        0 <= base,
        base + utf8_len(cs) <= usize::MAX,
    ensures
        char_stream(cs, base)[j].0 == base + utf8_len(cs.take(j + 1)),
    decreases j,
{
    let w0 = scalar_width(cs[0]);
    assert(utf8_len(cs) == w0 + utf8_len(cs.drop_first()));
    assert(utf8_len(cs.drop_first()) >= 0);
    lemma_char_stream_len(cs, base);
    if j == 0 {
        assert(cs.take(1)[0] == cs[0]);
        assert(cs.take(1).drop_first() =~= Seq::<char>::empty());
        assert(utf8_len(Seq::<char>::empty()) == 0);
        assert(utf8_len(cs.take(1)) == scalar_width(cs.take(1)[0]) + utf8_len(
            cs.take(1).drop_first(),
        ));
        assert(utf8_len(cs.take(1)) == w0);
        assert(char_stream(cs, base)[0].0 == (base + w0) as usize);
    } else {
        let rest = cs.drop_first();
        lemma_char_stream_len(rest, base + w0);
        lemma_char_stream_positions(rest, base + w0, j - 1);
        assert(char_stream(cs, base)[j] == char_stream(rest, base + w0)[j - 1]);
        assert(cs.take(j + 1)[0] == cs[0]);
        assert(cs.take(j + 1).drop_first() =~= rest.take(j));
        assert(utf8_len(cs.take(j + 1)) == scalar_width(cs.take(j + 1)[0]) + utf8_len(
            cs.take(j + 1).drop_first(),
        ));
        assert(utf8_len(cs.take(j + 1)) == w0 + utf8_len(rest.take(j)));
    }
}

/// UTF-8 index correctness: when a program runs over codepoint input with
/// byte offsets, every saved index is the byte length of the encoding of
/// some codepoint prefix of the input — a valid UTF-8 boundary, no larger
/// than the whole encoding.
pub proof fn lemma_utf8_save_boundaries(
    prog: Seq<Instr<char, SaveList>>,
    init: usize,
    cs: Seq<char>,
)
    requires
        utf8_len(cs) <= usize::MAX,
    ensures
        forall|m: int, k: int|
            #![trigger spec_exec(prog, init, char_stream(cs, 0))[m][k]]
            {
                let results = spec_exec(prog, init, char_stream(cs, 0));
                (0 <= m < results.len() && 0 <= k < results[m].len() && results[m][k] is Some)
                    ==> exists|j: int|
                    0 <= j <= cs.len() && results[m][k]->0 == utf8_len(cs.take(j))
            },
{
    let allowed = Set::new(
        |v: usize| exists|j: int| 0 <= j <= cs.len() && v == utf8_len(cs.take(j)),
    );
    let stream = char_stream(cs, 0);
    assert(cs.take(0) =~= Seq::<char>::empty());
    assert(utf8_len(cs.take(0)) == 0);
    assert(allowed.contains(0));
    assert forall|j: int| 0 <= j < stream.len() implies allowed.contains(
        (#[trigger] stream[j]).0,
    ) by {
        lemma_char_stream_len(cs, 0);
        lemma_utf8_len_split(cs, j + 1);
        lemma_char_stream_positions(cs, 0, j);
        assert(stream[j].0 == utf8_len(cs.take(j + 1)));
    }
    lemma_save_slots_within(prog, init, stream, allowed);
    let results = spec_exec(prog, init, stream);
    assert forall|m: int, k: int|
        (0 <= m < results.len() && 0 <= k < results[m].len() && results[m][k] is Some) implies
        exists|j: int| 0 <= j <= cs.len() && results[m][k]->0 == utf8_len(cs.take(j)) by {
        assert(saves_within(results[m], allowed));
        assert(results[m][k] matches Some(v) ==> allowed.contains(v));
    }
}

/// A character stream has one entry per codepoint.
proof fn lemma_char_stream_len(cs: Seq<char>, base: int)
    ensures
        char_stream(cs, base).len() == cs.len(),
    decreases cs.len(),
{
    if cs.len() > 0 {
        lemma_char_stream_len(cs.drop_first(), base + scalar_width(cs[0]));
    }
}

/// Admission never merges or removes threads: it only appends to the list,
/// so threads that share an instruction pointer but differ in state all
/// survive — each alternate capture path keeps its own slot values.
pub proof fn lemma_add_thread_appends<T: Token, S: State<T>>(
    prog: Seq<Instr<T, S>>,
    list: Seq<(InstrPtr, S::V)>,
    ip: InstrPtr,
    token_index: usize,
    token: Option<T>,
    st: S::V,
    fuel: nat,
)
    ensures
        list.is_prefix_of(spec_add_thread(prog, list, ip, token_index, token, st, fuel)),
    decreases fuel,
{
    assert(list.is_prefix_of(list)) by {
        assert(list =~= list.take(list.len() as int));
    }
    assert(list.is_prefix_of(list.push((ip, st)))) by {
        assert(list =~= list.push((ip, st)).take(list.len() as int));
    }
    if ip < prog.len() && fuel > 0 {
        match prog[ip as int] {
            Instr::Split(a) => {
                let l1 = spec_add_thread(
                    prog,
                    list,
                    (ip + 1) as InstrPtr,
                    token_index,
                    token,
                    st,
                    (fuel - 1) as nat,
                );
                lemma_add_thread_appends(
                    prog,
                    list,
                    (ip + 1) as InstrPtr,
                    token_index,
                    token,
                    st,
                    (fuel - 1) as nat,
                );
                lemma_add_thread_appends(prog, l1, a, token_index, token, st, (fuel - 1) as nat);
                lemma_prefix_trans(
                    list,
                    l1,
                    spec_add_thread(prog, list, ip, token_index, token, st, fuel),
                );
            },
            Instr::JSplit(a) => {
                let l1 = spec_add_thread(prog, list, a, token_index, token, st, (fuel - 1) as nat);
                lemma_add_thread_appends(prog, list, a, token_index, token, st, (fuel - 1) as nat);
                lemma_add_thread_appends(
                    prog,
                    l1,
                    (ip + 1) as InstrPtr,
                    token_index,
                    token,
                    st,
                    (fuel - 1) as nat,
                );
                lemma_prefix_trans(
                    list,
                    l1,
                    spec_add_thread(prog, list, ip, token_index, token, st, fuel),
                );
            },
            Instr::Jump(a) => {
                lemma_add_thread_appends(prog, list, a, token_index, token, st, (fuel - 1) as nat);
            },
            Instr::UpdateState(u) => {
                match S::spec_update(st, u, ip, token_index, token) {
                    Some(v) => {
                        lemma_add_thread_appends(
                            prog,
                            list,
                            (ip + 1) as InstrPtr,
                            token_index,
                            token,
                            v,
                            (fuel - 1) as nat,
                        );
                    },
                    None => {},
                }
            },
            Instr::Reject => {},
            _ => {},
        }
    }
}

/// The states of the `Match` threads of a thread list from position `k` on,
/// in list order — the admission order, which is branch-priority order.
pub open spec fn match_states<T: Token, S: State<T>>(
    prog: Seq<Instr<T, S>>,
    list: Seq<(InstrPtr, S::V)>,
    k: int,
) -> Seq<S::V>
    decreases list.len() - k,
{
    if k < 0 || k >= list.len() {
        Seq::empty()
    } else {
        let head: Seq<S::V> = if list[k].0 < prog.len() && (prog[list[k].0 as int]
            matches Instr::Match) {
            seq![list[k].1]
        } else {
            Seq::empty()
        };
        head + match_states(prog, list, k + 1)
    }
}

/// One consumption step appends exactly the states of the current list's
/// `Match` threads, in list order: matches recorded at one input position
/// come out in thread-priority order.
pub proof fn lemma_step_results_in_order<T: Token, S: State<T>>(
    prog: Seq<Instr<T, S>>,
    curr: Seq<(InstrPtr, S::V)>,
    k: int,
    next: Seq<(InstrPtr, S::V)>,
    results: Seq<S::V>,
    idx: usize,
    tok: T,
    word_boundary: bool,
    prev_index: usize,
)
    ensures
        spec_step_list(prog, curr, k, next, results, idx, tok, word_boundary, prev_index).1
            == results + match_states(prog, curr, k),
    decreases curr.len() - k,
{
    if k < 0 || k >= curr.len() {
        assert(results + match_states(prog, curr, k) =~= results);
    } else {
        let stepped = step_of(prog, curr, k, next, results, idx, tok, word_boundary, prev_index);
        lemma_step_results_in_order(
            prog,
            curr,
            k + 1,
            stepped.0,
            stepped.1,
            idx,
            tok,
            word_boundary,
            prev_index,
        );
        if curr[k].0 < prog.len() && (prog[curr[k].0 as int] matches Instr::Match) {
            assert(stepped.1 == results.push(curr[k].1));
            assert(results.push(curr[k].1) + match_states(prog, curr, k + 1) =~= results + (seq![
                curr[k].1,
            ] + match_states(prog, curr, k + 1)));
        } else {
            assert(stepped.1 == results);
            assert(results + match_states(prog, curr, k + 1) =~= results + (
            Seq::<S::V>::empty() + match_states(prog, curr, k + 1)));
        }
    }
}

/// The first terminal sweep appends exactly the states of the list's
/// `Match` threads, in list order.
pub proof fn lemma_finish_results_in_order<T: Token, S: State<T>>(
    prog: Seq<Instr<T, S>>,
    curr: Seq<(InstrPtr, S::V)>,
    k: int,
    next: Seq<(InstrPtr, S::V)>,
    results: Seq<S::V>,
    word: bool,
    index: usize,
)
    ensures
        spec_finish_list(prog, curr, k, next, results, word, index).1 == results + match_states(
            prog,
            curr,
            k,
        ),
    decreases curr.len() - k,
{
    if k < 0 || k >= curr.len() {
        assert(results + match_states(prog, curr, k) =~= results);
    } else {
        let pc = curr[k].0;
        let st = curr[k].1;
        let stepped: (Seq<(InstrPtr, S::V)>, Seq<S::V>) = if pc >= prog.len() {
            (next, results)
        } else {
            match prog[pc as int] {
                Instr::WordBoundary => if word {
                    (
                        spec_add_thread(
                            prog,
                            next,
                            (pc + 1) as InstrPtr,
                            index,
                            None,
                            st,
                            prog.len() as nat,
                        ),
                        results,
                    )
                } else {
                    (next, results)
                },
                Instr::Match => (next, results.push(st)),
                _ => (next, results),
            }
        };
        lemma_finish_results_in_order(prog, curr, k + 1, stepped.0, stepped.1, word, index);
        if pc < prog.len() && (prog[pc as int] matches Instr::Match) {
            assert(stepped.1 == results.push(st));
            assert(results.push(st) + match_states(prog, curr, k + 1) =~= results + (seq![st]
                + match_states(prog, curr, k + 1)));
        } else {
            assert(stepped.1 == results);
            assert(results + match_states(prog, curr, k + 1) =~= results + (
            Seq::<S::V>::empty() + match_states(prog, curr, k + 1)));
        }
    }
}

/// The final collection appends exactly the states of the list's `Match`
/// threads, in list order.
pub proof fn lemma_collect_results_in_order<T: Token, S: State<T>>(
    prog: Seq<Instr<T, S>>,
    list: Seq<(InstrPtr, S::V)>,
    k: int,
    results: Seq<S::V>,
)
    ensures
        spec_collect(prog, list, k, results) == results + match_states(prog, list, k),
    decreases list.len() - k,
{
    if k < 0 || k >= list.len() {
        assert(results + match_states(prog, list, k) =~= results);
    } else {
        let stepped: Seq<S::V> = if list[k].0 < prog.len() && (prog[list[k].0 as int]
            matches Instr::Match) {
            results.push(list[k].1)
        } else {
            results
        };
        lemma_collect_results_in_order(prog, list, k + 1, stepped);
        if list[k].0 < prog.len() && (prog[list[k].0 as int] matches Instr::Match) {
            assert(results.push(list[k].1) + match_states(prog, list, k + 1) =~= results + (seq![
                list[k].1,
            ] + match_states(prog, list, k + 1)));
        } else {
            assert(results + match_states(prog, list, k + 1) =~= results + (
            Seq::<S::V>::empty() + match_states(prog, list, k + 1)));
        }
    }
}

/// Matches recorded while consuming one token are exactly the states of the
/// current list's `Match` threads, appended in list order.
pub proof fn lemma_consume_results_in_order<T: Token, S: State<T>>(
    prog: Seq<Instr<T, S>>,
    vm: VmState<S::V>,
    idx: usize,
    tok: T,
)
    ensures
        spec_consume(prog, vm, idx, tok).results == vm.results + match_states(prog, vm.curr, 0),
{
    let new_word = tok.spec_is_word();
    let word_boundary = new_word != vm.word;
    lemma_step_results_in_order(
        prog,
        vm.curr,
        0,
        Seq::empty(),
        vm.results,
        idx,
        tok,
        word_boundary,
        vm.index,
    );
}

/// A token vector's stream has nondecreasing indices.
pub proof fn lemma_uniform_stream_monotone<T>(ts: Seq<T>)
    requires
        ts.len() <= usize::MAX,
    ensures
        forall|j1: int, j2: int|
            0 <= j1 <= j2 < uniform_stream(ts).len() ==> uniform_stream(ts)[j1].0
                <= uniform_stream(ts)[j2].0,
{
}

/// A prefix of a character sequence encodes into no more bytes than a
/// longer prefix.
proof fn lemma_utf8_len_take_monotone(cs: Seq<char>, a: int, b: int)
    requires
        0 <= a <= b <= cs.len(),
    ensures
        utf8_len(cs.take(a)) <= utf8_len(cs.take(b)),
{
    assert(cs.take(b).take(a) =~= cs.take(a));
    lemma_utf8_len_split(cs.take(b), a);
}

/// UTF-8 text's stream has nondecreasing byte offsets.
pub proof fn lemma_char_stream_monotone(cs: Seq<char>)
    requires
        utf8_len(cs) <= usize::MAX,
    ensures
        forall|j1: int, j2: int|
            0 <= j1 <= j2 < char_stream(cs, 0).len() ==> char_stream(cs, 0)[j1].0 <= char_stream(
                cs,
                0,
            )[j2].0,
{
    lemma_char_stream_len(cs, 0);
    assert forall|j1: int, j2: int|
        0 <= j1 <= j2 < char_stream(cs, 0).len() implies char_stream(cs, 0)[j1].0 <= char_stream(
        cs,
        0,
    )[j2].0 by {
        lemma_utf8_len_split(cs, j1 + 1);
        lemma_utf8_len_split(cs, j2 + 1);
        lemma_char_stream_positions(cs, 0, j1);
        lemma_char_stream_positions(cs, 0, j2);
        lemma_utf8_len_take_monotone(cs, j1 + 1, j2 + 1);
    }
}

/// Every saved index of the view is at most `b`.
pub open spec fn saves_le(sv: Seq<Option<usize>>, b: int) -> bool {
    forall|k: int| 0 <= k < sv.len() ==> ((#[trigger] sv[k]) matches Some(v) ==> v <= b)
}

/// Every saved index of every state on the list is at most `b`.
pub open spec fn list_saves_le(list: Seq<(InstrPtr, Seq<Option<usize>>)>, b: int) -> bool {
    forall|k: int| 0 <= k < list.len() ==> saves_le((#[trigger] list[k]).1, b)
}

/// Slot `1` — the end of the whole match — is saved, and bounds every other
/// saved index; in particular the whole span's start is at most its end.
pub open spec fn max_slot_one(sv: Seq<Option<usize>>) -> bool {
    &&& sv.len() >= 2
    &&& sv[1] is Some
    &&& forall|k: int| 0 <= k < sv.len() ==> ((#[trigger] sv[k]) matches Some(v) ==> v <= sv[1]->0)
}

/// Every thread that sits at the final `Match` instruction already carries
/// an ordered span.
pub open spec fn match_pc_ok<T: Token>(
    prog: Seq<Instr<T, SaveList>>,
    list: Seq<(InstrPtr, Seq<Option<usize>>)>,
) -> bool {
    forall|k: int|
        0 <= k < list.len() ==> ((#[trigger] list[k]).0 == prog.len() - 1 ==> max_slot_one(
            list[k].1,
        ))
}

/// Every recorded result carries an ordered span.
pub open spec fn results_span_ok(results: Seq<Seq<Option<usize>>>) -> bool {
    forall|m: int| 0 <= m < results.len() ==> max_slot_one(#[trigger] results[m])
}

/// Admission into a match-guarded program: states whose saves are bounded by
/// the admission index reach the final `Match` only through the final
/// end-slot update, so they arrive with an ordered span.
proof fn lemma_add_guarded<T: Token>(
    prog: Seq<Instr<T, SaveList>>,
    list: Seq<(InstrPtr, Seq<Option<usize>>)>,
    ip: InstrPtr,
    token_index: usize,
    token: Option<T>,
    st: Seq<Option<usize>>,
    fuel: nat,
    b: int,
)
    requires
        match_guarded(prog),
        saves_le(st, token_index as int),
        token_index <= b,
        list_saves_le(list, b),
        match_pc_ok(prog, list),
        ip < prog.len(),
        ip == prog.len() - 1 ==> max_slot_one(st),
    ensures
        list_saves_le(spec_add_thread(prog, list, ip, token_index, token, st, fuel), b),
        match_pc_ok(prog, spec_add_thread(prog, list, ip, token_index, token, st, fuel)),
    decreases fuel,
{
    let last = prog.len() as int - 1;
    if fuel > 0 {
        match prog[ip as int] {
            Instr::Split(a) => {
                let l1 = spec_add_thread(
                    prog,
                    list,
                    (ip + 1) as InstrPtr,
                    token_index,
                    token,
                    st,
                    (fuel - 1) as nat,
                );
                lemma_add_guarded(
                    prog,
                    list,
                    (ip + 1) as InstrPtr,
                    token_index,
                    token,
                    st,
                    (fuel - 1) as nat,
                    b,
                );
                lemma_add_guarded(prog, l1, a, token_index, token, st, (fuel - 1) as nat, b);
            },
            Instr::JSplit(a) => {
                let l1 = spec_add_thread(prog, list, a, token_index, token, st, (fuel - 1) as nat);
                lemma_add_guarded(prog, list, a, token_index, token, st, (fuel - 1) as nat, b);
                lemma_add_guarded(
                    prog,
                    l1,
                    (ip + 1) as InstrPtr,
                    token_index,
                    token,
                    st,
                    (fuel - 1) as nat,
                    b,
                );
            },
            Instr::Jump(a) => {
                lemma_add_guarded(prog, list, a, token_index, token, st, (fuel - 1) as nat, b);
            },
            Instr::UpdateState(u) => {
                match <SaveList as State<T>>::spec_update(st, u, ip, token_index, token) {
                    Some(v) => {
                        assert(saves_le(v, token_index as int));
                        if ip as int == last - 1 {
                            assert(u == 1);
                            assert(v[1] == Some(token_index));
                            assert(max_slot_one(v));
                        }
                        lemma_add_guarded(
                            prog,
                            list,
                            (ip + 1) as InstrPtr,
                            token_index,
                            token,
                            v,
                            (fuel - 1) as nat,
                            b,
                        );
                    },
                    None => {},
                }
            },
            Instr::Reject => {},
            _ => {
                assert(list_saves_le(list.push((ip, st)), b));
                assert(match_pc_ok(prog, list.push((ip, st))));
            },
        }
    } else {
        match prog[ip as int] {
            Instr::Split(_) => {},
            Instr::JSplit(_) => {},
            Instr::Jump(_) => {},
            Instr::UpdateState(_) => {},
            Instr::Reject => {},
            _ => {
                assert(list_saves_le(list.push((ip, st)), b));
                assert(match_pc_ok(prog, list.push((ip, st))));
            },
        }
    }
}

/// One advance over the thread list keeps saves bounded by the new index and
/// spans ordered.
proof fn lemma_step_guarded<T: Token>(
    prog: Seq<Instr<T, SaveList>>,
    curr: Seq<(InstrPtr, Seq<Option<usize>>)>,
    k: int,
    next: Seq<(InstrPtr, Seq<Option<usize>>)>,
    results: Seq<Seq<Option<usize>>>,
    idx: usize,
    tok: T,
    word_boundary: bool,
    prev_index: usize,
)
    requires
        match_guarded(prog),
        list_saves_le(curr, prev_index as int),
        list_saves_le(next, idx as int),
        match_pc_ok(prog, curr),
        match_pc_ok(prog, next),
        results_span_ok(results),
        prev_index <= idx,
    ensures
        list_saves_le(
            spec_step_list(prog, curr, k, next, results, idx, tok, word_boundary, prev_index).0,
            idx as int,
        ),
        match_pc_ok(
            prog,
            spec_step_list(prog, curr, k, next, results, idx, tok, word_boundary, prev_index).0,
        ),
        results_span_ok(
            spec_step_list(prog, curr, k, next, results, idx, tok, word_boundary, prev_index).1,
        ),
    decreases curr.len() - k,
{
    let last = prog.len() as int - 1;
    if 0 <= k < curr.len() {
        let pc = curr[k].0;
        let st = curr[k].1;
        let fuel = prog.len() as nat;
        assert(saves_le(st, prev_index as int));
        if pc < prog.len() {
            match prog[pc as int] {
                Instr::Token(t) => {
                    if tok == t {
                        assert(pc as int != last && pc as int != last - 1);
                        lemma_add_guarded(
                            prog,
                            next,
                            (pc + 1) as InstrPtr,
                            idx,
                            Some(tok),
                            st,
                            fuel,
                            idx as int,
                        );
                    }
                },
                Instr::Any => {
                    assert(pc as int != last && pc as int != last - 1);
                    lemma_add_guarded(
                        prog,
                        next,
                        (pc + 1) as InstrPtr,
                        idx,
                        Some(tok),
                        st,
                        fuel,
                        idx as int,
                    );
                },
                Instr::Class(s) => {
                    if s.spec_contains(tok) {
                        assert(pc as int != last && pc as int != last - 1);
                        lemma_add_guarded(
                            prog,
                            next,
                            (pc + 1) as InstrPtr,
                            idx,
                            Some(tok),
                            st,
                            fuel,
                            idx as int,
                        );
                    }
                },
                Instr::Table(m) => {
                    assert(pc as int != last && pc as int != last - 1);
                    let target = match m.spec_get(tok) {
                        Some(p) => p,
                        None => (pc + 1) as InstrPtr,
                    };
                    lemma_add_guarded(prog, next, target, idx, Some(tok), st, fuel, idx as int);
                },
                Instr::WordBoundary => {
                    if word_boundary {
                        assert(pc as int != last && pc as int != last - 1);
                        lemma_add_guarded(
                            prog,
                            next,
                            (pc + 1) as InstrPtr,
                            prev_index,
                            Some(tok),
                            st,
                            fuel,
                            idx as int,
                        );
                    }
                },
                Instr::Match => {
                    assert(pc as int == last);
                    assert(max_slot_one(st));
                    assert(results_span_ok(results.push(st)));
                },
                _ => {},
            }
        }
        let stepped = step_of(prog, curr, k, next, results, idx, tok, word_boundary, prev_index);
        lemma_step_guarded(
            prog,
            curr,
            k + 1,
            stepped.0,
            stepped.1,
            idx,
            tok,
            word_boundary,
            prev_index,
        );
    }
}

/// A whole run over a stream of nondecreasing indices keeps spans ordered.
proof fn lemma_run_guarded<T: Token>(
    prog: Seq<Instr<T, SaveList>>,
    vm: VmState<Seq<Option<usize>>>,
    stream: Seq<(usize, T)>,
)
    requires
        match_guarded(prog),
        list_saves_le(vm.curr, vm.index as int),
        match_pc_ok(prog, vm.curr),
        results_span_ok(vm.results),
        forall|j: int| 0 <= j < stream.len() ==> vm.index <= (#[trigger] stream[j]).0,
        forall|j1: int, j2: int|
            0 <= j1 <= j2 < stream.len() ==> stream[j1].0 <= stream[j2].0,
    ensures
        list_saves_le(spec_run(prog, vm, stream).curr, spec_run(prog, vm, stream).index as int),
        match_pc_ok(prog, spec_run(prog, vm, stream).curr),
        results_span_ok(spec_run(prog, vm, stream).results),
    decreases stream.len(),
{
    if stream.len() > 0 {
        let idx = stream[0].0;
        let tok = stream[0].1;
        let new_word = tok.spec_is_word();
        let word_boundary = new_word != vm.word;
        assert(list_saves_le(Seq::empty(), idx as int));
        assert(match_pc_ok(prog, Seq::<(InstrPtr, Seq<Option<usize>>)>::empty()));
        lemma_step_guarded(
            prog,
            vm.curr,
            0,
            Seq::empty(),
            vm.results,
            idx,
            tok,
            word_boundary,
            vm.index,
        );
        let vm1 = spec_consume(prog, vm, idx, tok);
        assert(forall|j: int|
            0 <= j < stream.drop_first().len() ==> vm1.index <= (#[trigger] stream.drop_first()[
                j
            ]).0);
        assert(forall|j1: int, j2: int|
            0 <= j1 <= j2 < stream.drop_first().len() ==> stream.drop_first()[j1].0
                <= stream.drop_first()[j2].0);
        lemma_run_guarded(prog, vm1, stream.drop_first());
    }
}

/// The terminal sweeps keep spans ordered.
proof fn lemma_finish_guarded<T: Token>(
    prog: Seq<Instr<T, SaveList>>,
    curr: Seq<(InstrPtr, Seq<Option<usize>>)>,
    k: int,
    next: Seq<(InstrPtr, Seq<Option<usize>>)>,
    results: Seq<Seq<Option<usize>>>,
    word: bool,
    index: usize,
)
    requires
        match_guarded(prog),
        list_saves_le(curr, index as int),
        list_saves_le(next, index as int),
        match_pc_ok(prog, curr),
        match_pc_ok(prog, next),
        results_span_ok(results),
    ensures
        list_saves_le(spec_finish_list(prog, curr, k, next, results, word, index).0, index as int),
        match_pc_ok(prog, spec_finish_list(prog, curr, k, next, results, word, index).0),
        results_span_ok(spec_finish_list(prog, curr, k, next, results, word, index).1),
    decreases curr.len() - k,
{
    let last = prog.len() as int - 1;
    if 0 <= k < curr.len() {
        let pc = curr[k].0;
        let st = curr[k].1;
        assert(saves_le(st, index as int));
        let stepped: (Seq<(InstrPtr, Seq<Option<usize>>)>, Seq<Seq<Option<usize>>>) = if pc
            >= prog.len() {
            (next, results)
        } else {
            match prog[pc as int] {
                Instr::WordBoundary => if word {
                    (
                        spec_add_thread(
                            prog,
                            next,
                            (pc + 1) as InstrPtr,
                            index,
                            None,
                            st,
                            prog.len() as nat,
                        ),
                        results,
                    )
                } else {
                    (next, results)
                },
                Instr::Match => (next, results.push(st)),
                _ => (next, results),
            }
        };
        if pc < prog.len() {
            match prog[pc as int] {
                Instr::WordBoundary => {
                    if word {
                        assert(pc as int != last && pc as int != last - 1);
                        lemma_add_guarded(
                            prog,
                            next,
                            (pc + 1) as InstrPtr,
                            index,
                            None,
                            st,
                            prog.len() as nat,
                            index as int,
                        );
                    }
                },
                Instr::Match => {
                    assert(pc as int == last);
                    assert(max_slot_one(st));
                    assert(results_span_ok(results.push(st)));
                },
                _ => {},
            }
        }
        lemma_finish_guarded(prog, curr, k + 1, stepped.0, stepped.1, word, index);
    }
}

/// The final collection keeps spans ordered.
proof fn lemma_collect_guarded<T: Token>(
    prog: Seq<Instr<T, SaveList>>,
    list: Seq<(InstrPtr, Seq<Option<usize>>)>,
    k: int,
    results: Seq<Seq<Option<usize>>>,
)
    requires
        match_guarded(prog),
        match_pc_ok(prog, list),
        results_span_ok(results),
    ensures
        results_span_ok(spec_collect(prog, list, k, results)),
    decreases list.len() - k,
{
    if 0 <= k < list.len() {
        let stepped: Seq<Seq<Option<usize>>> = if list[k].0 < prog.len() && (prog[list[k].0 as int]
            matches Instr::Match) {
            results.push(list[k].1)
        } else {
            results
        };
        if list[k].0 < prog.len() && (prog[list[k].0 as int] matches Instr::Match) {
            assert(list[k].0 == prog.len() - 1);
            assert(max_slot_one(list[k].1));
        }
        assert(results_span_ok(stepped));
        lemma_collect_guarded(prog, list, k + 1, stepped);
    }
}

/// Whole-span order: when a match-guarded program (such as any compiled
/// program) runs over a stream of nondecreasing indices, every result saves
/// the end of the whole match in slot `1`, and every other saved index —
/// the whole match's start in slot `0` included — is at most that end.
pub proof fn lemma_match_spans_ordered<T: Token>(
    prog: Seq<Instr<T, SaveList>>,
    init: usize,
    stream: Seq<(usize, T)>,
)
    requires
        match_guarded(prog),
        forall|j1: int, j2: int| 0 <= j1 <= j2 < stream.len() ==> stream[j1].0 <= stream[j2].0,
    ensures
        results_span_ok(spec_exec(prog, init, stream)),
{
    let seed = spec_seed::<T, SaveList>(prog, init);
    assert(saves_le(<SaveList as State<T>>::spec_init(init), 0));
    assert(list_saves_le(Seq::empty(), 0));
    assert(match_pc_ok(prog, Seq::<(InstrPtr, Seq<Option<usize>>)>::empty()));
    lemma_add_guarded(
        prog,
        Seq::empty(),
        0,
        0,
        None,
        <SaveList as State<T>>::spec_init(init),
        prog.len() as nat,
        0,
    );
    assert(results_span_ok(Seq::empty()));
    lemma_run_guarded(prog, seed, stream);
    let vmn = spec_run(prog, seed, stream);
    assert(list_saves_le(Seq::empty(), vmn.index as int));
    assert(match_pc_ok(prog, Seq::<(InstrPtr, Seq<Option<usize>>)>::empty()));
    lemma_finish_guarded(prog, vmn.curr, 0, Seq::empty(), vmn.results, vmn.word, vmn.index);
    let swept = spec_finish_list(prog, vmn.curr, 0, Seq::empty(), vmn.results, vmn.word, vmn.index);
    lemma_collect_guarded(prog, swept.0, 0, swept.1);
}

/// Slot `0` — the start of the whole match — is saved.
pub open spec fn start_saved(sv: Seq<Option<usize>>) -> bool {
    sv.len() >= 1 && sv[0] is Some
}

/// Every thread past the entry preamble carries the whole match's start.
pub open spec fn starts_saved<T: Token>(
    prog: Seq<Instr<T, SaveList>>,
    list: Seq<(InstrPtr, Seq<Option<usize>>)>,
) -> bool {
    forall|k: int| 0 <= k < list.len() ==> ((#[trigger] list[k]).0 >= 4 ==> start_saved(list[k].1))
}

/// Every recorded result carries the whole match's start.
pub open spec fn results_start_saved(results: Seq<Seq<Option<usize>>>) -> bool {
    forall|m: int| 0 <= m < results.len() ==> start_saved(#[trigger] results[m])
}

/// Admission into an entry-guarded program: control enters the code past
/// the preamble only through the preamble's start update, so every admitted
/// thread there has the whole match's start saved.
proof fn lemma_add_entry<T: Token>(
    prog: Seq<Instr<T, SaveList>>,
    list: Seq<(InstrPtr, Seq<Option<usize>>)>,
    ip: InstrPtr,
    token_index: usize,
    token: Option<T>,
    st: Seq<Option<usize>>,
    fuel: nat,
)
    requires
        entry_guarded(prog),
        ip < prog.len(),
        ip >= 4 ==> start_saved(st),
        starts_saved(prog, list),
    ensures
        starts_saved(prog, spec_add_thread(prog, list, ip, token_index, token, st, fuel)),
    decreases fuel,
{
    if fuel > 0 {
        match prog[ip as int] {
            Instr::Split(a) => {
                let l1 = spec_add_thread(
                    prog,
                    list,
                    (ip + 1) as InstrPtr,
                    token_index,
                    token,
                    st,
                    (fuel - 1) as nat,
                );
                lemma_add_entry(
                    prog,
                    list,
                    (ip + 1) as InstrPtr,
                    token_index,
                    token,
                    st,
                    (fuel - 1) as nat,
                );
                lemma_add_entry(prog, l1, a, token_index, token, st, (fuel - 1) as nat);
            },
            Instr::JSplit(a) => {
                let l1 = spec_add_thread(prog, list, a, token_index, token, st, (fuel - 1) as nat);
                lemma_add_entry(prog, list, a, token_index, token, st, (fuel - 1) as nat);
                lemma_add_entry(
                    prog,
                    l1,
                    (ip + 1) as InstrPtr,
                    token_index,
                    token,
                    st,
                    (fuel - 1) as nat,
                );
            },
            Instr::Jump(a) => {
                lemma_add_entry(prog, list, a, token_index, token, st, (fuel - 1) as nat);
            },
            Instr::UpdateState(u) => {
                match <SaveList as State<T>>::spec_update(st, u, ip, token_index, token) {
                    Some(v) => {
                        if ip == 3 {
                            assert(u == 0);
                            assert(v[0] == Some(token_index));
                            assert(start_saved(v));
                        }
                        if ip >= 4 {
                            assert(start_saved(v));
                        }
                        lemma_add_entry(
                            prog,
                            list,
                            (ip + 1) as InstrPtr,
                            token_index,
                            token,
                            v,
                            (fuel - 1) as nat,
                        );
                    },
                    None => {},
                }
            },
            Instr::Reject => {},
            _ => {
                assert(starts_saved(prog, list.push((ip, st))));
            },
        }
    } else {
        match prog[ip as int] {
            Instr::Split(_) => {},
            Instr::JSplit(_) => {},
            Instr::Jump(_) => {},
            Instr::UpdateState(_) => {},
            Instr::Reject => {},
            _ => {
                assert(starts_saved(prog, list.push((ip, st))));
            },
        }
    }
}

/// One advance over the thread list keeps the whole match's start saved.
proof fn lemma_step_entry<T: Token>(
    prog: Seq<Instr<T, SaveList>>,
    curr: Seq<(InstrPtr, Seq<Option<usize>>)>,
    k: int,
    next: Seq<(InstrPtr, Seq<Option<usize>>)>,
    results: Seq<Seq<Option<usize>>>,
    idx: usize,
    tok: T,
    word_boundary: bool,
    prev_index: usize,
)
    requires
        entry_guarded(prog),
        starts_saved(prog, curr),
        starts_saved(prog, next),
        results_start_saved(results),
    ensures
        starts_saved(
            prog,
            spec_step_list(prog, curr, k, next, results, idx, tok, word_boundary, prev_index).0,
        ),
        results_start_saved(
            spec_step_list(prog, curr, k, next, results, idx, tok, word_boundary, prev_index).1,
        ),
    decreases curr.len() - k,
{
    if 0 <= k < curr.len() {
        let pc = curr[k].0;
        let st = curr[k].1;
        let fuel = prog.len() as nat;
        if pc < prog.len() {
            match prog[pc as int] {
                Instr::Token(t) => {
                    if tok == t {
                        assert(pc >= 4);
                        lemma_add_entry(prog, next, (pc + 1) as InstrPtr, idx, Some(tok), st, fuel);
                    }
                },
                Instr::Any => {
                    if pc == 1 {
                        lemma_add_entry(prog, next, 2, idx, Some(tok), st, fuel);
                    } else {
                        assert(pc >= 4);
                        lemma_add_entry(prog, next, (pc + 1) as InstrPtr, idx, Some(tok), st, fuel);
                    }
                },
                Instr::Class(s) => {
                    if s.spec_contains(tok) {
                        assert(pc >= 4);
                        lemma_add_entry(prog, next, (pc + 1) as InstrPtr, idx, Some(tok), st, fuel);
                    }
                },
                Instr::Table(m) => {
                    assert(pc >= 4);
                    let target = match m.spec_get(tok) {
                        Some(p) => p,
                        None => (pc + 1) as InstrPtr,
                    };
                    lemma_add_entry(prog, next, target, idx, Some(tok), st, fuel);
                },
                Instr::WordBoundary => {
                    if word_boundary {
                        assert(pc >= 4);
                        lemma_add_entry(
                            prog,
                            next,
                            (pc + 1) as InstrPtr,
                            prev_index,
                            Some(tok),
                            st,
                            fuel,
                        );
                    }
                },
                Instr::Match => {
                    assert(pc >= 4);
                    assert(start_saved(st));
                    assert(results_start_saved(results.push(st)));
                },
                _ => {},
            }
        }
        let stepped = step_of(prog, curr, k, next, results, idx, tok, word_boundary, prev_index);
        lemma_step_entry(
            prog,
            curr,
            k + 1,
            stepped.0,
            stepped.1,
            idx,
            tok,
            word_boundary,
            prev_index,
        );
    }
}

/// A whole run keeps the whole match's start saved.
proof fn lemma_run_entry<T: Token>(
    prog: Seq<Instr<T, SaveList>>,
    vm: VmState<Seq<Option<usize>>>,
    stream: Seq<(usize, T)>,
)
    requires
        entry_guarded(prog),
        starts_saved(prog, vm.curr),
        results_start_saved(vm.results),
    ensures
        starts_saved(prog, spec_run(prog, vm, stream).curr),
        results_start_saved(spec_run(prog, vm, stream).results),
    decreases stream.len(),
{
    if stream.len() > 0 {
        let idx = stream[0].0;
        let tok = stream[0].1;
        let new_word = tok.spec_is_word();
        let word_boundary = new_word != vm.word;
        assert(starts_saved(prog, Seq::<(InstrPtr, Seq<Option<usize>>)>::empty()));
        lemma_step_entry(
            prog,
            vm.curr,
            0,
            Seq::empty(),
            vm.results,
            idx,
            tok,
            word_boundary,
            vm.index,
        );
        lemma_run_entry(prog, spec_consume(prog, vm, idx, tok), stream.drop_first());
    }
}

/// The terminal sweeps keep the whole match's start saved.
proof fn lemma_finish_entry<T: Token>(
    prog: Seq<Instr<T, SaveList>>,
    curr: Seq<(InstrPtr, Seq<Option<usize>>)>,
    k: int,
    next: Seq<(InstrPtr, Seq<Option<usize>>)>,
    results: Seq<Seq<Option<usize>>>,
    word: bool,
    index: usize,
)
    requires
        entry_guarded(prog),
        starts_saved(prog, curr),
        starts_saved(prog, next),
        results_start_saved(results),
    ensures
        starts_saved(prog, spec_finish_list(prog, curr, k, next, results, word, index).0),
        results_start_saved(spec_finish_list(prog, curr, k, next, results, word, index).1),
    decreases curr.len() - k,
{
    if 0 <= k < curr.len() {
        let pc = curr[k].0;
        let st = curr[k].1;
        let stepped: (Seq<(InstrPtr, Seq<Option<usize>>)>, Seq<Seq<Option<usize>>>) = if pc
            >= prog.len() {
            (next, results)
        } else {
            match prog[pc as int] {
                Instr::WordBoundary => if word {
                    (
                        spec_add_thread(
                            prog,
                            next,
                            (pc + 1) as InstrPtr,
                            index,
                            None,
                            st,
                            prog.len() as nat,
                        ),
                        results,
                    )
                } else {
                    (next, results)
                },
                Instr::Match => (next, results.push(st)),
                _ => (next, results),
            }
        };
        if pc < prog.len() {
            match prog[pc as int] {
                Instr::WordBoundary => {
                    if word {
                        assert(pc >= 4);
                        lemma_add_entry(
                            prog,
                            next,
                            (pc + 1) as InstrPtr,
                            index,
                            None,
                            st,
                            prog.len() as nat,
                        );
                    }
                },
                Instr::Match => {
                    assert(pc >= 4);
                    assert(results_start_saved(results.push(st)));
                },
                _ => {},
            }
        }
        lemma_finish_entry(prog, curr, k + 1, stepped.0, stepped.1, word, index);
    }
}

/// The final collection keeps the whole match's start saved.
proof fn lemma_collect_entry<T: Token>(
    prog: Seq<Instr<T, SaveList>>,
    list: Seq<(InstrPtr, Seq<Option<usize>>)>,
    k: int,
    results: Seq<Seq<Option<usize>>>,
)
    requires
        entry_guarded(prog),
        starts_saved(prog, list),
        results_start_saved(results),
    ensures
        results_start_saved(spec_collect(prog, list, k, results)),
    decreases list.len() - k,
{
    if 0 <= k < list.len() {
        let stepped: Seq<Seq<Option<usize>>> = if list[k].0 < prog.len() && (prog[list[k].0 as int]
            matches Instr::Match) {
            results.push(list[k].1)
        } else {
            results
        };
        if list[k].0 < prog.len() && (prog[list[k].0 as int] matches Instr::Match) {
            assert(list[k].0 >= 4);
            assert(start_saved(list[k].1));
        }
        assert(results_start_saved(stepped));
        lemma_collect_entry(prog, list, k + 1, stepped);
    }
}

/// Whole-span start: when an entry-guarded program (such as any compiled
/// program) runs over the `SaveList` state, every result saves the start of
/// the whole match in slot `0`.  Together with
/// [`lemma_match_spans_ordered`], every result of a compiled program has
/// both whole-span slots saved, with start at most end.
pub proof fn lemma_match_starts_saved<T: Token>(
    prog: Seq<Instr<T, SaveList>>,
    init: usize,
    stream: Seq<(usize, T)>,
)
    requires
        entry_guarded(prog),
    ensures
        results_start_saved(spec_exec(prog, init, stream)),
{
    let seed = spec_seed::<T, SaveList>(prog, init);
    assert(starts_saved(prog, Seq::<(InstrPtr, Seq<Option<usize>>)>::empty()));
    lemma_add_entry(
        prog,
        Seq::empty(),
        0,
        0,
        None,
        <SaveList as State<T>>::spec_init(init),
        prog.len() as nat,
    );
    assert(results_start_saved(Seq::empty()));
    lemma_run_entry(prog, seed, stream);
    let vmn = spec_run(prog, seed, stream);
    assert(starts_saved(prog, Seq::<(InstrPtr, Seq<Option<usize>>)>::empty()));
    lemma_finish_entry(prog, vmn.curr, 0, Seq::empty(), vmn.results, vmn.word, vmn.index);
    let swept = spec_finish_list(prog, vmn.curr, 0, Seq::empty(), vmn.results, vmn.word, vmn.index);
    lemma_collect_entry(prog, swept.0, 0, swept.1);
}

} // verus!
