//! The instruction set, the program container, and the VM execution engine.
//!
//! The engine is a Pike VM: a breadth-first simulation of a Thompson NFA in
//! which, at each input position, a *current* list of threads is advanced to
//! a *next* list by consuming one token, with zero-width instructions
//! resolved by transitive closure during admission rather than during the
//! step.
//!
//! Execution is specified exactly: [`spec_exec`] is a mathematical function
//! from the instruction sequence, the state initialiser and the token stream
//! to the sequence of result state views, and [`Program::exec`] returns
//! precisely its value.

use vstd::prelude::*;

use crate::searcher::{uniform_stream, IntoSearcher, IterSearcher, Searcher};
use crate::state::{ctx_token, ProgramState, SaveList, State};
use crate::token::{Token, TokenMap, TokenSet};

verus! {

/// Type for indexing into a program.
pub type InstrPtr = usize;

/// A single instruction.
pub enum Instr<T: Token, S: State<T>> {
    /// Matches a single token.
    Token(T),
    /// Matches any token.
    Any,
    /// Maps input tokens to new `InstrPtr`s. If the input token is not found,
    /// falls through to the next instruction. `Table` always consumes.
    Table(T::Map),
    /// Matches a single token from a class of tokens.
    Class(T::Set),
    /// Matches a word boundary.
    WordBoundary,
    /// Splits into two threads, preferring not to jump. Used to implement
    /// alternations and quantifiers.
    Split(InstrPtr),
    /// Splits into two threads, preferring to jump. Used to implement
    /// alternations and quantifiers.
    JSplit(InstrPtr),
    /// Jumps to a new point in the program.
    Jump(InstrPtr),
    /// Updates the thread state with the specified update argument; if the
    /// update rejects, the thread dies.
    ///
    /// For the `SaveList` state, this saves the current token index to the
    /// indicated save slot. In general, save the start of the *n*th capturing
    /// group to slot `2n`, and the end to slot `2n + 1`.
    UpdateState(S::Update),
    /// Rejects a potential match. Can be used after a `Table` when
    /// fallthrough should fail.
    Reject,
    /// The end of a match.
    Match,
}

/// Well-formedness of one instruction: every instruction pointer the engine
/// can step to from it lies within the program, and its class carrier (if
/// any) is well formed.
pub open spec fn instr_wf<T: Token, S: State<T>>(prog: Seq<Instr<T, S>>, i: int) -> bool {
    match prog[i] {
        Instr::Token(_) => i + 1 < prog.len(),
        Instr::Any => i + 1 < prog.len(),
        Instr::Table(m) => m.wf() && i + 1 < prog.len() && (forall|t: T|
            (#[trigger] m.spec_get(t)) matches Some(p) ==> p < prog.len()),
        Instr::Class(s) => s.wf() && i + 1 < prog.len(),
        Instr::WordBoundary => i + 1 < prog.len(),
        Instr::Split(a) => i + 1 < prog.len() && a < prog.len(),
        Instr::JSplit(a) => i + 1 < prog.len() && a < prog.len(),
        Instr::Jump(a) => a < prog.len(),
        Instr::UpdateState(_) => i + 1 < prog.len(),
        Instr::Reject => true,
        Instr::Match => true,
    }
}

/// Well-formedness of a whole program: it is non-empty and every instruction
/// is well formed.  Executing a well-formed program cannot fail.
pub open spec fn prog_wf<T: Token, S: State<T>>(prog: Seq<Instr<T, S>>) -> bool {
    prog.len() > 0 && (forall|i: int| 0 <= i < prog.len() ==> instr_wf(prog, i))
}

/// A program over the `SaveList` state whose only way to record a match is
/// its final `UpdateState(1); Match` pair: every other instruction steps to
/// an instruction at or before that final update, and no other `Match`
/// exists.  The compiler emits exactly such programs, and for them the end
/// slot of the whole match bounds every other saved index.
pub open spec fn match_guarded<T: Token>(prog: Seq<Instr<T, SaveList>>) -> bool {
    let last = prog.len() as int - 1;
    &&& prog.len() >= 3
    &&& prog[last] == Instr::<T, SaveList>::Match
    &&& prog[last - 1] == Instr::<T, SaveList>::UpdateState(1usize)
    &&& forall|i: int|
        0 <= i < last - 1 ==> match #[trigger] prog[i] {
            Instr::Token(_) => i + 1 <= last - 1,
            Instr::Any => i + 1 <= last - 1,
            Instr::Table(m) => i + 1 <= last - 1 && (forall|t: T|
                (#[trigger] m.spec_get(t)) matches Some(p) ==> p <= last - 1),
            Instr::Class(_) => i + 1 <= last - 1,
            Instr::WordBoundary => i + 1 <= last - 1,
            Instr::Split(a) => i + 1 <= last - 1 && a <= last - 1,
            Instr::JSplit(a) => i + 1 <= last - 1 && a <= last - 1,
            Instr::Jump(a) => a <= last - 1,
            Instr::UpdateState(_) => i + 1 <= last - 1,
            Instr::Reject => true,
            Instr::Match => false,
        }
}

/// A program over the `SaveList` state that opens with the compiler's
/// preamble — the lazy `.*?` loop followed by the whole-match start update —
/// and whose remaining instructions never branch back into that preamble.
/// The compiler emits exactly such programs, and for them every thread past
/// the preamble, and so every recorded match, carries the whole match's
/// start in slot `0`.
pub open spec fn entry_guarded<T: Token>(prog: Seq<Instr<T, SaveList>>) -> bool {
    &&& prog.len() >= 6
    &&& prog[0] == Instr::<T, SaveList>::JSplit(3)
    &&& prog[1] == Instr::<T, SaveList>::Any
    &&& prog[2] == Instr::<T, SaveList>::Jump(0)
    &&& prog[3] == Instr::<T, SaveList>::UpdateState(0usize)
    &&& forall|i: int|
        4 <= i < prog.len() ==> match #[trigger] prog[i] {
            Instr::Token(_) => i + 1 < prog.len(),
            Instr::Any => i + 1 < prog.len(),
            Instr::Table(m) => i + 1 < prog.len() && (forall|t: T|
                (#[trigger] m.spec_get(t)) matches Some(p) ==> 4 <= p < prog.len()),
            Instr::Class(_) => i + 1 < prog.len(),
            Instr::WordBoundary => i + 1 < prog.len(),
            Instr::Split(a) => i + 1 < prog.len() && 4 <= a < prog.len(),
            Instr::JSplit(a) => i + 1 < prog.len() && 4 <= a < prog.len(),
            Instr::Jump(a) => 4 <= a < prog.len(),
            Instr::UpdateState(_) => i + 1 < prog.len(),
            Instr::Reject => true,
            Instr::Match => true,
        }
}

/// A thread, consisting of an `InstrPtr` to the current instruction, and the
/// state the thread carries.
struct Thread<S> {
    /// Pointer to the current instruction.
    pc: InstrPtr,
    /// The thread's state.
    state: S,
}

impl<S> Thread<S> {
    /// Creates a new `Thread` with the specified instruction pointer and the
    /// given state.
    fn new(pc: InstrPtr, state: S) -> (th: Thread<S>)
        ensures
            th.pc == pc,
            th.state == state,
    {
        Thread { pc, state }
    }
}

/// The view of a thread list: each thread as its instruction pointer paired
/// with its state view.
spec fn threads_view<S: View>(threads: Seq<Thread<S>>) -> Seq<(InstrPtr, S::V)> {
    threads.map_values(|th: Thread<S>| (th.pc, th.state@))
}

/// A list of threads.
struct ThreadList<S> {
    threads: Vec<Thread<S>>,
}

/// One step of admission (epsilon closure), as a mathematical function.
///
/// Admitting a thread at `ip` with state view `st` eliminates zero-width
/// instructions by transitively forking (`Split`, `JSplit`), moving (`Jump`),
/// updating (`UpdateState`) or dropping (`Reject`, a rejected update), so
/// that only threads at consuming instructions, `WordBoundary` or `Match` are
/// appended to the list.  The order of admission determines match priority.
///
/// `fuel` bounds the closure depth; the engine runs it with fuel equal to the
/// program length, which no chain of zero-width instructions in a cycle-free
/// program can exhaust.
pub open spec fn spec_add_thread<T: Token, S: State<T>>(
    prog: Seq<Instr<T, S>>,
    list: Seq<(InstrPtr, S::V)>,
    ip: InstrPtr,
    token_index: usize,
    token: Option<T>,
    st: S::V,
    fuel: nat,
) -> Seq<(InstrPtr, S::V)>
    decreases fuel,
{
    if ip >= prog.len() {
        list
    } else {
        match prog[ip as int] {
            Instr::Split(a) => if fuel == 0 {
                list
            } else {
                let l1 = spec_add_thread(
                    prog,
                    list,
                    (ip + 1) as InstrPtr,
                    token_index,
                    token,
                    st,
                    (fuel - 1) as nat,
                );
                spec_add_thread(prog, l1, a, token_index, token, st, (fuel - 1) as nat)
            },
            Instr::JSplit(a) => if fuel == 0 {
                list
            } else {
                let l1 = spec_add_thread(prog, list, a, token_index, token, st, (fuel - 1) as nat);
                spec_add_thread(
                    prog,
                    l1,
                    (ip + 1) as InstrPtr,
                    token_index,
                    token,
                    st,
                    (fuel - 1) as nat,
                )
            },
            Instr::Jump(a) => if fuel == 0 {
                list
            } else {
                spec_add_thread(prog, list, a, token_index, token, st, (fuel - 1) as nat)
            },
            Instr::UpdateState(u) => if fuel == 0 {
                list
            } else {
                match S::spec_update(st, u, ip, token_index, token) {
                    Some(v) => spec_add_thread(
                        prog,
                        list,
                        (ip + 1) as InstrPtr,
                        token_index,
                        token,
                        v,
                        (fuel - 1) as nat,
                    ),
                    None => list,
                }
            },
            Instr::Reject => list,
            _ => list.push((ip, st)),
        }
    }
}

impl<S> ThreadList<S> {
    /// Creates a new `ThreadList` with a specified capacity.
    fn new(cap: usize) -> (l: ThreadList<S>)
        ensures
            l.threads@ =~= Seq::<Thread<S>>::empty(),
    {
        ThreadList { threads: Vec::with_capacity(cap) }
    }

    /// Adds a new thread with the instruction pointer of `program_state` and
    /// the given state. If the instruction pointer points to a `Jump`,
    /// `Split`, `JSplit`, `UpdateState` or `Reject` instruction, calls
    /// `add_thread` recursively, so that the active thread list never
    /// contains pointers to those instructions.
    ///
    /// Alternate paths are deliberately kept alive even when they share an
    /// instruction pointer, in case they produce different submatch values.
    fn add_thread<'a, T: Token>(
        &mut self,
        program_state: ProgramState<'a, T>,
        prog: &Program<T, S>,
        state: S,
        fuel: usize,
    ) where S: State<T>
        requires
            prog.wf(),
            program_state.instruction_ptr < prog.instructions().len(),
        ensures
            threads_view(final (self).threads@) == spec_add_thread(
                prog.instructions(),
                threads_view(old(self).threads@),
                program_state.instruction_ptr,
                program_state.token_index,
                ctx_token(program_state.token),
                state@,
                fuel as nat,
            ),
        decreases fuel,
    {
        let ip = program_state.instruction_ptr;
        proof {
            assert(instr_wf(prog.instructions(), ip as int));
            assert(prog.prog@.len() <= usize::MAX) by {
                assert(prog.prog.len() == prog.prog@.len());
            }
        }
        match &prog.prog[ip] {
            Instr::Split(a) => {
                if fuel > 0 {
                    // the branch with no jump is higher priority; clone the
                    // state so it can be used again in the second branch
                    self.add_thread(program_state.increment_ip(), prog, state.clone_state(), fuel
                        - 1);
                    self.add_thread(program_state.with_ip(*a), prog, state, fuel - 1);
                }
            },
            Instr::JSplit(a) => {
                if fuel > 0 {
                    // the branch with the jump is higher priority
                    self.add_thread(program_state.with_ip(*a), prog, state.clone_state(), fuel - 1);
                    self.add_thread(program_state.increment_ip(), prog, state, fuel - 1);
                }
            },
            Instr::Jump(a) => {
                if fuel > 0 {
                    self.add_thread(program_state.with_ip(*a), prog, state, fuel - 1);
                }
            },
            Instr::UpdateState(u) => {
                if fuel > 0 {
                    let ps = ProgramState {
                        instruction_ptr: program_state.instruction_ptr,
                        token_index: program_state.token_index,
                        token: program_state.token,
                    };
                    let mut state = state;
                    if state.update(u, ps) {
                        self.add_thread(program_state.increment_ip(), prog, state, fuel - 1);
                    }
                }
            },
            Instr::Reject => {
                // do nothing, this thread is dead
            },
            _ => {
                // a consuming instruction, `WordBoundary` or `Match`: push a
                // new thread at this instruction pointer
                let ghost pre = self.threads@;
                self.threads.push(Thread::new(ip, state));
                proof {
                    assert(threads_view(self.threads@) =~= threads_view(pre).push(
                        (ip, state@),
                    ));
                }
            },
        }
    }
}

/// The view of a sequence of states.
pub open spec fn states_view<S: View>(states: Seq<S>) -> Seq<S::V> {
    states.map_values(|s: S| s@)
}

/// Whether the instruction at `pc` is zero width: resolved during admission
/// and never present on an active thread list.
pub open spec fn is_zero_width<T: Token, S: State<T>>(prog: Seq<Instr<T, S>>, pc: InstrPtr) -> bool {
    match prog[pc as int] {
        Instr::Split(_) => true,
        Instr::JSplit(_) => true,
        Instr::Jump(_) => true,
        Instr::UpdateState(_) => true,
        Instr::Reject => true,
        _ => false,
    }
}

/// Every thread on the list points into the program, at an instruction that
/// is not zero width.
pub open spec fn list_ok<T: Token, S: State<T>>(
    prog: Seq<Instr<T, S>>,
    list: Seq<(InstrPtr, S::V)>,
) -> bool {
    forall|k: int|
        0 <= k < list.len() ==> (#[trigger] list[k]).0 < prog.len() && !is_zero_width(
            prog,
            list[k].0,
        )
}

/// The state of the engine between two input positions: the active thread
/// list, the match results recorded so far, whether the previous token was a
/// word character, and the index one past the previous token.
pub struct VmState<SV> {
    /// The active thread list.
    pub curr: Seq<(InstrPtr, SV)>,
    /// The recorded match results, in priority order.
    pub results: Seq<SV>,
    /// Whether the most recently consumed token was a word character
    /// (`false` initially).
    pub word: bool,
    /// The index one past the most recently consumed token (`0` initially).
    pub index: usize,
}

/// Advances the threads of `curr` from position `k` on by the token `tok`,
/// accumulating the next thread list and the recorded results.
///
/// `idx` is the index one past `tok`, `word_boundary` says whether a word
/// boundary lies immediately before `tok`, and `prev_index` is the index one
/// past the previous token.  Threads at a consuming instruction that accepts
/// the token are admitted at their successor; threads at `WordBoundary` are
/// re-admitted without consuming when the boundary holds; threads at `Match`
/// record their state.  All other threads die.
pub open spec fn spec_step_list<T: Token, S: State<T>>(
    prog: Seq<Instr<T, S>>,
    curr: Seq<(InstrPtr, S::V)>,
    k: int,
    next: Seq<(InstrPtr, S::V)>,
    results: Seq<S::V>,
    idx: usize,
    tok: T,
    word_boundary: bool,
    prev_index: usize,
) -> (Seq<(InstrPtr, S::V)>, Seq<S::V>)
    decreases curr.len() - k,
{
    if k < 0 || k >= curr.len() {
        (next, results)
    } else {
        let pc = curr[k].0;
        let st = curr[k].1;
        let fuel = prog.len() as nat;
        let stepped: (Seq<(InstrPtr, S::V)>, Seq<S::V>) = if pc >= prog.len() {
            (next, results)
        } else {
            match prog[pc as int] {
                Instr::Token(t) => if tok == t {
                    (
                        spec_add_thread(
                            prog,
                            next,
                            (pc + 1) as InstrPtr,
                            idx,
                            Some(tok),
                            st,
                            fuel,
                        ),
                        results,
                    )
                } else {
                    (next, results)
                },
                Instr::Any => (
                    spec_add_thread(prog, next, (pc + 1) as InstrPtr, idx, Some(tok), st, fuel),
                    results,
                ),
                Instr::Class(s) => if s.spec_contains(tok) {
                    (
                        spec_add_thread(
                            prog,
                            next,
                            (pc + 1) as InstrPtr,
                            idx,
                            Some(tok),
                            st,
                            fuel,
                        ),
                        results,
                    )
                } else {
                    (next, results)
                },
                Instr::Table(m) => {
                    let target = match m.spec_get(tok) {
                        Some(p) => p,
                        None => (pc + 1) as InstrPtr,
                    };
                    (spec_add_thread(prog, next, target, idx, Some(tok), st, fuel), results)
                },
                Instr::WordBoundary => if word_boundary {
                    (
                        spec_add_thread(
                            prog,
                            next,
                            (pc + 1) as InstrPtr,
                            prev_index,
                            Some(tok),
                            st,
                            fuel,
                        ),
                        results,
                    )
                } else {
                    (next, results)
                },
                Instr::Match => (next, results.push(st)),
                _ => (next, results),
            }
        };
        spec_step_list(prog, curr, k + 1, stepped.0, stepped.1, idx, tok, word_boundary, prev_index)
    }
}

/// Consumes one token: computes the word-boundary flag, advances every
/// active thread, and swaps in the new thread list.
pub open spec fn spec_consume<T: Token, S: State<T>>(
    prog: Seq<Instr<T, S>>,
    vm: VmState<S::V>,
    idx: usize,
    tok: T,
) -> VmState<S::V> {
    let new_word = tok.spec_is_word();
    let word_boundary = new_word != vm.word;
    let stepped = spec_step_list(
        prog,
        vm.curr,
        0,
        Seq::empty(),
        vm.results,
        idx,
        tok,
        word_boundary,
        vm.index,
    );
    VmState { curr: stepped.0, results: stepped.1, word: new_word, index: idx }
}

/// Runs the engine over a whole token stream.
pub open spec fn spec_run<T: Token, S: State<T>>(
    prog: Seq<Instr<T, S>>,
    vm: VmState<S::V>,
    stream: Seq<(usize, T)>,
) -> VmState<S::V>
    decreases stream.len(),
{
    if stream.len() == 0 {
        vm
    } else {
        spec_run(prog, spec_consume(prog, vm, stream[0].0, stream[0].1), stream.drop_first())
    }
}

/// The seed state: the single thread at instruction `0` with a freshly
/// initialised state, admitted at index `0` before any token.
pub open spec fn spec_seed<T: Token, S: State<T>>(
    prog: Seq<Instr<T, S>>,
    init: S::Init,
) -> VmState<S::V> {
    VmState {
        curr: spec_add_thread(
            prog,
            Seq::empty(),
            0,
            0,
            None,
            S::spec_init(init),
            prog.len() as nat,
        ),
        results: Seq::empty(),
        word: false,
        index: 0,
    }
}

/// The first terminal sweep, over the threads of `curr` from position `k`
/// on: a thread still at `WordBoundary` admits its successor iff the last
/// token was a word character (the end of input counts as non-word); a
/// thread at `Match` records its state.
pub open spec fn spec_finish_list<T: Token, S: State<T>>(
    prog: Seq<Instr<T, S>>,
    curr: Seq<(InstrPtr, S::V)>,
    k: int,
    next: Seq<(InstrPtr, S::V)>,
    results: Seq<S::V>,
    word: bool,
    index: usize,
) -> (Seq<(InstrPtr, S::V)>, Seq<S::V>)
    decreases curr.len() - k,
{
    if k < 0 || k >= curr.len() {
        (next, results)
    } else {
        let pc = curr[k].0;
        let st = curr[k].1;
        let stepped: (Seq<(InstrPtr, S::V)>, Seq<S::V>) = if pc >= prog.len() {
            (next, results)
        } else {
            match prog[pc as int] {
                Instr::WordBoundary => if word {
                    (
                        spec_add_thread(
                            prog,
                            next,
                            (pc + 1) as InstrPtr,
                            index,
                            None,
                            st,
                            prog.len() as nat,
                        ),
                        results,
                    )
                } else {
                    (next, results)
                },
                Instr::Match => (next, results.push(st)),
                _ => (next, results),
            }
        };
        spec_finish_list(prog, curr, k + 1, stepped.0, stepped.1, word, index)
    }
}

/// The second terminal sweep: threads that reached `Match` through a final
/// word boundary record their states.
pub open spec fn spec_collect<T: Token, S: State<T>>(
    prog: Seq<Instr<T, S>>,
    list: Seq<(InstrPtr, S::V)>,
    k: int,
    results: Seq<S::V>,
) -> Seq<S::V>
    decreases list.len() - k,
{
    if k < 0 || k >= list.len() {
        results
    } else {
        let pc = list[k].0;
        let stepped: Seq<S::V> = if pc < prog.len() && (prog[pc as int] matches Instr::Match) {
            results.push(list[k].1)
        } else {
            results
        };
        spec_collect(prog, list, k + 1, stepped)
    }
}

/// The results of the two terminal sweeps after the input is exhausted.
pub open spec fn spec_finish<T: Token, S: State<T>>(
    prog: Seq<Instr<T, S>>,
    vm: VmState<S::V>,
) -> Seq<S::V> {
    let swept = spec_finish_list(prog, vm.curr, 0, Seq::empty(), vm.results, vm.word, vm.index);
    spec_collect(prog, swept.0, 0, swept.1)
}

/// The complete execution of a program over a token stream: the views of the
/// final states of all successful matches, in match priority order.
pub open spec fn spec_exec<T: Token, S: State<T>>(
    prog: Seq<Instr<T, S>>,
    init: S::Init,
    stream: Seq<(usize, T)>,
) -> Seq<S::V> {
    spec_finish(prog, spec_run(prog, spec_seed(prog, init), stream))
}

/// Admission preserves well-placedness of the thread list: every admitted
/// thread points into the program, at an instruction that is not zero width.
pub(crate) proof fn lemma_add_thread_ok<T: Token, S: State<T>>(
    prog: Seq<Instr<T, S>>,
    list: Seq<(InstrPtr, S::V)>,
    ip: InstrPtr,
    token_index: usize,
    token: Option<T>,
    st: S::V,
    fuel: nat,
)
    requires
        prog_wf(prog),
        list_ok(prog, list),
        ip < prog.len(),
    ensures
        list_ok(prog, spec_add_thread(prog, list, ip, token_index, token, st, fuel)),
    decreases fuel,
{
    assert(instr_wf(prog, ip as int));
    if fuel > 0 {
        match prog[ip as int] {
            Instr::Split(a) => {
                let l1 = spec_add_thread(
                    prog,
                    list,
                    (ip + 1) as InstrPtr,
                    token_index,
                    token,
                    st,
                    (fuel - 1) as nat,
                );
                lemma_add_thread_ok(
                    prog,
                    list,
                    (ip + 1) as InstrPtr,
                    token_index,
                    token,
                    st,
                    (fuel - 1) as nat,
                );
                lemma_add_thread_ok(prog, l1, a, token_index, token, st, (fuel - 1) as nat);
            },
            Instr::JSplit(a) => {
                let l1 = spec_add_thread(prog, list, a, token_index, token, st, (fuel - 1) as nat);
                lemma_add_thread_ok(prog, list, a, token_index, token, st, (fuel - 1) as nat);
                lemma_add_thread_ok(
                    prog,
                    l1,
                    (ip + 1) as InstrPtr,
                    token_index,
                    token,
                    st,
                    (fuel - 1) as nat,
                );
            },
            Instr::Jump(a) => {
                lemma_add_thread_ok(prog, list, a, token_index, token, st, (fuel - 1) as nat);
            },
            Instr::UpdateState(u) => {
                match S::spec_update(st, u, ip, token_index, token) {
                    Some(v) => lemma_add_thread_ok(
                        prog,
                        list,
                        (ip + 1) as InstrPtr,
                        token_index,
                        token,
                        v,
                        (fuel - 1) as nat,
                    ),
                    None => {},
                }
            },
            Instr::Reject => {},
            _ => {},
        }
    }
}

/// The step sweep preserves well-placedness of the accumulated next list.
pub(crate) proof fn lemma_step_list_ok<T: Token, S: State<T>>(
    prog: Seq<Instr<T, S>>,
    curr: Seq<(InstrPtr, S::V)>,
    k: int,
    next: Seq<(InstrPtr, S::V)>,
    results: Seq<S::V>,
    idx: usize,
    tok: T,
    word_boundary: bool,
    prev_index: usize,
)
    requires
        prog_wf(prog),
        list_ok(prog, next),
    ensures
        list_ok(
            prog,
            spec_step_list(prog, curr, k, next, results, idx, tok, word_boundary, prev_index).0,
        ),
    decreases curr.len() - k,
{
    if 0 <= k < curr.len() {
        let pc = curr[k].0;
        let st = curr[k].1;
        let fuel = prog.len() as nat;
        if pc < prog.len() {
            assert(instr_wf(prog, pc as int));
            match prog[pc as int] {
                Instr::Token(t) => {
                    if tok == t {
                        lemma_add_thread_ok(
                            prog,
                            next,
                            (pc + 1) as InstrPtr,
                            idx,
                            Some(tok),
                            st,
                            fuel,
                        );
                    }
                },
                Instr::Any => {
                    lemma_add_thread_ok(prog, next, (pc + 1) as InstrPtr, idx, Some(tok), st, fuel);
                },
                Instr::Class(s) => {
                    if s.spec_contains(tok) {
                        lemma_add_thread_ok(
                            prog,
                            next,
                            (pc + 1) as InstrPtr,
                            idx,
                            Some(tok),
                            st,
                            fuel,
                        );
                    }
                },
                Instr::Table(m) => {
                    let target = match m.spec_get(tok) {
                        Some(p) => p,
                        None => (pc + 1) as InstrPtr,
                    };
                    lemma_add_thread_ok(prog, next, target, idx, Some(tok), st, fuel);
                },
                Instr::WordBoundary => {
                    if word_boundary {
                        lemma_add_thread_ok(
                            prog,
                            next,
                            (pc + 1) as InstrPtr,
                            prev_index,
                            Some(tok),
                            st,
                            fuel,
                        );
                    }
                },
                _ => {},
            }
        }
        let stepped = if pc >= prog.len() {
            (next, results)
        } else {
            match prog[pc as int] {
                Instr::Token(t) => if tok == t {
                    (
                        spec_add_thread(
                            prog,
                            next,
                            (pc + 1) as InstrPtr,
                            idx,
                            Some(tok),
                            st,
                            fuel,
                        ),
                        results,
                    )
                } else {
                    (next, results)
                },
                Instr::Any => (
                    spec_add_thread(prog, next, (pc + 1) as InstrPtr, idx, Some(tok), st, fuel),
                    results,
                ),
                Instr::Class(s) => if s.spec_contains(tok) {
                    (
                        spec_add_thread(
                            prog,
                            next,
                            (pc + 1) as InstrPtr,
                            idx,
                            Some(tok),
                            st,
                            fuel,
                        ),
                        results,
                    )
                } else {
                    (next, results)
                },
                Instr::Table(m) => {
                    let target = match m.spec_get(tok) {
                        Some(p) => p,
                        None => (pc + 1) as InstrPtr,
                    };
                    (spec_add_thread(prog, next, target, idx, Some(tok), st, fuel), results)
                },
                Instr::WordBoundary => if word_boundary {
                    (
                        spec_add_thread(
                            prog,
                            next,
                            (pc + 1) as InstrPtr,
                            prev_index,
                            Some(tok),
                            st,
                            fuel,
                        ),
                        results,
                    )
                } else {
                    (next, results)
                },
                Instr::Match => (next, results.push(st)),
                _ => (next, results),
            }
        };
        lemma_step_list_ok(
            prog,
            curr,
            k + 1,
            stepped.0,
            stepped.1,
            idx,
            tok,
            word_boundary,
            prev_index,
        );
    }
}

/// The first terminal sweep preserves well-placedness of the accumulated
/// next list.
pub(crate) proof fn lemma_finish_list_ok<T: Token, S: State<T>>(
    prog: Seq<Instr<T, S>>,
    curr: Seq<(InstrPtr, S::V)>,
    k: int,
    next: Seq<(InstrPtr, S::V)>,
    results: Seq<S::V>,
    word: bool,
    index: usize,
)
    requires
        prog_wf(prog),
        list_ok(prog, next),
    ensures
        list_ok(prog, spec_finish_list(prog, curr, k, next, results, word, index).0),
    decreases curr.len() - k,
{
    if 0 <= k < curr.len() {
        let pc = curr[k].0;
        let st = curr[k].1;
        if pc < prog.len() {
            assert(instr_wf(prog, pc as int));
            match prog[pc as int] {
                Instr::WordBoundary => {
                    if word {
                        lemma_add_thread_ok(
                            prog,
                            next,
                            (pc + 1) as InstrPtr,
                            index,
                            None,
                            st,
                            prog.len() as nat,
                        );
                    }
                },
                _ => {},
            }
        }
        let stepped = if pc >= prog.len() {
            (next, results)
        } else {
            match prog[pc as int] {
                Instr::WordBoundary => if word {
                    (
                        spec_add_thread(
                            prog,
                            next,
                            (pc + 1) as InstrPtr,
                            index,
                            None,
                            st,
                            prog.len() as nat,
                        ),
                        results,
                    )
                } else {
                    (next, results)
                },
                Instr::Match => (next, results.push(st)),
                _ => (next, results),
            }
        };
        lemma_finish_list_ok(prog, curr, k + 1, stepped.0, stepped.1, word, index);
    }
}

/// Extending the stream by one token runs the engine one consumption
/// further.
proof fn lemma_spec_run_snoc<T: Token, S: State<T>>(
    prog: Seq<Instr<T, S>>,
    vm: VmState<S::V>,
    stream: Seq<(usize, T)>,
    item: (usize, T),
)
    ensures
        spec_run(prog, vm, stream.push(item)) == spec_consume(
            prog,
            spec_run(prog, vm, stream),
            item.0,
            item.1,
        ),
    decreases stream.len(),
{
    if stream.len() == 0 {
        assert(stream.push(item)[0] == item);
        assert(stream.push(item).drop_first() =~= stream);
        assert(spec_run(prog, vm, stream) == vm);
        assert(spec_run(prog, vm, stream.push(item)) == spec_run(
            prog,
            spec_consume(prog, vm, item.0, item.1),
            stream,
        ));
        assert(spec_run(prog, spec_consume(prog, vm, item.0, item.1), stream) == spec_consume(
            prog,
            vm,
            item.0,
            item.1,
        ));
    } else {
        assert(stream.push(item)[0] == stream[0]);
        assert(stream.push(item).drop_first() =~= stream.drop_first().push(item));
        let vm1 = spec_consume(prog, vm, stream[0].0, stream[0].1);
        lemma_spec_run_snoc(prog, vm1, stream.drop_first(), item);
        assert(spec_run(prog, vm, stream.push(item)) == spec_run(
            prog,
            vm1,
            stream.drop_first().push(item),
        ));
        assert(spec_run(prog, vm, stream) == spec_run(prog, vm1, stream.drop_first()));
    }
}

/// A program for the VM.
pub struct Program<T: Token, S: State<T>> {
    /// List of instructions; `InstrPtr`s index into this vector.
    prog: Vec<Instr<T, S>>,
    /// Initialiser for the state of fresh threads.
    state_init: S::Init,
}

impl<T: Token, S: State<T>> Program<T, S> {
    /// The instruction sequence.
    pub closed spec fn instructions(&self) -> Seq<Instr<T, S>> {
        self.prog@
    }

    /// The state-initialiser parameter.
    pub closed spec fn init_param(&self) -> S::Init {
        self.state_init
    }

    /// Well-formedness: see [`prog_wf`].
    pub open spec fn wf(&self) -> bool {
        prog_wf(self.instructions())
    }

    /// Creates a program from an instruction sequence and a state
    /// initialiser.
    pub fn new(prog: Vec<Instr<T, S>>, state_init: S::Init) -> (p: Program<T, S>)
        ensures
            p.instructions() == prog@,
            p.init_param() == state_init,
    {
        Program { prog, state_init }
    }

    /// The number of instructions.
    pub fn len(&self) -> (n: usize)
        ensures
            n == self.instructions().len(),
    {
        self.prog.len()
    }

    /// The instruction at `idx`.
    pub fn instr_at(&self, idx: usize) -> (r: &Instr<T, S>)
        requires
            idx < self.instructions().len(),
        ensures
            *r == self.instructions()[idx as int],
    {
        &self.prog[idx]
    }

    /// Executes the program. Returns the final state of each match found, in
    /// match priority order.
    ///
    /// With the `SaveList` state, the final state holds the locations of the
    /// saved indices of the match.
    pub fn exec<I: IntoSearcher<T>>(&self, input: I) -> (results: Vec<S>)
        requires
            self.wf(),
            input.ready(),
        ensures
            states_view(results@) == spec_exec(
                self.instructions(),
                self.init_param(),
                input.spec_stream(),
            ),
    {
        self.exec_searcher(input.into_searcher())
    }

    /// Executes the program over a token vector. Returns the final state of
    /// each match found, in match priority order.
    pub fn exec_iter(&self, input: Vec<T>) -> (results: Vec<S>)
        requires
            self.wf(),
        ensures
            states_view(results@) == spec_exec(
                self.instructions(),
                self.init_param(),
                uniform_stream(input@),
            ),
    {
        self.exec_searcher(IterSearcher::new(input))
    }

    /// Runs the two-phase thread-list schedule over the tokens the searcher
    /// yields.
    fn exec_searcher<Sr: Searcher<Item = T>>(&self, searcher: Sr) -> (results: Vec<S>)
        requires
            self.wf(),
            searcher.wf(),
        ensures
            states_view(results@) == spec_exec(
                self.instructions(),
                self.init_param(),
                searcher.stream(),
            ),
    {
        let ghost prog_seq = self.instructions();
        let ghost stream0 = searcher.stream();
        let mut searcher = searcher;
        let prog_len = self.prog.len();

        // the thread lists are preallocated to the program length, the
        // typical bound on the number of simultaneously live threads
        let mut curr: ThreadList<S> = ThreadList::new(prog_len);
        let mut next: ThreadList<S> = ThreadList::new(prog_len);

        let mut states: Vec<S> = Vec::new();

        // start the initial thread at the start instruction
        curr.add_thread(
            ProgramState { instruction_ptr: 0, token_index: 0, token: None },
            self,
            S::init(&self.state_init),
            prog_len,
        );
        proof {
            assert(threads_view(Seq::<Thread<S>>::empty()) =~= Seq::<(InstrPtr, S::V)>::empty());
            lemma_add_thread_ok(
                prog_seq,
                Seq::empty(),
                0,
                0,
                None,
                S::spec_init(self.init_param()),
                prog_len as nat,
            );
            assert(stream0.take(0) =~= Seq::<(usize, T)>::empty());
            assert(spec_run(
                prog_seq,
                spec_seed(prog_seq, self.init_param()),
                stream0.take(0),
            ) == spec_seed(prog_seq, self.init_param()));
            assert(states_view(Seq::<S>::empty()) =~= Seq::<S::V>::empty());
        }

        // whether the previous token was a word character
        let mut word = false;

        // the index one past the previous token, for the word-boundary
        // checks after the loop
        let mut i: usize = 0;

        let ghost mut consumed: int = 0;

        loop
            invariant
                self.wf(),
                searcher.wf(),
                prog_seq == self.instructions(),
                prog_len == prog_seq.len(),
                0 <= consumed <= stream0.len(),
                searcher.stream() =~= stream0.skip(consumed),
                next.threads@.len() == 0,
                list_ok(prog_seq, threads_view(curr.threads@)),
                ({
                    let vm = spec_run(
                        prog_seq,
                        spec_seed(prog_seq, self.init_param()),
                        stream0.take(consumed),
                    );
                    &&& threads_view(curr.threads@) == vm.curr
                    &&& states_view(states@) == vm.results
                    &&& word == vm.word
                    &&& i == vm.index
                }),
            ensures
                consumed == stream0.len(),
                next.threads@.len() == 0,
                list_ok(prog_seq, threads_view(curr.threads@)),
                ({
                    let vm = spec_run(
                        prog_seq,
                        spec_seed(prog_seq, self.init_param()),
                        stream0,
                    );
                    &&& threads_view(curr.threads@) == vm.curr
                    &&& states_view(states@) == vm.results
                    &&& word == vm.word
                    &&& i == vm.index
                }),
            decreases searcher.stream().len(),
        {
            let (idx, tok_opt) = searcher.next();
            match tok_opt {
                None => {
                    proof {
                        assert(stream0.skip(consumed).len() == 0);
                        assert(stream0.take(consumed) =~= stream0);
                    }
                    break ;
                },
                Some(tok) => {
                    proof {
                        assert(stream0.skip(consumed)[0] == stream0[consumed]);
                    }
                    // check if at a word boundary
                    let new_word = tok.is_word();
                    let word_boundary = new_word ^ word;
                    word = new_word;

                    let ghost cv = threads_view(curr.threads@);
                    let ghost res0 = states_view(states@);
                    let ghost iprev = i;
                    proof {
                        assert(threads_view(next.threads@) =~= Seq::<(InstrPtr, S::V)>::empty());
                    }

                    let n = curr.threads.len();
                    let mut j: usize = 0;
                    while j < n
                        invariant
                            self.wf(),
                            prog_seq == self.instructions(),
                            prog_len == prog_seq.len(),
                            n == curr.threads@.len(),
                            j <= n,
                            cv == threads_view(curr.threads@),
                            list_ok(prog_seq, cv),
                            list_ok(prog_seq, threads_view(next.threads@)),
                            iprev == i,
                            spec_step_list(
                                prog_seq,
                                cv,
                                j as int,
                                threads_view(next.threads@),
                                states_view(states@),
                                idx,
                                tok,
                                word_boundary,
                                iprev,
                            ) == spec_step_list(
                                prog_seq,
                                cv,
                                0,
                                Seq::empty(),
                                res0,
                                idx,
                                tok,
                                word_boundary,
                                iprev,
                            ),
                        decreases n - j,
                    {
                        let ghost next_pre = threads_view(next.threads@);
                        let ghost res_pre = states_view(states@);
                        let th = &curr.threads[j];
                        let pc = th.pc;
                        let st = th.state.clone_state();
                        proof {
                            assert(cv[j as int] == (pc, curr.threads@[j as int].state@));
                            assert(pc < prog_len && !is_zero_width(prog_seq, pc));
                            assert(instr_wf(prog_seq, pc as int));
                        }
                        match &self.prog[pc] {
                            Instr::Token(t) => {
                                // check if the token matches
                                if tok.token_eq(t) {
                                    proof {
                                        lemma_add_thread_ok(
                                            prog_seq,
                                            next_pre,
                                            (pc + 1) as InstrPtr,
                                            idx,
                                            Some(tok),
                                            st@,
                                            prog_len as nat,
                                        );
                                    }
                                    next.add_thread(
                                        ProgramState {
                                            instruction_ptr: pc + 1,
                                            token_index: idx,
                                            token: Some(&tok),
                                        },
                                        self,
                                        st,
                                        prog_len,
                                    );
                                }
                            },
                            Instr::Any => {
                                // always matches
                                proof {
                                    lemma_add_thread_ok(
                                        prog_seq,
                                        next_pre,
                                        (pc + 1) as InstrPtr,
                                        idx,
                                        Some(tok),
                                        st@,
                                        prog_len as nat,
                                    );
                                }
                                next.add_thread(
                                    ProgramState {
                                        instruction_ptr: pc + 1,
                                        token_index: idx,
                                        token: Some(&tok),
                                    },
                                    self,
                                    st,
                                    prog_len,
                                );
                            },
                            Instr::Class(class) => {
                                // check if the token is in the class
                                if class.contains(&tok) {
                                    proof {
                                        lemma_add_thread_ok(
                                            prog_seq,
                                            next_pre,
                                            (pc + 1) as InstrPtr,
                                            idx,
                                            Some(tok),
                                            st@,
                                            prog_len as nat,
                                        );
                                    }
                                    next.add_thread(
                                        ProgramState {
                                            instruction_ptr: pc + 1,
                                            token_index: idx,
                                            token: Some(&tok),
                                        },
                                        self,
                                        st,
                                        prog_len,
                                    );
                                }
                            },
                            Instr::Table(table) => {
                                // take the mapped target, or fall through to
                                // the next instruction; `Table` always
                                // consumes
                                let target = match table.get(&tok) {
                                    Some(p) => p,
                                    None => pc + 1,
                                };
                                proof {
                                    lemma_add_thread_ok(
                                        prog_seq,
                                        next_pre,
                                        target,
                                        idx,
                                        Some(tok),
                                        st@,
                                        prog_len as nat,
                                    );
                                }
                                next.add_thread(
                                    ProgramState {
                                        instruction_ptr: target,
                                        token_index: idx,
                                        token: Some(&tok),
                                    },
                                    self,
                                    st,
                                    prog_len,
                                );
                            },
                            Instr::WordBoundary => {
                                // a zero-width guard between two tokens:
                                // re-admit the successor without consuming
                                if word_boundary {
                                    proof {
                                        lemma_add_thread_ok(
                                            prog_seq,
                                            next_pre,
                                            (pc + 1) as InstrPtr,
                                            iprev,
                                            Some(tok),
                                            st@,
                                            prog_len as nat,
                                        );
                                    }
                                    next.add_thread(
                                        ProgramState {
                                            instruction_ptr: pc + 1,
                                            token_index: i,
                                            token: Some(&tok),
                                        },
                                        self,
                                        st,
                                        prog_len,
                                    );
                                }
                            },
                            Instr::Match => {
                                // record the state in the result list
                                states.push(st);
                                proof {
                                    assert(states_view(states@) =~= res_pre.push(
                                        cv[j as int].1,
                                    ));
                                }
                            },
                            _ => {
                                // zero-width instructions are resolved during
                                // admission and never appear on the list
                                proof {
                                    assert(false);
                                }
                            },
                        }
                        proof {
                            assert(spec_step_list(
                                prog_seq,
                                cv,
                                j as int,
                                next_pre,
                                res_pre,
                                idx,
                                tok,
                                word_boundary,
                                iprev,
                            ) == spec_step_list(
                                prog_seq,
                                cv,
                                j as int + 1,
                                threads_view(next.threads@),
                                states_view(states@),
                                idx,
                                tok,
                                word_boundary,
                                iprev,
                            ));
                        }
                        j += 1;
                    }
                    // `next` becomes the list of active threads, and `curr`
                    // (emptied) will hold the following step's admissions
                    curr.threads.clear();
                    std::mem::swap(&mut curr, &mut next);
                    i = idx;
                    proof {
                        assert(stream0.take(consumed + 1) =~= stream0.take(consumed).push(
                            stream0[consumed],
                        ));
                        lemma_spec_run_snoc(
                            prog_seq,
                            spec_seed(prog_seq, self.init_param()),
                            stream0.take(consumed),
                            stream0[consumed],
                        );
                        assert(stream0.skip(consumed).drop_first() =~= stream0.skip(consumed + 1));
                        consumed = consumed + 1;
                    }
                },
            }
        }

        // now sweep the remaining threads once, to resolve pending
        // word-boundary instructions against the end of input, and to record
        // pending matches
        let ghost fv = threads_view(curr.threads@);
        let ghost res1 = states_view(states@);
        proof {
            assert(threads_view(next.threads@) =~= Seq::<(InstrPtr, S::V)>::empty());
        }
        let n = curr.threads.len();
        let mut j: usize = 0;
        while j < n
            invariant
                self.wf(),
                prog_seq == self.instructions(),
                prog_len == prog_seq.len(),
                n == curr.threads@.len(),
                j <= n,
                fv == threads_view(curr.threads@),
                list_ok(prog_seq, fv),
                list_ok(prog_seq, threads_view(next.threads@)),
                spec_finish_list(
                    prog_seq,
                    fv,
                    j as int,
                    threads_view(next.threads@),
                    states_view(states@),
                    word,
                    i,
                ) == spec_finish_list(prog_seq, fv, 0, Seq::empty(), res1, word, i),
            decreases n - j,
        {
            let ghost next_pre = threads_view(next.threads@);
            let ghost res_pre = states_view(states@);
            let th = &curr.threads[j];
            let pc = th.pc;
            let st = th.state.clone_state();
            proof {
                assert(cv_index_ok(fv, j as int, pc, curr.threads@[j as int].state@));
                assert(pc < prog_len);
                assert(instr_wf(prog_seq, pc as int));
            }
            match &self.prog[pc] {
                Instr::WordBoundary => {
                    // the end of input counts as non-word, so the boundary
                    // fires only after a word character
                    if word {
                        proof {
                            lemma_add_thread_ok(
                                prog_seq,
                                next_pre,
                                (pc + 1) as InstrPtr,
                                i,
                                None,
                                st@,
                                prog_len as nat,
                            );
                        }
                        next.add_thread(
                            ProgramState { instruction_ptr: pc + 1, token_index: i, token: None },
                            self,
                            st,
                            prog_len,
                        );
                    }
                },
                Instr::Match => {
                    states.push(st);
                    proof {
                        assert(states_view(states@) =~= res_pre.push(fv[j as int].1));
                    }
                },
                _ => {
                    // anything else is a failed match
                },
            }
            proof {
                assert(spec_finish_list(
                    prog_seq,
                    fv,
                    j as int,
                    next_pre,
                    res_pre,
                    word,
                    i,
                ) == spec_finish_list(
                    prog_seq,
                    fv,
                    j as int + 1,
                    threads_view(next.threads@),
                    states_view(states@),
                    word,
                    i,
                ));
            }
            j += 1;
        }

        // finally, record the matches that a final word boundary released
        proof {
            lemma_finish_list_ok(prog_seq, fv, 0, Seq::empty(), res1, word, i);
        }
        let ghost lv = threads_view(next.threads@);
        let ghost res2 = states_view(states@);
        let n = next.threads.len();
        let mut j: usize = 0;
        while j < n
            invariant
                self.wf(),
                prog_seq == self.instructions(),
                prog_len == prog_seq.len(),
                n == next.threads@.len(),
                j <= n,
                lv == threads_view(next.threads@),
                list_ok(prog_seq, lv),
                spec_collect(prog_seq, lv, j as int, states_view(states@)) == spec_collect(
                    prog_seq,
                    lv,
                    0,
                    res2,
                ),
            decreases n - j,
        {
            let ghost res_pre = states_view(states@);
            let th = &next.threads[j];
            let pc = th.pc;
            proof {
                assert(cv_index_ok(lv, j as int, pc, next.threads@[j as int].state@));
                assert(pc < prog_len);
            }
            match &self.prog[pc] {
                Instr::Match => {
                    let st = th.state.clone_state();
                    states.push(st);
                    proof {
                        assert(states_view(states@) =~= res_pre.push(lv[j as int].1));
                    }
                },
                _ => {
                    // anything else is a failed match
                },
            }
            proof {
                assert(spec_collect(prog_seq, lv, j as int, res_pre) == spec_collect(
                    prog_seq,
                    lv,
                    j as int + 1,
                    states_view(states@),
                ));
            }
            j += 1;
        }

        // return the list of states
        states
    }
}

/// The `j`-th entry of a thread-list view.
spec fn cv_index_ok<SV>(cv: Seq<(InstrPtr, SV)>, j: int, pc: InstrPtr, sv: SV) -> bool {
    0 <= j < cv.len() && cv[j] == (pc, sv)
}

} // verus!
