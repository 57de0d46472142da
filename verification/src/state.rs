//! The per-thread auxiliary state abstraction, and the built-in capture-slot
//! state [`SaveList`].

use vstd::prelude::*;

use crate::program::InstrPtr;
use crate::token::Token;

verus! {

/// The value of the token reference carried by a [`ProgramState`].
pub open spec fn ctx_token<T>(tok: Option<&T>) -> Option<T> {
    match tok {
        Some(t) => Some(*t),
        None => None,
    }
}

/// Trait for any state that the engine stores per thread.
///
/// The engine models a state by its view (`View::V`): `spec_init` gives the
/// view of a freshly initialised state, and `spec_update` gives the view
/// after an update, or `None` when the update rejects and the thread dies.
pub trait State<T: Token>: View + Sized {
    /// Input to the state's update instruction.
    type Update;

    /// Input to the state's initialiser.
    type Init;

    /// The view of the state produced by `init`.
    spec fn spec_init(init: Self::Init) -> Self::V;

    /// The view of the state after `update`, or `None` when the update
    /// rejects.
    spec fn spec_update(
        pre: Self::V,
        update: Self::Update,
        instruction_ptr: InstrPtr,
        token_index: usize,
        token: Option<T>,
    ) -> Option<Self::V>;

    /// Creates a fresh state from the initialiser parameter.
    fn init(init: &Self::Init) -> (s: Self)
        ensures
            s@ == Self::spec_init(*init),
    ;

    /// Updates the state, returning `true` if the update was successful, and
    /// `false` if not (rejecting the match); a rejected update leaves the
    /// state unchanged.
    fn update(&mut self, update: &Self::Update, program_state: ProgramState<'_, T>) -> (ok: bool)
        ensures
            match Self::spec_update(
                old(self)@,
                *update,
                program_state.instruction_ptr,
                program_state.token_index,
                ctx_token(program_state.token),
            ) {
                Some(v) => ok && final (self)@ == v,
                None => !ok && final (self)@ == old(self)@,
            },
    ;

    /// Duplicates the state when a thread forks.
    fn clone_state(&self) -> (s: Self)
        ensures
            s@ == self@,
    ;
}

/// Read-only context about the current execution of the program, passed to
/// every state update; not specific to a `State` implementation.
pub struct ProgramState<'a, T> {
    /// The instruction pointer of the update instruction being executed.
    pub instruction_ptr: InstrPtr,

    /// The input index after the most recent token consumption (`0` before
    /// any token has been consumed).
    pub token_index: usize,

    /// The most recently consumed token, if any.
    pub token: Option<&'a T>,
}

// `#[derive(Copy)]` would insert a `where T: Copy` bound, which is not
// wanted: only the reference to the token is copied, never the token.
impl<'a, T> Clone for ProgramState<'a, T> {
    fn clone(&self) -> (r: Self)
        ensures
            r == *self,
    {
        ProgramState {
            instruction_ptr: self.instruction_ptr,
            token_index: self.token_index,
            token: self.token,
        }
    }
}

impl<'a, T> Copy for ProgramState<'a, T> {

}

impl<'a, T> ProgramState<'a, T> {
    /// The same context with the instruction pointer advanced by one.
    pub fn increment_ip(self) -> (r: Self)
        requires
            self.instruction_ptr < usize::MAX,
        ensures
            r.instruction_ptr == self.instruction_ptr + 1,
            r.token_index == self.token_index,
            r.token == self.token,
    {
        ProgramState {
            instruction_ptr: self.instruction_ptr + 1,
            token_index: self.token_index,
            token: self.token,
        }
    }

    /// The same context with the instruction pointer replaced.
    pub fn with_ip(self, new_ip: InstrPtr) -> (r: Self)
        ensures
            r.instruction_ptr == new_ip,
            r.token_index == self.token_index,
            r.token == self.token,
    {
        ProgramState { instruction_ptr: new_ip, token_index: self.token_index, token: self.token }
    }

    /// The same context with the instruction pointer replaced when a new one
    /// is given.
    pub fn optional_with_ip(self, new_ip: Option<InstrPtr>) -> (r: Self)
        ensures
            r.instruction_ptr == match new_ip {
                Some(ip) => ip,
                None => self.instruction_ptr,
            },
            r.token_index == self.token_index,
            r.token == self.token,
    {
        match new_ip {
            Some(ip) => self.with_ip(ip),
            None => self,
        }
    }
}

/// A list of saved indices into the search input, the built-in state for
/// submatch capture.
///
/// By convention capture group `k` spans slots `2k` (start) and `2k + 1`
/// (end); slots `0` and `1` hold the whole match.
#[derive(Debug)]
pub struct SaveList(pub Vec<Option<usize>>);

impl PartialEq for SaveList {
    fn eq(&self, other: &SaveList) -> (r: bool) {
        if self.0.len() != other.0.len() {
            return false;
        }
        let n = self.0.len();
        let mut i: usize = 0;
        while i < n
            invariant
                i <= n,
                n == self.0@.len(),
                n == other.0@.len(),
                forall|j: int| 0 <= j < i ==> self.0@[j] == other.0@[j],
            decreases n - i,
        {
            if self.0[i] != other.0[i] {
                return false;
            }
            i += 1;
        }
        proof {
            assert(self.0@ =~= other.0@);
        }
        true
    }
}

impl vstd::std_specs::cmp::PartialEqSpecImpl for SaveList {
    open spec fn obeys_eq_spec() -> bool {
        true
    }

    open spec fn eq_spec(&self, other: &SaveList) -> bool {
        self.0@ == other.0@
    }
}



impl View for SaveList {
    type V = Seq<Option<usize>>;

    open spec fn view(&self) -> Seq<Option<usize>> {
        self.0@
    }
}

impl<T: Token> State<T> for SaveList {
    /// The slot to save into.
    type Update = usize;

    /// The number of save slots.
    type Init = usize;

    open spec fn spec_init(init: usize) -> Seq<Option<usize>> {
        Seq::new(init as nat, |i: int| None)
    }

    /// Writes the current token index to the given slot; an update to a slot
    /// beyond the list rejects.
    open spec fn spec_update(
        pre: Seq<Option<usize>>,
        update: usize,
        instruction_ptr: InstrPtr,
        token_index: usize,
        token: Option<T>,
    ) -> Option<Seq<Option<usize>>> {
        if update < pre.len() {
            Some(pre.update(update as int, Some(token_index)))
        } else {
            None
        }
    }

    fn init(init: &usize) -> (s: Self) {
        let mut v: Vec<Option<usize>> = Vec::new();
        let n = *init;
        let mut i: usize = 0;
        while i < n
            invariant
                i <= n,
                v@ =~= Seq::new(i as nat, |j: int| None::<usize>),
            decreases n - i,
        {
            v.push(None);
            i += 1;
        }
        proof {
            assert(v@ =~= <SaveList as State<T>>::spec_init(n));
        }
        SaveList(v)
    }

    fn update(&mut self, update: &usize, program_state: ProgramState<'_, T>) -> (ok: bool) {
        if *update < self.0.len() {
            self.0.set(*update, Some(program_state.token_index));
            true
        } else {
            false
        }
    }

    fn clone_state(&self) -> (s: Self) {
        let mut v: Vec<Option<usize>> = Vec::new();
        let n = self.0.len();
        let mut i: usize = 0;
        while i < n
            invariant
                i <= n,
                n == self.0@.len(),
                v@ =~= self.0@.take(i as int),
            decreases n - i,
        {
            let e = self.0[i];
            v.push(e);
            proof {
                assert(self.0@.take(i as int).push(self.0@[i as int]) =~= self.0@.take(
                    i as int + 1,
                ));
            }
            i += 1;
        }
        proof {
            assert(self.0@.take(n as int) =~= self.0@);
        }
        SaveList(v)
    }
}

/// An example custom state that records every token it passes: each update
/// appends the most recently consumed character, or `'\0'` before the first
/// token.  It shows how a `State` other than [`SaveList`] plugs into the
/// engine.
#[derive(Debug)]
pub struct TokenLog(pub Vec<char>);

impl View for TokenLog {
    type V = Seq<char>;

    open spec fn view(&self) -> Seq<char> {
        self.0@
    }
}

impl PartialEq for TokenLog {
    fn eq(&self, other: &TokenLog) -> (r: bool) {
        if self.0.len() != other.0.len() {
            return false;
        }
        let n = self.0.len();
        let mut i: usize = 0;
        while i < n
            invariant
                i <= n,
                n == self.0@.len(),
                n == other.0@.len(),
                forall|j: int| 0 <= j < i ==> self.0@[j] == other.0@[j],
            decreases n - i,
        {
            if self.0[i] != other.0[i] {
                return false;
            }
            i += 1;
        }
        proof {
            assert(self.0@ =~= other.0@);
        }
        true
    }
}

impl vstd::std_specs::cmp::PartialEqSpecImpl for TokenLog {
    open spec fn obeys_eq_spec() -> bool {
        true
    }

    open spec fn eq_spec(&self, other: &TokenLog) -> bool {
        self.0@ == other.0@
    }
}

impl State<char> for TokenLog {
    type Update = ();

    type Init = ();

    open spec fn spec_init(init: ()) -> Seq<char> {
        Seq::empty()
    }

    /// Appends the current token, with `'\0'` standing in for "no token
    /// yet"; the update always succeeds.
    open spec fn spec_update(
        pre: Seq<char>,
        update: (),
        instruction_ptr: InstrPtr,
        token_index: usize,
        token: Option<char>,
    ) -> Option<Seq<char>> {
        Some(
            pre.push(
                match token {
                    Some(c) => c,
                    None => '\0',
                },
            ),
        )
    }

    fn init(init: &()) -> (s: Self) {
        TokenLog(Vec::new())
    }

    fn update(&mut self, update: &(), program_state: ProgramState<'_, char>) -> (ok: bool) {
        match program_state.token {
            Some(c) => self.0.push(*c),
            None => self.0.push('\0'),
        }
        true
    }

    fn clone_state(&self) -> (s: Self) {
        let mut v: Vec<char> = Vec::new();
        let n = self.0.len();
        let mut i: usize = 0;
        while i < n
            invariant
                i <= n,
                n == self.0@.len(),
                v@ =~= self.0@.take(i as int),
            decreases n - i,
        {
            let e = self.0[i];
            v.push(e);
            proof {
                assert(self.0@.take(i as int).push(self.0@[i as int]) =~= self.0@.take(
                    i as int + 1,
                ));
            }
            i += 1;
        }
        proof {
            assert(self.0@.take(n as int) =~= self.0@);
        }
        TokenLog(v)
    }
}

} // verus!
