//! A regular-expression virtual machine in the Pike VM / Thompson NFA style.
//!
//! A compiled [`program::Program`] is a sequence of bytecode instructions that
//! is executed against a stream of input tokens.  At every input position the
//! engine keeps a list of logical threads, advances all of them by one token
//! in lock step, and resolves zero-width instructions (splits, jumps, state
//! updates) by transitive closure when a thread is admitted to a list.  The
//! result of a run is one final thread state per successful match, in match
//! priority order.
//!
//! The engine is polymorphic both in the token type ([`token::Token`]) and in
//! the per-thread auxiliary state ([`state::State`]), with
//! [`state::SaveList`] as the built-in state for submatch capture.
//! [`program::spec_exec`] gives execution as a mathematical function, and
//! [`laws`] proves the engine's general properties against it.

pub mod ast;
pub mod laws;
pub mod program;
pub mod searcher;
pub mod state;
pub mod token;
