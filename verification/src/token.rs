//! The token abstraction: equality, the word-character predicate, and the
//! class carriers (token maps and token sets) that parameterise matching.

use vstd::prelude::*;

use crate::program::InstrPtr;

verus! {

/// A single input symbol.
///
/// A token supports total equality (`token_eq`, which agrees with
/// mathematical equality on the type) and a word-character predicate used by
/// the word-boundary instruction.  The associated types name the map and set
/// carriers that class instructions over this token type use.
pub trait Token: Sized {
    /// Carrier for token-keyed dispatch tables.
    type Map: TokenMap<Self>;

    /// Carrier for token classes.
    type Set: TokenSet<Self>;

    /// Whether the token counts as a word character.
    spec fn spec_is_word(self) -> bool;

    /// Returns whether the token should be considered a word character.
    fn is_word(&self) -> (b: bool)
        ensures
            b == self.spec_is_word(),
    ;

    /// Decides equality of two tokens.
    fn token_eq(&self, other: &Self) -> (b: bool)
        ensures
            b == (self == other),
    ;
}

/// A mapping from tokens to instruction pointers.
pub trait TokenMap<T>: Sized {
    /// Well-formedness of the carrier; `get` may only be called on a
    /// well-formed value.
    spec fn wf(&self) -> bool;

    /// The lookup that `get` decides.
    spec fn spec_get(&self, tok: T) -> Option<InstrPtr>;

    /// Looks the token up, returning the target instruction pointer if the
    /// token is present.
    fn get(&self, tok: &T) -> (r: Option<InstrPtr>)
        requires
            self.wf(),
        ensures
            r == self.spec_get(*tok),
    ;
}

/// A set of tokens.
pub trait TokenSet<T>: Sized {
    /// Well-formedness of the carrier; `contains` may only be called on a
    /// well-formed value.
    spec fn wf(&self) -> bool;

    /// The membership predicate that `contains` decides.
    spec fn spec_contains(&self, tok: T) -> bool;

    /// Returns whether the token is a member of the set.
    fn contains(&self, tok: &T) -> (r: bool)
        requires
            self.wf(),
        ensures
            r == self.spec_contains(*tok),
    ;
}

/// Whether the character has the Unicode `White_Space` property.
pub open spec fn spec_is_whitespace(c: char) -> bool {
    let u = c as u32;
    u == 0x09 || u == 0x0A || u == 0x0B || u == 0x0C || u == 0x0D || u == 0x20 || u == 0x85
        || u == 0xA0 || u == 0x1680 || (0x2000 <= u && u <= 0x200A) || u == 0x2028 || u == 0x2029
        || u == 0x202F || u == 0x205F || u == 0x3000
}

/// Decides [`spec_is_whitespace`].
fn is_whitespace_char(c: char) -> (b: bool)
    ensures
        b == spec_is_whitespace(c),
{
    let u = c as u32;
    u == 0x09 || u == 0x0A || u == 0x0B || u == 0x0C || u == 0x0D || u == 0x20 || u == 0x85
        || u == 0xA0 || u == 0x1680 || (0x2000 <= u && u <= 0x200A) || u == 0x2028 || u == 0x2029
        || u == 0x202F || u == 0x205F || u == 0x3000
}

impl Token for char {
    type Map = Vec<(char, InstrPtr)>;

    type Set = Vec<char>;

    /// A codepoint is a word character iff it is not whitespace.
    open spec fn spec_is_word(self) -> bool {
        !spec_is_whitespace(self)
    }

    fn is_word(&self) -> (b: bool) {
        !is_whitespace_char(*self)
    }

    fn token_eq(&self, other: &Self) -> (b: bool) {
        *self == *other
    }
}

/// First-match lookup in an association sequence.
pub open spec fn assoc_get<T>(entries: Seq<(T, InstrPtr)>, tok: T) -> Option<InstrPtr>
    decreases entries.len(),
{
    if entries.len() == 0 {
        None
    } else if entries[0].0 == tok {
        Some(entries[0].1)
    } else {
        assoc_get(entries.drop_first(), tok)
    }
}

impl<T: Token> TokenMap<T> for Vec<(T, InstrPtr)> {
    open spec fn wf(&self) -> bool {
        true
    }

    open spec fn spec_get(&self, tok: T) -> Option<InstrPtr> {
        assoc_get(self@, tok)
    }

    fn get(&self, tok: &T) -> (r: Option<InstrPtr>) {
        let n = self.len();
        let mut i: usize = 0;
        proof {
            assert(self@.skip(0) =~= self@);
        }
        while i < n
            invariant
                n == self@.len(),
                i <= n,
                assoc_get(self@, *tok) == assoc_get(self@.skip(i as int), *tok),
            decreases n - i,
        {
            let e = &self[i];
            if e.0.token_eq(tok) {
                proof {
                    assert(self@.skip(i as int)[0] == self@[i as int]);
                }
                return Some(e.1);
            }
            proof {
                assert(self@.skip(i as int).drop_first() =~= self@.skip(i as int + 1));
            }
            i += 1;
        }
        proof {
            assert(self@.skip(n as int) =~= Seq::<(T, InstrPtr)>::empty());
        }
        None
    }
}

impl<T: Token> TokenSet<T> for Vec<T> {
    open spec fn wf(&self) -> bool {
        true
    }

    open spec fn spec_contains(&self, tok: T) -> bool {
        self@.contains(tok)
    }

    fn contains(&self, tok: &T) -> (r: bool) {
        let n = self.len();
        let mut i: usize = 0;
        while i < n
            invariant
                n == self@.len(),
                i <= n,
                forall|j: int| 0 <= j < i ==> self@[j] != *tok,
            decreases n - i,
        {
            if self[i].token_eq(tok) {
                return true;
            }
            i += 1;
        }
        false
    }
}

} // verus!
