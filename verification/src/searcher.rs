//! The searcher abstraction: turning various input shapes into an indexed
//! token stream.
//!
//! A searcher yields `(idx, Some(tok))` pairs until it is exhausted, and
//! `(idx, None)` afterwards.  `idx` is the index *after* the token just
//! returned — the byte (for UTF-8 text) or element (for uniform input)
//! offset one past the token's end.  The initial index, before any token, is
//! `0`.

use vstd::prelude::*;
use vstd::string::StrSliceExecFns;
use vstd::string::StringSliceAdditionalSpecFns;
use vstd::utf8::char_is_scalar;
use vstd::utf8::encode_scalar;
use vstd::utf8::encode_utf8;

verus! {

broadcast use char_is_scalar;

/// A source of input tokens, each paired with the index one past the token's
/// end.
pub trait Searcher: Sized {
    type Item;

    /// The stream of `(post-consumption index, token)` pairs still to be
    /// yielded.
    spec fn stream(&self) -> Seq<(usize, Self::Item)>;

    /// The index one past the most recently yielded token; `0` before any
    /// token.
    spec fn index(&self) -> usize;

    /// Well-formedness; established on construction and preserved by `next`.
    spec fn wf(&self) -> bool;

    /// Yields the next token together with the index one past its end; after
    /// exhaustion, yields the current index and `None`.
    fn next(&mut self) -> (r: (usize, Option<Self::Item>))
        requires
            old(self).wf(),
        ensures
            final (self).wf(),
            old(self).stream().len() > 0 ==> {
                &&& r.0 == old(self).stream()[0].0
                &&& r.1 == Some(old(self).stream()[0].1)
                &&& final (self).stream() == old(self).stream().drop_first()
                &&& final (self).index() == old(self).stream()[0].0
            },
            old(self).stream().len() == 0 ==> {
                &&& r.0 == old(self).index()
                &&& r.1 is None
                &&& final (self).stream() == old(self).stream()
                &&& final (self).index() == old(self).index()
            },
    ;
}

/// The number of bytes in the UTF-8 encoding of a character.
pub open spec fn scalar_width(c: char) -> int {
    encode_scalar(c as u32).len() as int
}

/// The total number of bytes in the UTF-8 encoding of a character sequence.
pub open spec fn utf8_len(cs: Seq<char>) -> int {
    encode_utf8(cs).len() as int
}

/// The indexed token stream of a character sequence whose encoding starts at
/// byte offset `base`: each character paired with the byte offset one past
/// its encoding.
pub open spec fn char_stream(cs: Seq<char>, base: int) -> Seq<(usize, char)>
    decreases cs.len(),
{
    if cs.len() == 0 {
        Seq::empty()
    } else {
        seq![(((base + scalar_width(cs[0])) as usize), cs[0])].add(
            char_stream(cs.drop_first(), base + scalar_width(cs[0])),
        )
    }
}

/// The same stream read off a reversed character sequence: the *last*
/// element of `rev` is yielded first.
pub open spec fn char_rev_stream(rev: Seq<char>, base: int) -> Seq<(usize, char)>
    decreases rev.len(),
{
    if rev.len() == 0 {
        Seq::empty()
    } else {
        seq![(((base + scalar_width(rev.last())) as usize), rev.last())].add(
            char_rev_stream(rev.drop_last(), base + scalar_width(rev.last())),
        )
    }
}

/// The total UTF-8 width of a reversed character sequence.
pub open spec fn rev_utf8_len(rev: Seq<char>) -> int
    decreases rev.len(),
{
    if rev.len() == 0 {
        0
    } else {
        scalar_width(rev.last()) + rev_utf8_len(rev.drop_last())
    }
}

/// Decides [`scalar_width`].
fn utf8_width(c: char) -> (w: usize)
    ensures
        w == scalar_width(c),
        1 <= w <= 4,
{
    let u = c as u32;
    if u < 0x80 {
        1
    } else if u < 0x800 {
        2
    } else if u < 0x10000 {
        3
    } else {
        4
    }
}

/// The total UTF-8 width of a character sequence is non-negative.
proof fn lemma_rev_utf8_len_nonneg(rev: Seq<char>)
    ensures
        rev_utf8_len(rev) >= 0,
    decreases rev.len(),
{
    if rev.len() > 0 {
        lemma_rev_utf8_len_nonneg(rev.drop_last());
    }
}

/// The byte length of a character sequence decomposes at its first
/// character.
proof fn lemma_utf8_len_first(cs: Seq<char>)
    requires
        cs.len() > 0,
    ensures
        utf8_len(cs) == scalar_width(cs[0]) + utf8_len(cs.drop_first()),
        utf8_len(cs.drop_first()) >= 0,
{
}

/// A reversed character sequence yields the same stream, and has the same
/// total width, as the original sequence read forwards.
proof fn lemma_char_rev_stream(rev: Seq<char>, cs: Seq<char>, base: int)
    requires
        rev.len() == cs.len(),
        forall|j: int| 0 <= j < rev.len() ==> rev[j] == cs[cs.len() - 1 - j],
    ensures
        char_rev_stream(rev, base) == char_stream(cs, base),
        rev_utf8_len(rev) == utf8_len(cs),
        rev_utf8_len(rev) >= 0,
    decreases rev.len(),
{
    if rev.len() == 0 {
        assert(char_rev_stream(rev, base) =~= char_stream(cs, base));
    } else {
        let rev1 = rev.drop_last();
        let cs1 = cs.drop_first();
        assert(forall|j: int| 0 <= j < rev1.len() ==> rev1[j] == cs1[cs1.len() - 1 - j]);
        assert(rev.last() == cs[0]);
        lemma_char_rev_stream(rev1, cs1, base + scalar_width(cs[0]));
        lemma_utf8_len_first(cs);
        assert(char_rev_stream(rev, base) =~= char_stream(cs, base));
    }
}

/// A searcher over UTF-8 text, yielding codepoints with byte offsets.
///
/// The codepoints are held in reverse, so that the next one is popped from
/// the end; `next_index` is the byte offset one past the most recently
/// yielded codepoint.
pub struct StrSearcher {
    next_index: usize,
    rev: Vec<char>,
}

impl Searcher for StrSearcher {
    type Item = char;

    closed spec fn stream(&self) -> Seq<(usize, char)> {
        char_rev_stream(self.rev@, self.next_index as int)
    }

    closed spec fn index(&self) -> usize {
        self.next_index
    }

    closed spec fn wf(&self) -> bool {
        self.next_index + rev_utf8_len(self.rev@) <= usize::MAX
    }

    fn next(&mut self) -> (r: (usize, Option<char>)) {
        match self.rev.pop() {
            Some(c) => {
                proof {
                    lemma_rev_utf8_len_nonneg(old(self).rev@.drop_last());
                }
                self.next_index += utf8_width(c);
                (self.next_index, Some(c))
            },
            None => (self.next_index, None),
        }
    }
}

/// A searcher over an already-collected token sequence, yielding each token
/// with its element offset.
///
/// The tokens are held in reverse, so that the next token is popped from the
/// end.
pub struct IterSearcher<T> {
    next_index: usize,
    rev: Vec<T>,
}

/// The indexed token stream of a reversed token sequence whose offsets start
/// at `base`: the *last* element of `rev` is yielded first, at offset
/// `base + 1`.
pub open spec fn rev_stream<T>(rev: Seq<T>, base: int) -> Seq<(usize, T)>
    decreases rev.len(),
{
    if rev.len() == 0 {
        Seq::empty()
    } else {
        seq![(((base + 1) as usize), rev.last())].add(rev_stream(rev.drop_last(), base + 1))
    }
}

/// The indexed token stream of a token sequence: the `i`-th token paired
/// with offset `i + 1`.
pub open spec fn uniform_stream<T>(ts: Seq<T>) -> Seq<(usize, T)> {
    Seq::new(ts.len(), |i: int| (((i + 1) as usize), ts[i]))
}

/// A reversed sequence yields the same stream as the original sequence read
/// forwards.
proof fn lemma_rev_stream<T>(rev: Seq<T>, ts: Seq<T>, base: int)
    requires
        rev.len() == ts.len(),
        forall|j: int| 0 <= j < rev.len() ==> rev[j] == ts[ts.len() - 1 - j],
        base + ts.len() <= usize::MAX,
        base >= 0,
    ensures
        rev_stream(rev, base) == Seq::new(
            ts.len(),
            |i: int| (((base + i + 1) as usize), ts[i]),
        ),
    decreases rev.len(),
{
    let target = Seq::new(ts.len(), |i: int| (((base + i + 1) as usize), ts[i]));
    if rev.len() == 0 {
        assert(rev_stream(rev, base) =~= target);
    } else {
        let rev1 = rev.drop_last();
        let ts1 = ts.drop_first();
        assert(forall|j: int| 0 <= j < rev1.len() ==> rev1[j] == ts1[ts1.len() - 1 - j]);
        lemma_rev_stream(rev1, ts1, base + 1);
        assert(rev.last() == ts[0]);
        assert(rev_stream(rev, base) =~= target) by {
            assert(rev_stream(rev, base) == seq![(((base + 1) as usize), ts[0])].add(
                rev_stream(rev1, base + 1),
            ));
        }
    }
}

impl<T> IterSearcher<T> {
    /// Creates an `IterSearcher` over the given tokens.
    pub fn new(tokens: Vec<T>) -> (s: IterSearcher<T>)
        ensures
            s.wf(),
            s.stream() == uniform_stream(tokens@),
            s.index() == 0,
    {
        let ghost orig = tokens@;
        let count = tokens.len();
        proof {
            assert(count == orig.len());
        }
        let mut tokens = tokens;
        let mut rev: Vec<T> = Vec::new();
        loop
            invariant
                rev@.len() + tokens@.len() == orig.len(),
                tokens@ =~= orig.take(tokens@.len() as int),
                forall|j: int| 0 <= j < rev@.len() ==> rev@[j] == orig[orig.len() - 1 - j],
            ensures
                tokens@.len() == 0,
                rev@.len() == orig.len(),
                forall|j: int| 0 <= j < rev@.len() ==> rev@[j] == orig[orig.len() - 1 - j],
            decreases tokens@.len(),
        {
            match tokens.pop() {
                Some(t) => {
                    proof {
                        assert(orig.take(tokens@.len() as int + 1)[tokens@.len() as int] == orig[
                            tokens@.len() as int
                        ]);
                        assert(orig.take(tokens@.len() as int + 1).drop_last() =~= orig.take(
                            tokens@.len() as int,
                        ));
                    }
                    rev.push(t);
                },
                None => {
                    break;
                },
            }
        }
        proof {
            lemma_rev_stream(rev@, orig, 0);
            assert(uniform_stream(orig) =~= Seq::new(
                orig.len(),
                |i: int| (((0 + i + 1) as usize), orig[i]),
            ));
        }
        IterSearcher { next_index: 0, rev }
    }
}

impl<T> Searcher for IterSearcher<T> {
    type Item = T;

    closed spec fn stream(&self) -> Seq<(usize, T)> {
        rev_stream(self.rev@, self.next_index as int)
    }

    closed spec fn index(&self) -> usize {
        self.next_index
    }

    closed spec fn wf(&self) -> bool {
        self.next_index + self.rev@.len() <= usize::MAX
    }

    fn next(&mut self) -> (r: (usize, Option<T>)) {
        match self.rev.pop() {
            Some(t) => {
                self.next_index += 1;
                (self.next_index, Some(t))
            },
            None => (self.next_index, None),
        }
    }
}

/// Conversion of an input shape into a searcher over its tokens.
pub trait IntoSearcher<T>: Sized {
    type Searcher: Searcher<Item = T>;

    /// The stream that the searcher will yield.
    spec fn spec_stream(self) -> Seq<(usize, T)>;

    /// The index the searcher starts at: `0` for every fresh input shape, so
    /// that an exhausted fresh searcher reports `(0, None)`.  A value that is
    /// already a searcher keeps its current index.
    spec fn initial_index(self) -> usize;

    /// Precondition of the conversion.
    spec fn ready(self) -> bool;

    /// Turns the input into a searcher positioned at its start.
    fn into_searcher(self) -> (s: Self::Searcher)
        requires
            self.ready(),
        ensures
            s.wf(),
            s.stream() == self.spec_stream(),
            s.index() == self.initial_index(),
    ;
}

impl<'a> IntoSearcher<char> for &'a str {
    type Searcher = StrSearcher;

    /// UTF-8 text yields its codepoints with byte offsets.
    open spec fn spec_stream(self) -> Seq<(usize, char)> {
        char_stream(self@, 0)
    }

    open spec fn initial_index(self) -> usize {
        0
    }

    open spec fn ready(self) -> bool {
        true
    }

    fn into_searcher(self) -> (s: StrSearcher) {
        // the encoding of the text fits in memory, so offsets cannot
        // overflow
        let bytes = self.as_bytes();
        let byte_len = bytes.len();
        proof {
            assert(byte_len == self.spec_bytes().len());
        }
        let n = self.unicode_len();
        let mut rev: Vec<char> = Vec::new();
        let mut i: usize = n;
        while i > 0
            invariant
                i <= n,
                n == self@.len(),
                rev@.len() == n - i,
                forall|j: int| 0 <= j < rev@.len() ==> rev@[j] == self@[n - 1 - j],
            decreases i,
        {
            i -= 1;
            let c = self.get_char(i);
            rev.push(c);
        }
        proof {
            lemma_char_rev_stream(rev@, self@, 0);
            assert(utf8_len(self@) == bytes@.len());
        }
        StrSearcher { next_index: 0, rev }
    }
}

impl<T> IntoSearcher<T> for Vec<T> {
    type Searcher = IterSearcher<T>;

    /// A token vector yields its elements with element offsets.
    open spec fn spec_stream(self) -> Seq<(usize, T)> {
        uniform_stream(self@)
    }

    open spec fn initial_index(self) -> usize {
        0
    }

    open spec fn ready(self) -> bool {
        true
    }

    fn into_searcher(self) -> (s: IterSearcher<T>) {
        IterSearcher::new(self)
    }
}

impl<'a, T: Copy> IntoSearcher<T> for &'a [T] {
    type Searcher = IterSearcher<T>;

    /// A token slice yields its elements with element offsets.
    open spec fn spec_stream(self) -> Seq<(usize, T)> {
        uniform_stream(self@)
    }

    open spec fn initial_index(self) -> usize {
        0
    }

    open spec fn ready(self) -> bool {
        true
    }

    fn into_searcher(self) -> (s: IterSearcher<T>) {
        let n = self.len();
        let mut v: Vec<T> = Vec::new();
        let mut i: usize = 0;
        while i < n
            invariant
                n == self@.len(),
                i <= n,
                v@ =~= self@.take(i as int),
            decreases n - i,
        {
            let t = self[i];
            v.push(t);
            proof {
                assert(self@.take(i as int).push(self@[i as int]) =~= self@.take(i as int + 1));
            }
            i += 1;
        }
        proof {
            assert(v@.take(n as int) =~= v@);
            assert(v@ =~= self@);
        }
        IterSearcher::new(v)
    }
}

impl<T, S: Searcher<Item = T>> IntoSearcher<T> for S {
    type Searcher = S;

    /// A searcher yields its own stream.
    open spec fn spec_stream(self) -> Seq<(usize, T)> {
        self.stream()
    }

    open spec fn initial_index(self) -> usize {
        self.index()
    }

    open spec fn ready(self) -> bool {
        self.wf()
    }

    fn into_searcher(self) -> (s: S) {
        self
    }
}

} // verus!
