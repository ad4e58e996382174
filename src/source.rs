use vstd::prelude::*;

use vstd::string::StringSliceAdditionalSpecFns;

use crate::token::{is_whitespace, is_ws, lemma_first_token, lemma_skip_ws, lemma_tokens_concat, tokens};

verus! {

/// A stateful cursor that hands out tokens, each exactly once, in input order.
pub trait Source {
    /// The tokens that this source has still to hand out.
    spec fn tokens(&self) -> Seq<Seq<u8>>;

    /// Takes the next token, or reports that none is left (leaving the source as it was).
    fn next_token(&mut self) -> (r: Option<Vec<u8>>)
        ensures
            old(self).tokens().len() == 0 ==> r is None && final(self).tokens() == old(self).tokens(),
            old(self).tokens().len() > 0 ==> (r matches Some(t) && t@ == old(self).tokens()[0]
                && final(self).tokens() == old(self).tokens().drop_first()),
    ;

    /// Whether no token is left.
    fn is_empty(&self) -> (r: bool)
        ensures
            r == (self.tokens().len() == 0),
    ;
}

/// A byte buffer with a read position; the common cursor of the sources below.
struct Cursor {
    buf: Vec<u8>,
    pos: usize,
}

impl Cursor {
    #[verifier::type_invariant]
    spec fn inv(&self) -> bool {
        self.pos <= self.buf.len()
    }

    /// The bytes not yet consumed.
    pub closed spec fn rest(&self) -> Seq<u8> {
        self.buf@.skip(self.pos as int)
    }

    fn new(buf: Vec<u8>) -> (r: Cursor)
        ensures
            r.rest() == buf@,
    {
        let r = Cursor { buf, pos: 0 };
        assert(r.buf@.skip(0) =~= r.buf@);
        r
    }

    /// Index of the first non-whitespace byte at or after the position.
    fn skip_ws(&self) -> (i: usize)
        ensures
            self.pos <= i <= self.buf.len(),
            forall|j: int| self.pos <= j < i ==> is_ws(#[trigger] self.buf@[j]),
            i < self.buf.len() ==> !is_ws(self.buf@[i as int]),
    {
        proof {
            use_type_invariant(self);
        }
        let mut i = self.pos;
        while i < self.buf.len() && is_whitespace(self.buf[i])
            invariant
                self.pos <= i <= self.buf.len(),
                forall|j: int| self.pos <= j < i ==> is_ws(#[trigger] self.buf@[j]),
            decreases self.buf.len() - i,
        {
            i = i + 1;
        }
        i
    }

    fn is_empty(&self) -> (r: bool)
        ensures
            r == (tokens(self.rest()).len() == 0),
    {
        proof {
            use_type_invariant(self);
        }
        let i = self.skip_ws();
        let ghost r = self.rest();
        proof {
            let k = i - self.pos;
            assert forall|j: int| 0 <= j < k implies is_ws(#[trigger] r[j]) by {
                assert(r[j] == self.buf@[self.pos + j]);
            }
            lemma_skip_ws(r, k);
            assert(r.skip(k) =~= self.buf@.skip(i as int));
            if i < self.buf.len() {
                assert(self.buf@.skip(i as int)[0] == self.buf@[i as int]);
                assert(tokens(self.buf@.skip(i as int)).len() > 0);
            } else {
                assert(self.buf@.skip(i as int).len() == 0);
            }
        }
        i == self.buf.len()
    }

    fn next_token(&mut self) -> (r: Option<Vec<u8>>)
        ensures
            tokens(old(self).rest()).len() == 0 ==> r is None && final(self).rest() == old(
                self,
            ).rest(),
            tokens(old(self).rest()).len() > 0 ==> (r matches Some(t) && t@ == tokens(
                old(self).rest(),
            )[0] && tokens(final(self).rest()) == tokens(old(self).rest()).drop_first()),
    {
        proof {
            use_type_invariant(&*self);
        }
        let start = self.skip_ws();
        let ghost r0 = self.rest();
        let ghost b = self.buf@;
        proof {
            let k = start - self.pos;
            assert forall|j: int| 0 <= j < k implies is_ws(#[trigger] r0[j]) by {
                assert(r0[j] == b[self.pos + j]);
            }
            lemma_skip_ws(r0, k);
            assert(r0.skip(k) =~= b.skip(start as int));
        }
        if start == self.buf.len() {
            assert(b.skip(start as int).len() == 0);
            return None;
        }
        let mut i = start;
        let mut tok: Vec<u8> = Vec::new();
        while i < self.buf.len() && !is_whitespace(self.buf[i])
            invariant
                start <= i <= self.buf.len(),
                self.buf@ == b,
                forall|j: int| start <= j < i ==> !is_ws(#[trigger] b[j]),
                tok@ == b.subrange(start as int, i as int),
            decreases self.buf.len() - i,
        {
            tok.push(self.buf[i]);
            i = i + 1;
        }
        proof {
            let s = b.skip(start as int);
            let e = i - start;
            assert forall|j: int| 0 <= j < e implies !is_ws(#[trigger] s[j]) by {
                assert(s[j] == b[start + j]);
            }
            if i < b.len() {
                assert(s[e] == b[i as int]);
            }
            lemma_first_token(s, e);
            assert(s.take(e) =~= tok@);
            assert(s.skip(e) =~= b.skip(i as int));
        }
        self.pos = i;
        Some(tok)
    }

    /// Drops the consumed bytes and appends `more`.
    fn append(&mut self, more: Vec<u8>)
        ensures
            final(self).rest() == old(self).rest() + more@,
    {
        proof {
            use_type_invariant(&*self);
        }
        let ghost r0 = self.rest();
        let mut kept: Vec<u8> = Vec::new();
        let mut i = self.pos;
        while i < self.buf.len()
            invariant
                self.pos <= i <= self.buf.len(),
                kept@ == self.buf@.subrange(self.pos as int, i as int),
            decreases self.buf.len() - i,
        {
            kept.push(self.buf[i]);
            i = i + 1;
        }
        let mut j: usize = 0;
        while j < more.len()
            invariant
                j <= more.len(),
                kept@ == r0 + more@.take(j as int),
            decreases more.len() - j,
        {
            kept.push(more[j]);
            j = j + 1;
        }
        assert(more@.take(more.len() as int) =~= more@);
        *self = Cursor { buf: kept, pos: 0 };
        assert(self.buf@.skip(0) =~= self.buf@);
    }
}

impl Clone for Cursor {
    fn clone(&self) -> (r: Cursor)
        ensures
            r.rest() == self.rest(),
    {
        proof {
            use_type_invariant(self);
        }
        let buf = self.buf.clone();
        assert(buf@ =~= self.buf@);
        Cursor { buf, pos: self.pos }
    }
}

/// Eager source: the whole input is in memory from the start.
pub struct OnceSource {
    cur: Cursor,
}

impl OnceSource {
    /// A source over the given bytes.
    pub fn from_bytes(bytes: Vec<u8>) -> (r: OnceSource)
        ensures
            r.tokens() == tokens(bytes@),
    {
        OnceSource { cur: Cursor::new(bytes) }
    }

    /// A source over the bytes of the given text.
    pub fn from(text: &str) -> (r: OnceSource)
        ensures
            r.tokens() == tokens(text.spec_bytes()),
    {
        OnceSource::from_bytes(text.as_bytes_vec())
    }
}

impl Source for OnceSource {
    closed spec fn tokens(&self) -> Seq<Seq<u8>> {
        tokens(self.cur.rest())
    }

    fn next_token(&mut self) -> (r: Option<Vec<u8>>) {
        self.cur.next_token()
    }

    fn is_empty(&self) -> (r: bool) {
        self.cur.is_empty()
    }
}

/// Incremental source: holds what has been read of the input so far, a line at a time;
/// whoever owns the underlying stream hands it each new line with `push_line`.
pub struct LineSource {
    cur: Cursor,
}

impl LineSource {
    /// A source with nothing read yet.
    pub fn new() -> (r: LineSource)
        ensures
            r.pending() == Seq::<u8>::empty(),
            r.tokens() == Seq::<Seq<u8>>::empty(),
    {
        let r = LineSource { cur: Cursor::new(Vec::new()) };
        assert(r.pending() =~= Seq::<u8>::empty());
        r
    }

    /// The bytes read so far that no token has been taken from yet.
    pub closed spec fn pending(&self) -> Seq<u8> {
        self.cur.rest()
    }

    /// Adds one more line (or the last, unterminated, piece) of input.
    pub fn push_line(&mut self, line: Vec<u8>)
        ensures
            final(self).pending() == old(self).pending() + line@,
            final(self).tokens() == tokens(old(self).pending() + line@),
    {
        self.cur.append(line);
    }
}

/// After a line that ends in whitespace, the next line's tokens simply follow.
pub proof fn lemma_push_after_line_end(pending: Seq<u8>, line: Seq<u8>)
    requires
        pending.len() == 0 || is_ws(pending.last()),
    ensures
        tokens(pending + line) == tokens(pending) + tokens(line),
{
    lemma_tokens_concat(pending, line);
}

impl Source for LineSource {
    open spec fn tokens(&self) -> Seq<Seq<u8>> {
        tokens(self.pending())
    }

    fn next_token(&mut self) -> (r: Option<Vec<u8>>) {
        self.cur.next_token()
    }

    fn is_empty(&self) -> (r: bool) {
        self.cur.is_empty()
    }
}

/// A source that is either eager or incremental, as chosen when it was made.
pub enum AutoSource {
    Once(OnceSource),
    Line(LineSource),
}

impl AutoSource {
    /// An eager source over the bytes of the given text.
    pub fn from(text: &str) -> (r: AutoSource)
        ensures
            r.tokens() == tokens(text.spec_bytes()),
    {
        AutoSource::Once(OnceSource::from(text))
    }

    /// An eager source over the given bytes.
    pub fn from_bytes(bytes: Vec<u8>) -> (r: AutoSource)
        ensures
            r.tokens() == tokens(bytes@),
    {
        AutoSource::Once(OnceSource::from_bytes(bytes))
    }
}

impl Source for AutoSource {
    open spec fn tokens(&self) -> Seq<Seq<u8>> {
        match self {
            AutoSource::Once(s) => s.tokens(),
            AutoSource::Line(s) => s.tokens(),
        }
    }

    fn next_token(&mut self) -> (r: Option<Vec<u8>>) {
        match self {
            AutoSource::Once(s) => s.next_token(),
            AutoSource::Line(s) => s.next_token(),
        }
    }

    fn is_empty(&self) -> (r: bool) {
        match self {
            AutoSource::Once(s) => s.is_empty(),
            AutoSource::Line(s) => s.is_empty(),
        }
    }
}

impl Clone for OnceSource {
    fn clone(&self) -> (r: OnceSource)
        ensures
            r.tokens() == self.tokens(),
    {
        OnceSource { cur: self.cur.clone() }
    }
}

impl Clone for LineSource {
    fn clone(&self) -> (r: LineSource)
        ensures
            r.pending() == self.pending(),
    {
        LineSource { cur: self.cur.clone() }
    }
}

impl Clone for AutoSource {
    fn clone(&self) -> (r: AutoSource)
        ensures
            r.tokens() == self.tokens(),
    {
        match self {
            AutoSource::Once(s) => AutoSource::Once(s.clone()),
            AutoSource::Line(s) => AutoSource::Line(s.clone()),
        }
    }
}

} // verus!
