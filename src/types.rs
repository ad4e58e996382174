use vstd::prelude::*;
use vstd::utf8::{decode_utf8, valid_utf8};

use crate::parse::{chars_of, decode_text, int_in, int_of, parse_integer};
use crate::read::{ReadError, Readable};
use crate::source::Source;

verus! {

/// `usize` written one-based: the value read is one less than the token's.
pub struct Usize1;

/// `isize` written one-based: the value read is one less than the token's.
pub struct Isize1;

/// A single character: the token must be exactly one UTF-8 character.
pub struct Char;

/// A UTF-8 string.
pub struct Str;

/// A UTF-8 token as its sequence of characters.
pub struct Chars;

/// A token's raw bytes.
pub struct Bytes;

/// Error of reading a one-based index in `lo..=hi` from the front of `toks`.
pub open spec fn index1_error(toks: Seq<Seq<u8>>, signed: bool, lo: int, hi: int) -> Option<
    ReadError,
> {
    if toks.len() == 0 {
        Some(ReadError::Exhausted)
    } else if int_in(toks[0], signed, lo, hi) is None {
        Some(ReadError::Malformed)
    } else if int_of(toks[0], signed) == Some(lo) {
        Some(ReadError::Underflow)
    } else {
        None
    }
}

/// Error of reading a UTF-8 token whose character count must satisfy `one_char`.
pub open spec fn text_error(toks: Seq<Seq<u8>>, one_char: bool) -> Option<ReadError> {
    if toks.len() == 0 {
        Some(ReadError::Exhausted)
    } else if !valid_utf8(toks[0]) {
        Some(ReadError::Malformed)
    } else if one_char && decode_utf8(toks[0]).len() != 1 {
        Some(ReadError::Malformed)
    } else {
        None
    }
}

fn take_text<S: Source>(source: &mut S) -> (r: Result<String, ReadError>)
    ensures
        r is Ok <==> text_error(old(source).tokens(), false) is None,
        r matches Err(e) ==> text_error(old(source).tokens(), false) == Some(e),
        r matches Ok(s) ==> s@ == decode_utf8(old(source).tokens()[0]) && old(
            source,
        ).tokens().len() >= 1 && final(source).tokens() == old(source).tokens().skip(1),
{
    let ghost t0 = source.tokens();
    match source.next_token() {
        Some(t) => {
            assert(t0.skip(1) =~= t0.drop_first());
            match decode_text(t) {
                Some(s) => Ok(s),
                None => Err(ReadError::Malformed),
            }
        },
        None => Err(ReadError::Exhausted),
    }
}

impl Readable for Usize1 {
    type Output = usize;

    open spec fn error(&self, toks: Seq<Seq<u8>>) -> Option<ReadError> {
        index1_error(toks, false, 0, usize::MAX as int)
    }

    open spec fn used(&self, toks: Seq<Seq<u8>>) -> nat {
        1
    }

    open spec fn value(&self, toks: Seq<Seq<u8>>, out: usize) -> bool {
        int_of(toks[0], false) == Some(out + 1)
    }

    proof fn lemma_used_fits(&self, toks: Seq<Seq<u8>>) {
    }

    fn read<S: Source>(&self, source: &mut S) -> (r: Result<usize, ReadError>) {
        let ghost t0 = source.tokens();
        let tok = match source.next_token() {
            Some(t) => t,
            None => return Err(ReadError::Exhausted),
        };
        assert(t0.skip(1) =~= t0.drop_first());
        match parse_integer(&tok, false, 0, usize::MAX as i128) {
            Some(v) => if v == 0 {
                Err(ReadError::Underflow)
            } else {
                Ok((v - 1) as usize)
            },
            None => Err(ReadError::Malformed),
        }
    }
}

impl Readable for Isize1 {
    type Output = isize;

    open spec fn error(&self, toks: Seq<Seq<u8>>) -> Option<ReadError> {
        index1_error(toks, true, isize::MIN as int, isize::MAX as int)
    }

    open spec fn used(&self, toks: Seq<Seq<u8>>) -> nat {
        1
    }

    open spec fn value(&self, toks: Seq<Seq<u8>>, out: isize) -> bool {
        int_of(toks[0], true) == Some(out + 1)
    }

    proof fn lemma_used_fits(&self, toks: Seq<Seq<u8>>) {
    }

    fn read<S: Source>(&self, source: &mut S) -> (r: Result<isize, ReadError>) {
        let ghost t0 = source.tokens();
        let tok = match source.next_token() {
            Some(t) => t,
            None => return Err(ReadError::Exhausted),
        };
        assert(t0.skip(1) =~= t0.drop_first());
        match parse_integer(&tok, true, isize::MIN as i128, isize::MAX as i128) {
            Some(v) => if v == isize::MIN as i128 {
                Err(ReadError::Underflow)
            } else {
                Ok((v - 1) as isize)
            },
            None => Err(ReadError::Malformed),
        }
    }
}

impl Readable for Char {
    type Output = char;

    open spec fn error(&self, toks: Seq<Seq<u8>>) -> Option<ReadError> {
        text_error(toks, true)
    }

    open spec fn used(&self, toks: Seq<Seq<u8>>) -> nat {
        1
    }

    open spec fn value(&self, toks: Seq<Seq<u8>>, out: char) -> bool {
        decode_utf8(toks[0]) == seq![out]
    }

    proof fn lemma_used_fits(&self, toks: Seq<Seq<u8>>) {
    }

    fn read<S: Source>(&self, source: &mut S) -> (r: Result<char, ReadError>) {
        let s = take_text(source)?;
        let cs = chars_of(s.as_str());
        if cs.len() != 1 {
            return Err(ReadError::Malformed);
        }
        assert(cs@ =~= seq![cs[0]]);
        Ok(cs[0])
    }
}

impl Readable for Str {
    type Output = String;

    open spec fn error(&self, toks: Seq<Seq<u8>>) -> Option<ReadError> {
        text_error(toks, false)
    }

    open spec fn used(&self, toks: Seq<Seq<u8>>) -> nat {
        1
    }

    open spec fn value(&self, toks: Seq<Seq<u8>>, out: String) -> bool {
        out@ == decode_utf8(toks[0])
    }

    proof fn lemma_used_fits(&self, toks: Seq<Seq<u8>>) {
    }

    fn read<S: Source>(&self, source: &mut S) -> (r: Result<String, ReadError>) {
        take_text(source)
    }
}

impl Readable for Chars {
    type Output = Vec<char>;

    open spec fn error(&self, toks: Seq<Seq<u8>>) -> Option<ReadError> {
        text_error(toks, false)
    }

    open spec fn used(&self, toks: Seq<Seq<u8>>) -> nat {
        1
    }

    open spec fn value(&self, toks: Seq<Seq<u8>>, out: Vec<char>) -> bool {
        out@ == decode_utf8(toks[0])
    }

    proof fn lemma_used_fits(&self, toks: Seq<Seq<u8>>) {
    }

    fn read<S: Source>(&self, source: &mut S) -> (r: Result<Vec<char>, ReadError>) {
        let s = take_text(source)?;
        Ok(chars_of(s.as_str()))
    }
}

impl Readable for Bytes {
    type Output = Vec<u8>;

    open spec fn error(&self, toks: Seq<Seq<u8>>) -> Option<ReadError> {
        if toks.len() == 0 {
            Some(ReadError::Exhausted)
        } else {
            None
        }
    }

    open spec fn used(&self, toks: Seq<Seq<u8>>) -> nat {
        1
    }

    open spec fn value(&self, toks: Seq<Seq<u8>>, out: Vec<u8>) -> bool {
        out@ == toks[0]
    }

    proof fn lemma_used_fits(&self, toks: Seq<Seq<u8>>) {
    }

    fn read<S: Source>(&self, source: &mut S) -> (r: Result<Vec<u8>, ReadError>) {
        let ghost t0 = source.tokens();
        match source.next_token() {
            Some(t) => {
                assert(t0.skip(1) =~= t0.drop_first());
                Ok(t)
            },
            None => Err(ReadError::Exhausted),
        }
    }
}

} // verus!
