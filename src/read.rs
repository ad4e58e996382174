use vstd::prelude::*;
use crate::parse::{int_in, int_of, parse_integer};
use crate::source::Source;

verus! {

/// Why a read failed.
#[derive(Debug, Clone, Copy, PartialEq, Eq, Structural)]
pub enum ReadError {
    /// A token was needed and none was left.
    Exhausted,
    /// A token does not denote a value of the requested kind.
    Malformed,
    /// A one-based index kind read the smallest value of its type.
    Underflow,
}

/// A kind of value that can be read from a token source.
///
/// Reading is described over the tokens that the source still holds: whether it fails,
/// how many tokens a successful read takes, and which outputs it may give.
pub trait Readable {
    type Output;

    /// The error that reading from `toks` ends with, if any.
    spec fn error(&self, toks: Seq<Seq<u8>>) -> Option<ReadError>;

    /// How many tokens a successful read from `toks` takes.
    spec fn used(&self, toks: Seq<Seq<u8>>) -> nat;

    /// Whether `out` is what a read from `toks` gives.
    spec fn value(&self, toks: Seq<Seq<u8>>, out: Self::Output) -> bool;

    /// A successful read takes only tokens that are there.
    proof fn lemma_used_fits(&self, toks: Seq<Seq<u8>>)
        ensures
            self.error(toks) is None ==> self.used(toks) <= toks.len(),
    ;

    /// Reads one value, leaving the source just after the last token it took.
    fn read<S: Source>(&self, source: &mut S) -> (r: Result<Self::Output, ReadError>)
        ensures
            r is Ok <==> self.error(old(source).tokens()) is None,
            r matches Err(e) ==> self.error(old(source).tokens()) == Some(e),
            r matches Ok(v) ==> self.value(old(source).tokens(), v) && self.used(
                old(source).tokens(),
            ) <= old(source).tokens().len() && final(source).tokens() == old(
                source,
            ).tokens().skip(self.used(old(source).tokens()) as int),
    ;
}

pub proof fn lemma_skip_skip(t: Seq<Seq<u8>>, a: int, b: int)
    requires
        0 <= a <= t.len(),
        0 <= b <= t.len() - a,
    ensures
        t.skip(a).skip(b) == t.skip(a + b),
{
    assert(t.skip(a).skip(b) =~= t.skip(a + b));
}

/// Error of reading an integer in `lo..=hi` from the front of `toks`.
pub open spec fn int_error(toks: Seq<Seq<u8>>, signed: bool, lo: int, hi: int) -> Option<
    ReadError,
> {
    if toks.len() == 0 {
        Some(ReadError::Exhausted)
    } else if int_in(toks[0], signed, lo, hi) is Some {
        None
    } else {
        Some(ReadError::Malformed)
    }
}

/// Takes one token, or fails with `Exhausted`.
fn take_token<S: Source>(source: &mut S) -> (r: Result<Vec<u8>, ReadError>)
    ensures
        r is Ok <==> old(source).tokens().len() > 0,
        r matches Err(e) ==> e == ReadError::Exhausted,
        r matches Ok(t) ==> t@ == old(source).tokens()[0] && final(source).tokens() == old(
            source,
        ).tokens().skip(1),
{
    let ghost t0 = source.tokens();
    match source.next_token() {
        Some(t) => {
            assert(t0.skip(1) =~= t0.drop_first());
            Ok(t)
        },
        None => Err(ReadError::Exhausted),
    }
}

/// Reads one integer in `lo..=hi`.
fn read_int<S: Source>(source: &mut S, signed: bool, lo: i128, hi: i128) -> (r: Result<
    i128,
    ReadError,
>)
    requires
        -0x1_0000_0000_0000_0000 <= lo <= 0 <= hi < 0x1_0000_0000_0000_0000,
    ensures
        r is Ok <==> int_error(old(source).tokens(), signed, lo as int, hi as int) is None,
        r matches Err(e) ==> int_error(old(source).tokens(), signed, lo as int, hi as int) == Some(
            e,
        ),
        r matches Ok(v) ==> int_of(old(source).tokens()[0], signed) == Some(v as int) && lo <= v
            <= hi && old(source).tokens().len() >= 1 && final(source).tokens() == old(
            source,
        ).tokens().skip(1),
{
    let tok = take_token(source)?;
    match parse_integer(&tok, signed, lo, hi) {
        Some(v) => Ok(v),
        None => Err(ReadError::Malformed),
    }
}

/// `u8`.
pub struct U8;

/// `u16`.
pub struct U16;

/// `u32`.
pub struct U32;

/// `u64`.
pub struct U64;

/// `usize`.
pub struct Usize;

/// `i8`.
pub struct I8;

/// `i16`.
pub struct I16;

/// `i32`.
pub struct I32;

/// `i64`.
pub struct I64;

/// `isize`.
pub struct Isize;

impl Readable for U8 {
    type Output = u8;

    open spec fn error(&self, toks: Seq<Seq<u8>>) -> Option<ReadError> {
        int_error(toks, false, 0, u8::MAX as int)
    }

    open spec fn used(&self, toks: Seq<Seq<u8>>) -> nat {
        1
    }

    open spec fn value(&self, toks: Seq<Seq<u8>>, out: u8) -> bool {
        int_of(toks[0], false) == Some(out as int)
    }

    proof fn lemma_used_fits(&self, toks: Seq<Seq<u8>>) {
    }

    fn read<S: Source>(&self, source: &mut S) -> (r: Result<u8, ReadError>) {
        let v = read_int(source, false, 0, u8::MAX as i128)?;
        Ok(v as u8)
    }
}

impl Readable for U16 {
    type Output = u16;

    open spec fn error(&self, toks: Seq<Seq<u8>>) -> Option<ReadError> {
        int_error(toks, false, 0, u16::MAX as int)
    }

    open spec fn used(&self, toks: Seq<Seq<u8>>) -> nat {
        1
    }

    open spec fn value(&self, toks: Seq<Seq<u8>>, out: u16) -> bool {
        int_of(toks[0], false) == Some(out as int)
    }

    proof fn lemma_used_fits(&self, toks: Seq<Seq<u8>>) {
    }

    fn read<S: Source>(&self, source: &mut S) -> (r: Result<u16, ReadError>) {
        let v = read_int(source, false, 0, u16::MAX as i128)?;
        Ok(v as u16)
    }
}

impl Readable for U32 {
    type Output = u32;

    open spec fn error(&self, toks: Seq<Seq<u8>>) -> Option<ReadError> {
        int_error(toks, false, 0, u32::MAX as int)
    }

    open spec fn used(&self, toks: Seq<Seq<u8>>) -> nat {
        1
    }

    open spec fn value(&self, toks: Seq<Seq<u8>>, out: u32) -> bool {
        int_of(toks[0], false) == Some(out as int)
    }

    proof fn lemma_used_fits(&self, toks: Seq<Seq<u8>>) {
    }

    fn read<S: Source>(&self, source: &mut S) -> (r: Result<u32, ReadError>) {
        let v = read_int(source, false, 0, u32::MAX as i128)?;
        Ok(v as u32)
    }
}

impl Readable for U64 {
    type Output = u64;

    open spec fn error(&self, toks: Seq<Seq<u8>>) -> Option<ReadError> {
        int_error(toks, false, 0, u64::MAX as int)
    }

    open spec fn used(&self, toks: Seq<Seq<u8>>) -> nat {
        1
    }

    open spec fn value(&self, toks: Seq<Seq<u8>>, out: u64) -> bool {
        int_of(toks[0], false) == Some(out as int)
    }

    proof fn lemma_used_fits(&self, toks: Seq<Seq<u8>>) {
    }

    fn read<S: Source>(&self, source: &mut S) -> (r: Result<u64, ReadError>) {
        let v = read_int(source, false, 0, u64::MAX as i128)?;
        Ok(v as u64)
    }
}

impl Readable for Usize {
    type Output = usize;

    open spec fn error(&self, toks: Seq<Seq<u8>>) -> Option<ReadError> {
        int_error(toks, false, 0, usize::MAX as int)
    }

    open spec fn used(&self, toks: Seq<Seq<u8>>) -> nat {
        1
    }

    open spec fn value(&self, toks: Seq<Seq<u8>>, out: usize) -> bool {
        int_of(toks[0], false) == Some(out as int)
    }

    proof fn lemma_used_fits(&self, toks: Seq<Seq<u8>>) {
    }

    fn read<S: Source>(&self, source: &mut S) -> (r: Result<usize, ReadError>) {
        let v = read_int(source, false, 0, usize::MAX as i128)?;
        Ok(v as usize)
    }
}

impl Readable for I8 {
    type Output = i8;

    open spec fn error(&self, toks: Seq<Seq<u8>>) -> Option<ReadError> {
        int_error(toks, true, i8::MIN as int, i8::MAX as int)
    }

    open spec fn used(&self, toks: Seq<Seq<u8>>) -> nat {
        1
    }

    open spec fn value(&self, toks: Seq<Seq<u8>>, out: i8) -> bool {
        int_of(toks[0], true) == Some(out as int)
    }

    proof fn lemma_used_fits(&self, toks: Seq<Seq<u8>>) {
    }

    fn read<S: Source>(&self, source: &mut S) -> (r: Result<i8, ReadError>) {
        let v = read_int(source, true, i8::MIN as i128, i8::MAX as i128)?;
        Ok(v as i8)
    }
}

impl Readable for I16 {
    type Output = i16;

    open spec fn error(&self, toks: Seq<Seq<u8>>) -> Option<ReadError> {
        int_error(toks, true, i16::MIN as int, i16::MAX as int)
    }

    open spec fn used(&self, toks: Seq<Seq<u8>>) -> nat {
        1
    }

    open spec fn value(&self, toks: Seq<Seq<u8>>, out: i16) -> bool {
        int_of(toks[0], true) == Some(out as int)
    }

    proof fn lemma_used_fits(&self, toks: Seq<Seq<u8>>) {
    }

    fn read<S: Source>(&self, source: &mut S) -> (r: Result<i16, ReadError>) {
        let v = read_int(source, true, i16::MIN as i128, i16::MAX as i128)?;
        Ok(v as i16)
    }
}

impl Readable for I32 {
    type Output = i32;

    open spec fn error(&self, toks: Seq<Seq<u8>>) -> Option<ReadError> {
        int_error(toks, true, i32::MIN as int, i32::MAX as int)
    }

    open spec fn used(&self, toks: Seq<Seq<u8>>) -> nat {
        1
    }

    open spec fn value(&self, toks: Seq<Seq<u8>>, out: i32) -> bool {
        int_of(toks[0], true) == Some(out as int)
    }

    proof fn lemma_used_fits(&self, toks: Seq<Seq<u8>>) {
    }

    fn read<S: Source>(&self, source: &mut S) -> (r: Result<i32, ReadError>) {
        let v = read_int(source, true, i32::MIN as i128, i32::MAX as i128)?;
        Ok(v as i32)
    }
}

impl Readable for I64 {
    type Output = i64;

    open spec fn error(&self, toks: Seq<Seq<u8>>) -> Option<ReadError> {
        int_error(toks, true, i64::MIN as int, i64::MAX as int)
    }

    open spec fn used(&self, toks: Seq<Seq<u8>>) -> nat {
        1
    }

    open spec fn value(&self, toks: Seq<Seq<u8>>, out: i64) -> bool {
        int_of(toks[0], true) == Some(out as int)
    }

    proof fn lemma_used_fits(&self, toks: Seq<Seq<u8>>) {
    }

    fn read<S: Source>(&self, source: &mut S) -> (r: Result<i64, ReadError>) {
        let v = read_int(source, true, i64::MIN as i128, i64::MAX as i128)?;
        Ok(v as i64)
    }
}

impl Readable for Isize {
    type Output = isize;

    open spec fn error(&self, toks: Seq<Seq<u8>>) -> Option<ReadError> {
        int_error(toks, true, isize::MIN as int, isize::MAX as int)
    }

    open spec fn used(&self, toks: Seq<Seq<u8>>) -> nat {
        1
    }

    open spec fn value(&self, toks: Seq<Seq<u8>>, out: isize) -> bool {
        int_of(toks[0], true) == Some(out as int)
    }

    proof fn lemma_used_fits(&self, toks: Seq<Seq<u8>>) {
    }

    fn read<S: Source>(&self, source: &mut S) -> (r: Result<isize, ReadError>) {
        let v = read_int(source, true, isize::MIN as i128, isize::MAX as i128)?;
        Ok(v as isize)
    }
}

} // verus!
