use vstd::prelude::*;
use vstd::utf8::{decode_utf8, valid_utf8};

use crate::token::{is_ws, lemma_single_token, tokens};

verus! {

pub open spec fn is_digit(b: u8) -> bool {
    0x30u8 <= b <= 0x39u8
}

/// One or more decimal digits.
pub open spec fn all_digits(s: Seq<u8>) -> bool {
    s.len() > 0 && forall|i: int| 0 <= i < s.len() ==> is_digit(#[trigger] s[i])
}

/// The number that a run of decimal digits denotes.
pub open spec fn digits_value(s: Seq<u8>) -> nat
    decreases s.len(),
{
    if s.len() == 0 {
        0
    } else {
        digits_value(s.drop_last()) * 10 + (s.last() - 0x30u8) as nat
    }
}

/// The integer written by `t`: decimal digits after an optional `+`, or (when `signed`) `-`.
pub open spec fn int_of(t: Seq<u8>, signed: bool) -> Option<int> {
    if t.len() > 0 && t[0] == 0x2bu8 && all_digits(t.skip(1)) {
        Some(digits_value(t.skip(1)) as int)
    } else if signed && t.len() > 0 && t[0] == 0x2du8 && all_digits(t.skip(1)) {
        Some(-(digits_value(t.skip(1)) as int))
    } else if all_digits(t) {
        Some(digits_value(t) as int)
    } else {
        None
    }
}

/// The integer written by `t`, if it lies in `lo..=hi`.
pub open spec fn int_in(t: Seq<u8>, signed: bool, lo: int, hi: int) -> Option<int> {
    match int_of(t, signed) {
        Some(v) => if lo <= v <= hi {
            Some(v)
        } else {
            None
        },
        None => None,
    }
}

proof fn lemma_digits_prefix(s: Seq<u8>, i: int)
    requires
        0 <= i <= s.len(),
    ensures
        digits_value(s.take(i)) <= digits_value(s),
    decreases s.len(),
{
    if i < s.len() {
        lemma_digits_prefix(s.drop_last(), i);
        assert(s.drop_last().take(i) =~= s.take(i));
    } else {
        assert(s.take(i) =~= s);
    }
}

/// Parses `tok` as a decimal integer in `lo..=hi`.
pub fn parse_integer(tok: &Vec<u8>, signed: bool, lo: i128, hi: i128) -> (r: Option<i128>)
    requires
        -0x1_0000_0000_0000_0000 <= lo <= 0 <= hi < 0x1_0000_0000_0000_0000,
    ensures
        r == (match int_in(tok@, signed, lo as int, hi as int) {
            Some(v) => Some(v as i128),
            None => None,
        }),
{
    let n = tok.len();
    let ghost t = tok@;
    let mut neg = false;
    let mut start: usize = 0;
    if n > 0 && tok[0] == 0x2bu8 {
        start = 1;
    } else if signed && n > 0 && tok[0] == 0x2du8 {
        neg = true;
        start = 1;
    }
    let ghost body = t.skip(start as int);
    if start == n {
        assert(!all_digits(body));
        assert(start == 0 ==> !all_digits(t));
        assert(start == 1 ==> !is_digit(t[0]) && !all_digits(t));
        return None;
    }
    let limit: u128 = if neg {
        (0 - lo) as u128
    } else {
        hi as u128
    };
    let mut acc: u128 = 0;
    let mut i = start;
    while i < n
        invariant
            start <= i <= n,
            n == tok.len(),
            t == tok@,
            body == t.skip(start as int),
            start == 0 || start == 1,
            acc <= limit,
            limit <= 0x1_0000_0000_0000_0000,
            neg ==> signed && start == 1 && t[0] == 0x2du8 && limit == -lo,
            !neg ==> limit == hi,
            !neg && start == 1 ==> t[0] == 0x2bu8,
            start == 0 ==> !neg && !(t[0] == 0x2bu8) && !(signed && t[0] == 0x2du8),
            acc == digits_value(body.take(i - start)),
            forall|j: int| 0 <= j < i - start ==> is_digit(#[trigger] body[j]),
        decreases n - i,
    {
        let b = tok[i];
        if b < 0x30u8 || b > 0x39u8 {
            proof {
                assert(body[i - start] == b);
                assert(!all_digits(body));
                if start == 1 {
                    assert(!is_digit(t[0]));
                }
                assert(t[i as int] == b);
                assert(!all_digits(t));
            }
            return None;
        }
        let ghost prev = body.take(i - start);
        acc = acc * 10 + (b - 0x30u8) as u128;
        proof {
            assert(body.take(i - start + 1).drop_last() =~= prev);
            assert(body.take(i - start + 1).last() == b);
        }
        i = i + 1;
        if acc > limit {
            proof {
                if all_digits(body) {
                    lemma_digits_prefix(body, i - start);
                }
                if start == 1 {
                    assert(!is_digit(t[0]));
                }
                assert(!all_digits(t) || start == 0);
                assert(start == 0 ==> body =~= t);
            }
            return None;
        }
    }
    proof {
        assert(body.take(n - start) =~= body);
        assert(all_digits(body));
        if start == 1 {
            assert(!is_digit(t[0]));
        }
        assert(start == 0 ==> body =~= t);
    }
    if neg {
        Some(0 - acc as i128)
    } else {
        Some(acc as i128)
    }
}

/// Relies on `String::from_utf8`: it succeeds exactly on valid UTF-8, and the text holds the
/// characters that the bytes encode.
#[verifier::external_body]
pub(crate) fn decode_text(bytes: Vec<u8>) -> (r: Option<String>)
    ensures
        r is Some <==> valid_utf8(bytes@),
        r matches Some(s) ==> s@ == decode_utf8(bytes@),
{
    String::from_utf8(bytes).ok()
}

/// Relies on `str::chars` (collected into a `Vec`): the characters of the text, in order.
#[verifier::external_body]
pub(crate) fn chars_of(s: &str) -> (r: Vec<char>)
    ensures
        r@ == s@,
{
    s.chars().collect()
}

/// The decimal text of `n`, most significant digit first, without leading zeros.
pub open spec fn decimal(n: nat) -> Seq<u8>
    decreases n,
{
    if n < 10 {
        seq![(0x30 + n) as u8]
    } else {
        decimal(n / 10).push((0x30 + n % 10) as u8)
    }
}

proof fn lemma_decimal_digits(n: nat)
    ensures
        all_digits(decimal(n)),
        digits_value(decimal(n)) == n,
    decreases n,
{
    let d = decimal(n);
    if n < 10 {
        assert(d.drop_last() =~= Seq::<u8>::empty());
        assert(digits_value(d.drop_last()) == 0);
        assert(d.last() == (0x30 + n) as u8);
    } else {
        assert(d.last() == (0x30 + n % 10) as u8);
        assert((n / 10) * 10 + n % 10 == n);
        lemma_decimal_digits(n / 10);
        assert(d.drop_last() =~= decimal(n / 10));
        assert forall|i: int| 0 <= i < d.len() implies is_digit(#[trigger] d[i]) by {
            if i < d.len() - 1 {
                assert(d[i] == decimal(n / 10)[i]);
            }
        }
    }
}

/// Writing a non-negative integer of a type's range in decimal and reading the text back, as
/// a token of that type, gives the integer again.
pub proof fn lemma_decimal_round_trip(n: nat, signed: bool, lo: int, hi: int)
    requires
        lo <= 0,
        n <= hi,
    ensures
        tokens(decimal(n)) == seq![decimal(n)],
        int_of(decimal(n), signed) == Some(n as int),
        int_in(decimal(n), signed, lo, hi) == Some(n as int),
{
    lemma_decimal_digits(n);
    let d = decimal(n);
    assert(is_digit(d[0]));
    assert forall|i: int| 0 <= i < d.len() implies !is_ws(#[trigger] d[i]) by {
        assert(is_digit(d[i]));
    }
    lemma_single_token(d);
}

} // verus!
