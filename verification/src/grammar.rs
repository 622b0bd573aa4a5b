//! The bencoding grammar, stated as a specification-level parser over a byte
//! sequence. `parse_value` reads exactly one value beginning at a position and
//! reports the value together with the position just past it, or the first
//! fault found. The executable decoder is proved equal to this parser.
use vstd::prelude::*;

use crate::DecodeError;
use crate::SpecValue;

verus! {

/// ASCII `0`.
pub const DIGIT_ZERO: u8 = 48;
/// ASCII `9`.
pub const DIGIT_NINE: u8 = 57;
/// ASCII `:`.
pub const COLON: u8 = 58;
/// ASCII `-`.
pub const MINUS: u8 = 45;
/// ASCII `i`.
pub const INT_MARK: u8 = 105;
/// ASCII `l`.
pub const LIST_MARK: u8 = 108;
/// ASCII `d`.
pub const DICT_MARK: u8 = 100;
/// ASCII `e`.
pub const END_MARK: u8 = 101;

pub open spec fn is_digit(b: u8) -> bool {
    DIGIT_ZERO <= b && b <= DIGIT_NINE
}

pub open spec fn digit_value(b: u8) -> int {
    b - DIGIT_ZERO
}

/// The number that a run of decimal digits denotes, most significant first.
pub open spec fn decimal_value(digits: Seq<u8>) -> int
    decreases digits.len(),
{
    if digits.len() == 0 {
        0
    } else {
        decimal_value(digits.drop_last()) * 10 + digit_value(digits.last())
    }
}

/// The first position at or after `pos` holding a non-digit, or the end of input.
pub open spec fn digits_end(s: Seq<u8>, pos: int) -> int
    decreases s.len() - pos,
{
    if pos < 0 || pos >= s.len() || !is_digit(s[pos]) {
        pos
    } else {
        digits_end(s, pos + 1)
    }
}


/// The first position at or after `pos` holding the terminator `e`, or the end of input.
pub open spec fn int_end(s: Seq<u8>, pos: int) -> int
    decreases s.len() - pos,
{
    if pos < 0 || pos >= s.len() {
        s.len() as int
    } else if s[pos] == END_MARK {
        pos
    } else {
        int_end(s, pos + 1)
    }
}

pub open spec fn all_digits(b: Seq<u8>) -> bool {
    forall|i: int| 0 <= i < b.len() ==> is_digit(#[trigger] b[i])
}

/// An integer body is one or more digits, at most once preceded by a minus sign.
pub open spec fn is_int_body(b: Seq<u8>) -> bool {
    if b.len() > 0 && b[0] == MINUS {
        b.len() >= 2 && all_digits(b.skip(1))
    } else {
        b.len() >= 1 && all_digits(b)
    }
}

/// The signed number an integer body denotes.
pub open spec fn int_body_value(b: Seq<u8>) -> int {
    if b.len() > 0 && b[0] == MINUS {
        -decimal_value(b.skip(1))
    } else {
        decimal_value(b)
    }
}

/// The canonical-form faults of an integer body, in the order they are checked.
pub open spec fn int_format_error(b: Seq<u8>) -> Option<DecodeError> {
    if b.len() == 0 {
        Some(DecodeError::EmptyInteger)
    } else if b.len() > 1 && b[0] == DIGIT_ZERO {
        Some(DecodeError::LeadingZero)
    } else if b.len() > 1 && b[0] == MINUS && b[1] == DIGIT_ZERO {
        Some(DecodeError::NegativeZero)
    } else {
        None
    }
}

/// Parse the byte-string production at `pos`: a decimal length of one or more
/// digits, a colon, then exactly that many bytes of raw content.
pub open spec fn parse_bstring(s: Seq<u8>, pos: int) -> Result<(Seq<u8>, int), DecodeError> {
    let de = digits_end(s, pos);
    let n = decimal_value(s.subrange(pos, de));
    if de == pos || de >= s.len() || s[de] != COLON {
        Err(DecodeError::MissingColon)
    } else if de + 1 + n > s.len() {
        Err(DecodeError::TruncatedString)
    } else {
        Ok((s.subrange(de + 1, de + 1 + n), de + 1 + n))
    }
}

/// Parse the integer production, with `pos` at the leading `i`: everything up
/// to the terminating `e` is the body, validated and read as a signed 64-bit
/// number in canonical form.
pub open spec fn parse_int(s: Seq<u8>, pos: int) -> Result<(int, int), DecodeError> {
    let end = int_end(s, pos + 1);
    if end >= s.len() {
        Err(DecodeError::UnterminatedInteger)
    } else {
        let body = s.subrange(pos + 1, end);
        match int_format_error(body) {
            Some(e) => Err(e),
            None => if !is_int_body(body) || int_body_value(body) < i64::MIN
                || int_body_value(body) > i64::MAX {
                Err(DecodeError::NotANumber)
            } else {
                Ok((int_body_value(body), end + 1))
            },
        }
    }
}

/// Parse exactly one value at `pos`, dispatching on the byte found there; the
/// result carries the position just past the value. Exhausted input where a
/// value is expected is an unrecognized value.
pub open spec fn parse_value(s: Seq<u8>, pos: int) -> Result<(SpecValue, int), DecodeError>
    decreases s.len() - pos, 0int,
{
    if pos < 0 || pos >= s.len() {
        Err(DecodeError::UnrecognizedValue)
    } else if is_digit(s[pos]) {
        match parse_bstring(s, pos) {
            Ok((bytes, next)) => Ok((SpecValue::Bytes(bytes), next)),
            Err(e) => Err(e),
        }
    } else if s[pos] == INT_MARK {
        match parse_int(s, pos) {
            Ok((n, next)) => Ok((SpecValue::Int(n), next)),
            Err(e) => Err(e),
        }
    } else if s[pos] == LIST_MARK {
        match parse_list_items(s, pos + 1, Seq::empty()) {
            Ok((elems, next)) => Ok((SpecValue::List(elems), next)),
            Err(e) => Err(e),
        }
    } else if s[pos] == DICT_MARK {
        match parse_dict_items(s, pos + 1, Map::empty()) {
            Ok((entries, next)) => Ok((SpecValue::Dict(entries), next)),
            Err(e) => Err(e),
        }
    } else {
        Err(DecodeError::UnrecognizedValue)
    }
}

/// Parse list elements from `pos` up to the closing `e`; `acc` holds the
/// elements already read, in order.
pub open spec fn parse_list_items(s: Seq<u8>, pos: int, acc: Seq<SpecValue>) -> Result<
    (Seq<SpecValue>, int),
    DecodeError,
>
    decreases s.len() - pos, 1int,
{
    if pos < 0 || pos >= s.len() {
        Err(DecodeError::UnrecognizedValue)
    } else if s[pos] == END_MARK {
        Ok((acc, pos + 1))
    } else {
        match parse_value(s, pos) {
            // A parsed value spans at least one byte; the bound on `next`
            // carries that to the termination check.
            Ok((v, next)) => if pos < next <= s.len() {
                parse_list_items(s, next, acc.push(v))
            } else {
                Err(DecodeError::UnrecognizedValue)
            },
            Err(e) => Err(e),
        }
    }
}

/// Parse dictionary entries from `pos` up to the closing `e`: each entry is a
/// byte-string key that must be valid UTF-8, then one value; a later entry for
/// a key already seen replaces it.
pub open spec fn parse_dict_items(
    s: Seq<u8>,
    pos: int,
    acc: Map<Seq<char>, SpecValue>,
) -> Result<(Map<Seq<char>, SpecValue>, int), DecodeError>
    decreases s.len() - pos, 1int,
{
    if pos < 0 || pos >= s.len() {
        Err(DecodeError::UnterminatedDictionary)
    } else if s[pos] == END_MARK {
        Ok((acc, pos + 1))
    } else {
        match parse_bstring(s, pos) {
            Err(e) => Err(e),
            Ok((key_bytes, key_next)) => if !vstd::utf8::valid_utf8(key_bytes) {
                Err(DecodeError::InvalidKey)
            } else if pos < key_next <= s.len() {
                match parse_value(s, key_next) {
                    Err(e) => Err(e),
                    // A parsed value spans at least one byte; the bound on
                    // `next` carries that to the termination check.
                    Ok((v, next)) => if pos < next <= s.len() {
                        parse_dict_items(s, next, acc.insert(vstd::utf8::decode_utf8(key_bytes), v))
                    } else {
                        Err(DecodeError::UnterminatedDictionary)
                    },
                }
            } else {
                Err(DecodeError::UnterminatedDictionary)
            },
        }
    }
}

/// What `decode` returns on a buffer: the one value spanning a prefix of it,
/// or the first fault of a left-to-right scan; an empty buffer is a fault of
/// its own.
pub open spec fn spec_decode(s: Seq<u8>) -> Result<SpecValue, DecodeError> {
    if s.len() == 0 {
        Err(DecodeError::EmptyInput)
    } else {
        match parse_value(s, 0) {
            Ok((v, _)) => Ok(v),
            Err(e) => Err(e),
        }
    }
}


/// `digits_end` lands exactly on the boundary of a run of digits.
pub proof fn lemma_digits_end_at(s: Seq<u8>, pos: int, q: int)
    requires
        0 <= pos <= q <= s.len(),
        forall|j: int| pos <= j < q ==> is_digit(#[trigger] s[j]),
        q == s.len() || !is_digit(s[q]),
    ensures
        digits_end(s, pos) == q,
    decreases q - pos,
{
    if pos < q {
        lemma_digits_end_at(s, pos + 1, q);
    }
}

/// `int_end` lands exactly on the first terminator.
pub proof fn lemma_int_end_at(s: Seq<u8>, pos: int, q: int)
    requires
        0 <= pos <= q <= s.len(),
        forall|j: int| pos <= j < q ==> s[j] != END_MARK,
        q == s.len() || s[q] == END_MARK,
    ensures
        int_end(s, pos) == q,
    decreases q - pos,
{
    if pos < q {
        lemma_int_end_at(s, pos + 1, q);
    }
}

/// Reading one more digit multiplies the value so far by ten and adds it.
pub proof fn lemma_decimal_value_step(s: Seq<u8>, pos: int, i: int)
    requires
        0 <= pos <= i < s.len(),
    ensures
        decimal_value(s.subrange(pos, i + 1)) == decimal_value(s.subrange(pos, i)) * 10
            + digit_value(s[i]),
{
    assert(s.subrange(pos, i + 1).drop_last() =~= s.subrange(pos, i));
    assert(s.subrange(pos, i + 1).last() == s[i]);
}

} // verus!
