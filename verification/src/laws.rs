//! Laws of the grammar, proved once for every input: the canonical spelling
//! of a byte string decodes to exactly its content, the canonical spelling of
//! every signed 64-bit integer decodes back to that integer, and distinct
//! integers never share a spelling or a decoded value.
use vstd::prelude::*;

use crate::grammar::all_digits;
use crate::grammar::decimal_value;
use crate::grammar::is_digit;
use crate::grammar::is_int_body;
use crate::grammar::lemma_digits_end_at;
use crate::grammar::lemma_int_end_at;
use crate::grammar::parse_bstring;
use crate::grammar::parse_int;
use crate::grammar::spec_decode;
use crate::grammar::COLON;
use crate::grammar::DIGIT_ZERO;
use crate::grammar::END_MARK;
use crate::grammar::INT_MARK;
use crate::grammar::MINUS;
use crate::DecodeError;
use crate::SpecValue;

verus! {

/// The canonical decimal digits of a non-negative number, most significant
/// first: no leading zero except for the one digit of zero itself.
pub open spec fn dec_digits(n: nat) -> Seq<u8>
    decreases n,
{
    if n < 10 {
        seq![(DIGIT_ZERO + n) as u8]
    } else {
        dec_digits(n / 10).push((DIGIT_ZERO + n % 10) as u8)
    }
}

/// The canonical digits of an integer, a minus sign in front when negative.
pub open spec fn int_body(n: int) -> Seq<u8> {
    if n < 0 {
        seq![MINUS] + dec_digits((-n) as nat)
    } else {
        dec_digits(n as nat)
    }
}

/// The canonical bencoded spelling of an integer: `i`, its digits, `e`.
pub open spec fn int_literal(n: int) -> Seq<u8> {
    seq![INT_MARK] + int_body(n) + seq![END_MARK]
}

/// The canonical bencoded spelling of a byte string: the decimal digits of
/// its length, a colon, then the content itself.
pub open spec fn string_literal(content: Seq<u8>) -> Seq<u8> {
    dec_digits(content.len()) + seq![COLON] + content
}

/// The canonical digits of `n` are digits, denote `n`, and never start with a
/// superfluous zero.
pub proof fn lemma_dec_digits(n: nat)
    ensures
        dec_digits(n).len() >= 1,
        all_digits(dec_digits(n)),
        decimal_value(dec_digits(n)) == n,
        n >= 1 ==> dec_digits(n)[0] != DIGIT_ZERO,
        n < 10 <==> dec_digits(n).len() == 1,
    decreases n,
{
    if n < 10 {
        let one = seq![(DIGIT_ZERO + n) as u8];
        assert(one.drop_last() =~= Seq::<u8>::empty());
        assert(decimal_value(Seq::<u8>::empty()) == 0);
        assert(decimal_value(one) == n);
    } else {
        lemma_dec_digits(n / 10);
        let head = dec_digits(n / 10);
        let d = (DIGIT_ZERO + n % 10) as u8;
        assert(head.push(d).drop_last() =~= head);
        assert(head.push(d).last() == d);
        assert(decimal_value(head.push(d)) == decimal_value(head) * 10 + (n % 10));
        vstd::arithmetic::div_mod::lemma_fundamental_div_mod(n as int, 10);
        assert(dec_digits(n)[0] == head[0]);
        assert forall|i: int| 0 <= i < head.push(d).len() implies is_digit(
            #[trigger] head.push(d)[i],
        ) by {
            if i < head.len() {
                assert(head.push(d)[i] == head[i]);
            }
        }
    }
}

/// Law: decoding the canonical spelling of any byte string yields exactly the
/// content, whatever its length.
pub proof fn lemma_string_round_trip(content: Seq<u8>)
    ensures
        spec_decode(string_literal(content)) == Ok::<SpecValue, DecodeError>(
            SpecValue::Bytes(content),
        ),
{
    let digits = dec_digits(content.len());
    let s = string_literal(content);
    lemma_dec_digits(content.len());
    let dl = digits.len() as int;
    assert(s.len() == dl + 1 + content.len());
    assert forall|j: int| 0 <= j < dl implies s[j] == digits[j] && is_digit(#[trigger] s[j]) by {
        assert(s[j] == digits[j]);
    }
    assert(s[dl] == COLON);
    assert(!is_digit(COLON));
    lemma_digits_end_at(s, 0, dl);
    assert(s.subrange(0, dl) =~= digits);
    assert(s.subrange(dl + 1, dl + 1 + content.len()) =~= content);
    assert(parse_bstring(s, 0) == Ok::<(Seq<u8>, int), DecodeError>((content, s.len() as int)));
}

/// Law: decoding the canonical spelling of any signed 64-bit integer yields
/// exactly that integer.
pub proof fn lemma_int_round_trip(n: int)
    requires
        i64::MIN <= n <= i64::MAX,
    ensures
        spec_decode(int_literal(n)) == Ok::<SpecValue, DecodeError>(SpecValue::Int(n)),
{
    let body = int_body(n);
    let s = int_literal(n);
    let mag: nat = if n < 0 {
        (-n) as nat
    } else {
        n as nat
    };
    lemma_dec_digits(mag);
    let digits = dec_digits(mag);
    let bl = body.len() as int;
    assert(s.len() == bl + 2);
    assert(s[0] == INT_MARK);
    assert(s[bl + 1] == END_MARK);
    if n < 0 {
        assert(body[0] == MINUS);
        assert(body.skip(1) =~= digits);
    }
    assert forall|j: int| 1 <= j < bl + 1 implies #[trigger] s[j] != END_MARK by {
        assert(s[j] == body[j - 1]);
        if n < 0 {
            if j == 1 {
                assert(s[j] == MINUS);
            } else {
                assert(body[j - 1] == digits[j - 2]);
                assert(is_digit(digits[j - 2]));
            }
        } else {
            assert(is_digit(body[j - 1]));
        }
    }
    lemma_int_end_at(s, 1, bl + 1);
    assert(s.subrange(1, bl + 1) =~= body);
    if n < 0 {
        assert(body.len() > 1 ==> body[0] != DIGIT_ZERO);
        assert(body[1] == digits[0]);
        assert(body[1] != DIGIT_ZERO);
        assert(decimal_value(body.skip(1)) == mag);
        assert(is_int_body(body));
    } else {
        assert(is_digit(body[0]));
        assert(body[0] != MINUS);
        if body.len() > 1 {
            assert(mag >= 10);
            assert(body[0] != DIGIT_ZERO);
        }
        assert(is_int_body(body));
    }
    assert(parse_int(s, 0) == Ok::<(int, int), DecodeError>((n, bl + 2)));
    assert(!is_digit(INT_MARK));
}

/// Law: distinct signed 64-bit integers have distinct canonical spellings,
/// and those spellings decode to distinct values.
pub proof fn lemma_int_spelling_injective(a: int, b: int)
    requires
        i64::MIN <= a <= i64::MAX,
        i64::MIN <= b <= i64::MAX,
        a != b,
    ensures
        int_literal(a) != int_literal(b),
        spec_decode(int_literal(a)) != spec_decode(int_literal(b)),
{
    lemma_int_round_trip(a);
    lemma_int_round_trip(b);
}

} // verus!
