//! The executable decoder: a recursive-descent parser over a byte buffer,
//! proved to return exactly what the grammar of [`crate::grammar`] says.
use vstd::prelude::*;

use crate::grammar::all_digits;
use crate::grammar::decimal_value;
use crate::grammar::int_body_value;
use crate::grammar::int_format_error;
use crate::grammar::is_digit;
use crate::grammar::is_int_body;
use crate::grammar::lemma_decimal_value_step;
use crate::grammar::lemma_digits_end_at;
use crate::grammar::lemma_int_end_at;
use crate::grammar::parse_bstring;
use crate::grammar::parse_dict_items;
use crate::grammar::parse_int;
use crate::grammar::parse_list_items;
use crate::grammar::parse_value;
use crate::grammar::spec_decode;
use crate::grammar::COLON;
use crate::grammar::DICT_MARK;
use crate::grammar::DIGIT_NINE;
use crate::grammar::DIGIT_ZERO;
use crate::grammar::END_MARK;
use crate::grammar::INT_MARK;
use crate::grammar::LIST_MARK;
use crate::grammar::MINUS;
use crate::BencodingResult;
use crate::DecodeError;
use crate::SpecValue;
use crate::entries_view;
use crate::lemma_entries_view_index;
use crate::lemma_entries_view_update;
use crate::lemma_pairs_to_map_push;
use crate::lemma_pairs_to_map_update;
use crate::pairs_to_map;
use crate::seq_view;
use crate::unique_keys;

verus! {

/// Decode one bencoded value from the start of `input`.
///
/// The value spans a prefix of the buffer; bytes after the first complete
/// value are left unexamined. The result is exactly what the grammar's
/// specification-level parser returns on the same bytes: the same value on
/// success, the same first fault on failure.
pub fn decode(input: Vec<u8>) -> (r: Result<BencodingResult, DecodeError>)
    ensures
        ({
            let sr = spec_decode(input@);
            match r {
                Ok(v) => sr == Ok::<SpecValue, DecodeError>(v@),
                Err(e) => sr == Err::<SpecValue, DecodeError>(e),
            }
        }),
{
    if input.len() == 0 {
        return Err(DecodeError::EmptyInput);
    }
    match decode_value(&input, 0) {
        Ok((v, _)) => Ok(v),
        Err(e) => Err(e),
    }
}

/// Decode exactly one value at `pos` by dispatching on the byte found there.
fn decode_value(input: &Vec<u8>, pos: usize) -> (r: Result<(BencodingResult, usize), DecodeError>)
    requires
        pos <= input@.len(),
    ensures
        ({
            let sr = parse_value(input@, pos as int);
            match r {
                Ok((v, next)) => sr == Ok::<(SpecValue, int), DecodeError>((v@, next as int))
                    && pos < next <= input@.len(),
                Err(e) => sr == Err::<(SpecValue, int), DecodeError>(e),
            }
        }),
    decreases input@.len() - pos, 0int,
{
    let len = input.len();
    if pos >= len {
        return Err(DecodeError::UnrecognizedValue);
    }
    let b = input[pos];
    if b >= DIGIT_ZERO && b <= DIGIT_NINE {
        match decode_string(input, pos) {
            Ok((bytes, next)) => Ok((BencodingResult::ByteString(bytes), next)),
            Err(e) => Err(e),
        }
    } else if b == INT_MARK {
        match decode_int(input, pos) {
            Ok((n, next)) => Ok((BencodingResult::Int(n), next)),
            Err(e) => Err(e),
        }
    } else if b == LIST_MARK {
        match decode_list(input, pos + 1) {
            Ok((elems, next)) => Ok((BencodingResult::List(elems), next)),
            Err(e) => Err(e),
        }
    } else if b == DICT_MARK {
        match decode_map(input, pos + 1) {
            Ok((entries, next)) => Ok((BencodingResult::Dict(entries), next)),
            Err(e) => Err(e),
        }
    } else {
        Err(DecodeError::UnrecognizedValue)
    }
}

/// Decode the byte-string production at `pos`: a decimal length of one or
/// more digits, a colon, then exactly that many bytes of raw content.
fn decode_string(input: &Vec<u8>, pos: usize) -> (r: Result<(Vec<u8>, usize), DecodeError>)
    requires
        pos < input@.len(),
    ensures
        ({
            let sr = parse_bstring(input@, pos as int);
            match r {
                Ok((bytes, next)) => sr == Ok::<(Seq<u8>, int), DecodeError>(
                    (bytes@, next as int),
                ) && pos < next <= input@.len(),
                Err(e) => sr == Err::<(Seq<u8>, int), DecodeError>(e),
            }
        }),
{
    let ghost s = input@;
    let len = input.len();
    let mut i = pos;
    // The declared length, accumulated digit by digit; `big` notes a length
    // beyond the machine's address range, which no buffer can satisfy.
    let mut count: usize = 0;
    let mut big = false;
    while i < len && input[i] >= DIGIT_ZERO && input[i] <= DIGIT_NINE
        invariant
            pos <= i <= len,
            s == input@,
            len == s.len(),
            forall|j: int| pos <= j < i ==> is_digit(#[trigger] s[j]),
            !big ==> count == decimal_value(s.subrange(pos as int, i as int)),
            big ==> decimal_value(s.subrange(pos as int, i as int)) > usize::MAX,
        decreases len - i,
    {
        let d = input[i] - DIGIT_ZERO;
        proof {
            lemma_decimal_value_step(s, pos as int, i as int);
        }
        if !big {
            match count.checked_mul(10) {
                Some(c10) => match c10.checked_add(d as usize) {
                    Some(c) => {
                        count = c;
                    },
                    None => {
                        big = true;
                    },
                },
                None => {
                    big = true;
                },
            }
        }
        i = i + 1;
    }
    proof {
        lemma_digits_end_at(s, pos as int, i as int);
    }
    if i == pos || i >= len {
        return Err(DecodeError::MissingColon);
    }
    if input[i] != COLON {
        return Err(DecodeError::MissingColon);
    }
    let start = i + 1;
    if big || count > len - start {
        return Err(DecodeError::TruncatedString);
    }
    let mut bytes: Vec<u8> = Vec::new();
    let mut j = start;
    while j < start + count
        invariant
            start <= j <= start + count <= len,
            s == input@,
            len == s.len(),
            bytes@ == s.subrange(start as int, j as int),
        decreases start + count - j,
    {
        bytes.push(input[j]);
        proof {
            assert(s.subrange(start as int, j as int + 1) =~= s.subrange(
                start as int,
                j as int,
            ).push(s[j as int]));
        }
        j = j + 1;
    }
    Ok((bytes, start + count))
}

/// Decode the integer production, with `pos` at the leading `i`: everything
/// up to the terminating `e` is the body, validated and read as a signed
/// 64-bit number in canonical form.
fn decode_int(input: &Vec<u8>, pos: usize) -> (r: Result<(i64, usize), DecodeError>)
    requires
        pos < input@.len(),
        input@[pos as int] == INT_MARK,
    ensures
        ({
            let sr = parse_int(input@, pos as int);
            match r {
                Ok((n, next)) => sr == Ok::<(int, int), DecodeError>((n as int, next as int))
                    && pos < next <= input@.len(),
                Err(e) => sr == Err::<(int, int), DecodeError>(e),
            }
        }),
{
    let ghost s = input@;
    let len = input.len();
    let mut i = pos + 1;
    let mut body: Vec<u8> = Vec::new();
    while i < len && input[i] != END_MARK
        invariant
            pos + 1 <= i <= len,
            s == input@,
            len == s.len(),
            body@ == s.subrange(pos as int + 1, i as int),
            forall|j: int| pos + 1 <= j < i ==> s[j] != END_MARK,
        decreases len - i,
    {
        let b = input[i];
        body.push(b);
        proof {
            assert(s.subrange(pos as int + 1, i as int + 1) =~= s.subrange(
                pos as int + 1,
                i as int,
            ).push(s[i as int]));
        }
        i = i + 1;
    }
    proof {
        lemma_int_end_at(s, pos as int + 1, i as int);
    }
    if i >= len {
        return Err(DecodeError::UnterminatedInteger);
    }
    if let Some(e) = is_valid_format(&body) {
        return Err(e);
    }
    match parse_i64(&body) {
        Some(n) => Ok((n, i + 1)),
        None => Err(DecodeError::NotANumber),
    }
}

/// The canonical-form check on an integer body, reporting the first fault in
/// the order the grammar checks them.
fn is_valid_format(body: &Vec<u8>) -> (r: Option<DecodeError>)
    ensures
        r == int_format_error(body@),
{
    if body.len() == 0 {
        Some(DecodeError::EmptyInteger)
    } else if body.len() > 1 && body[0] == DIGIT_ZERO {
        Some(DecodeError::LeadingZero)
    } else if body.len() > 1 && body[0] == MINUS && body[1] == DIGIT_ZERO {
        Some(DecodeError::NegativeZero)
    } else {
        None
    }
}

/// Read an integer body as a signed 64-bit number: `None` exactly when the
/// body has stray characters or the value falls outside the 64-bit range.
fn parse_i64(body: &Vec<u8>) -> (r: Option<i64>)
    requires
        body@.len() >= 1,
    ensures
        r is Some <==> is_int_body(body@) && i64::MIN <= int_body_value(body@) <= i64::MAX,
        r matches Some(n) ==> n as int == int_body_value(body@),
{
    let ghost bs = body@;
    let blen = body.len();
    let neg = body[0] == MINUS;
    let start: usize = if neg {
        1
    } else {
        0
    };
    if blen == start {
        // a lone minus sign has no digits
        return None;
    }
    // The magnitude, accumulated digit by digit; `big` notes a magnitude
    // beyond u64, which lies outside the signed 64-bit range either way.
    let mut mag: u64 = 0;
    let mut big = false;
    let mut j = start;
    while j < blen
        invariant
            start <= j <= blen,
            start <= 1,
            bs == body@,
            blen == bs.len(),
            neg <==> bs[0] == MINUS,
            neg ==> start == 1,
            !neg ==> start == 0,
            forall|t: int| start <= t < j ==> is_digit(#[trigger] bs[t]),
            !big ==> mag == decimal_value(bs.subrange(start as int, j as int)),
            big ==> decimal_value(bs.subrange(start as int, j as int)) > u64::MAX,
        decreases blen - j,
    {
        let b = body[j];
        if b < DIGIT_ZERO || b > DIGIT_NINE {
            proof {
                if bs[0] == MINUS {
                    assert(bs.skip(1)[j - 1] == bs[j as int]);
                }
                assert(!is_int_body(bs));
            }
            return None;
        }
        proof {
            lemma_decimal_value_step(bs, start as int, j as int);
        }
        if !big {
            match mag.checked_mul(10) {
                Some(m10) => match m10.checked_add((b - DIGIT_ZERO) as u64) {
                    Some(m) => {
                        mag = m;
                    },
                    None => {
                        big = true;
                    },
                },
                None => {
                    big = true;
                },
            }
        }
        j = j + 1;
    }
    proof {
        assert(bs.subrange(start as int, blen as int) =~= bs.skip(start as int));
        assert forall|t: int| 0 <= t < bs.skip(start as int).len() implies is_digit(
            #[trigger] bs.skip(start as int)[t],
        ) by {
            assert(bs.skip(start as int)[t] == bs[t + start]);
        }
        assert(all_digits(bs.skip(start as int)));
        if !neg {
            assert(bs.skip(0) =~= bs);
        }
        assert(is_int_body(bs));
    }
    if big {
        return None;
    }
    if neg {
        if mag > 9223372036854775808u64 {
            // beyond the magnitude of the smallest signed 64-bit number
            return None;
        }
        if mag == 9223372036854775808u64 {
            return Some(i64::MIN);
        }
        Some(-(mag as i64))
    } else {
        if mag > 9223372036854775807u64 {
            // beyond the largest signed 64-bit number
            return None;
        }
        Some(mag as i64)
    }
}

/// Decode list elements from `pos` (just past the opening `l`) up to the
/// closing `e`, in order.
fn decode_list(input: &Vec<u8>, pos: usize) -> (r: Result<
    (Vec<BencodingResult>, usize),
    DecodeError,
>)
    requires
        pos <= input@.len(),
    ensures
        ({
            let sr = parse_list_items(input@, pos as int, Seq::empty());
            match r {
                Ok((elems, next)) => sr == Ok::<(Seq<SpecValue>, int), DecodeError>(
                    (seq_view(elems@), next as int),
                ) && pos < next <= input@.len(),
                Err(e) => sr == Err::<(Seq<SpecValue>, int), DecodeError>(e),
            }
        }),
    decreases input@.len() - pos, 1int,
{
    let ghost s = input@;
    let len = input.len();
    let mut elems: Vec<BencodingResult> = Vec::new();
    let mut cur = pos;
    loop
        invariant
            pos <= cur <= len,
            s == input@,
            len == s.len(),
            parse_list_items(s, pos as int, Seq::empty()) == parse_list_items(
                s,
                cur as int,
                seq_view(elems@),
            ),
        decreases s.len() - cur,
    {
        if cur >= len {
            return Err(DecodeError::UnrecognizedValue);
        }
        if input[cur] == END_MARK {
            return Ok((elems, cur + 1));
        }
        match decode_value(input, cur) {
            Err(e) => {
                return Err(e);
            },
            Ok((v, next)) => {
                proof {
                    assert(elems@.push(v).drop_last() =~= elems@);
                }
                elems.push(v);
                cur = next;
            },
        }
    }
}

/// Decode dictionary entries from `pos` (just past the opening `d`) up to the
/// closing `e`: each entry is a byte-string key that must be valid UTF-8,
/// then one value; a later entry for a key already present replaces it.
fn decode_map(input: &Vec<u8>, pos: usize) -> (r: Result<
    (Vec<(String, BencodingResult)>, usize),
    DecodeError,
>)
    requires
        pos <= input@.len(),
    ensures
        ({
            let sr = parse_dict_items(input@, pos as int, Map::empty());
            match r {
                Ok((entries, next)) => sr == Ok::<(Map<Seq<char>, SpecValue>, int), DecodeError>(
                    (pairs_to_map(entries_view(entries@)), next as int),
                ) && pos < next <= input@.len() && unique_keys(entries_view(entries@)),
                Err(e) => sr == Err::<(Map<Seq<char>, SpecValue>, int), DecodeError>(e),
            }
        }),
    decreases input@.len() - pos, 1int,
{
    let ghost s = input@;
    let len = input.len();
    let mut entries: Vec<(String, BencodingResult)> = Vec::new();
    let mut cur = pos;
    loop
        invariant
            pos <= cur <= len,
            s == input@,
            len == s.len(),
            unique_keys(entries_view(entries@)),
            parse_dict_items(s, pos as int, Map::empty()) == parse_dict_items(
                s,
                cur as int,
                pairs_to_map(entries_view(entries@)),
            ),
        decreases s.len() - cur,
    {
        if cur >= len {
            return Err(DecodeError::UnterminatedDictionary);
        }
        if input[cur] == END_MARK {
            return Ok((entries, cur + 1));
        }
        let (key_bytes, key_next) = match decode_string(input, cur) {
            Ok(p) => p,
            Err(e) => {
                return Err(e);
            },
        };
        let ghost kbv = key_bytes@;
        let key = match bytes_to_string(key_bytes) {
            Some(k) => k,
            None => {
                return Err(DecodeError::InvalidKey);
            },
        };
        let (val, next) = match decode_value(input, key_next) {
            Ok(p) => p,
            Err(e) => {
                return Err(e);
            },
        };
        let ghost acc = pairs_to_map(entries_view(entries@));
        proof {
            assert(parse_dict_items(s, cur as int, acc) == parse_dict_items(
                s,
                next as int,
                acc.insert(key@, val@),
            ));
        }
        // Last binding wins: replace an entry already holding this key, if any.
        let elen = entries.len();
        let mut idx: usize = 0;
        let mut found: Option<usize> = None;
        while idx < elen
            invariant
                idx <= elen,
                elen == entries@.len(),
                match found {
                    Some(fi) => fi < elen && entries@[fi as int].0@ == key@,
                    None => forall|t: int| 0 <= t < idx ==> entries@[t].0@ != key@,
                },
            decreases elen - idx,
        {
            if str_eq(&entries[idx].0, &key) {
                found = Some(idx);
            }
            idx = idx + 1;
        }
        proof {
            lemma_entries_view_index(entries@);
        }
        let ghost pre = entries@;
        match found {
            Some(fi) => {
                proof {
                    lemma_entries_view_update(entries@, fi as int, (key, val));
                    lemma_pairs_to_map_update(
                        entries_view(entries@),
                        fi as int,
                        (key@, val@),
                    );
                }
                entries[fi] = (key, val);
                proof {
                    lemma_entries_view_index(entries@);
                    let ov = entries_view(pre);
                    let vv = entries_view(entries@);
                    // the update leaves every key in place: the replaced
                    // entry's key equals the key it held
                    assert forall|i: int, j: int| 0 <= i < j < vv.len() implies (#[trigger] vv[i]).0
                        != (#[trigger] vv[j]).0 by {
                        assert(ov[fi as int].0 == key@);
                        assert(vv[i].0 == ov[i].0);
                        assert(vv[j].0 == ov[j].0);
                        assert(ov[i].0 != ov[j].0);
                    }
                }
            },
            None => {
                proof {
                    lemma_pairs_to_map_push(entries_view(entries@), (key@, val@));
                    assert(entries@.push((key, val)).drop_last() =~= entries@);
                }
                entries.push((key, val));
                proof {
                    lemma_entries_view_index(entries@);
                    let ov = entries_view(pre);
                    let vv = entries_view(entries@);
                    // the new key differs from every key already present
                    assert forall|i: int, j: int| 0 <= i < j < vv.len() implies (#[trigger] vv[i]).0
                        != (#[trigger] vv[j]).0 by {
                        assert(vv[i].0 == pre[i].0@);
                        if j == vv.len() - 1 {
                            assert(vv[j].0 == key@);
                            assert(pre[i].0@ != key@);
                        } else {
                            assert(vv[j].0 == pre[j].0@);
                            assert(ov[i].0 != ov[j].0);
                        }
                    }
                }
            },
        }
        cur = next;
    }
}

/// Whether two strings hold the same characters: equality of the UTF-8 bytes
/// is equality of the character sequences, since a character sequence has
/// exactly one UTF-8 encoding.
fn str_eq(a: &String, b: &String) -> (r: bool)
    ensures
        r == (a@ == b@),
{
    proof {
        vstd::utf8::encode_utf8_decode_utf8(a@);
        vstd::utf8::encode_utf8_decode_utf8(b@);
    }
    let ab: &[u8] = a.as_str().as_bytes();
    let bb: &[u8] = b.as_str().as_bytes();
    if ab.len() != bb.len() {
        return false;
    }
    let n = ab.len();
    let mut i: usize = 0;
    while i < n
        invariant
            i <= n,
            n == ab@.len(),
            n == bb@.len(),
            ab@ == vstd::utf8::encode_utf8(a@),
            bb@ == vstd::utf8::encode_utf8(b@),
            forall|j: int| 0 <= j < i ==> ab@[j] == bb@[j],
        decreases n - i,
    {
        if ab[i] != bb[i] {
            return false;
        }
        i = i + 1;
    }
    proof {
        assert(ab@ =~= bb@);
    }
    true
}

/// Relies on `String::from_utf8`: it succeeds exactly on valid UTF-8 input,
/// and the characters of the string it returns are the UTF-8 decoding of the
/// bytes, as `vstd::utf8` defines it.
#[verifier::external_body]
fn bytes_to_string(bytes: Vec<u8>) -> (r: Option<String>)
    ensures
        r is Some <==> vstd::utf8::valid_utf8(bytes@),
        r matches Some(s) ==> s@ == vstd::utf8::decode_utf8(bytes@),
{
    match String::from_utf8(bytes) {
        Ok(s) => Some(s),
        Err(_) => None,
    }
}

} // verus!
