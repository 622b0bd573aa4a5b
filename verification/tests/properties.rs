use bencoding::decoder::decode;
use bencoding::BencodingResult;
use bencoding::DecodeError;

fn bytes(string: &str) -> Vec<u8> {
    string.bytes().collect::<Vec<u8>>()
}

#[test]
fn empty_input() {
    assert_eq!(decode(Vec::new()), Err(DecodeError::EmptyInput));
}

#[test]
fn unrecognized_value() {
    assert_eq!(decode(bytes("x")), Err(DecodeError::UnrecognizedValue));
    assert_eq!(decode(bytes(":ab")), Err(DecodeError::UnrecognizedValue));
}

#[test]
fn missing_colon() {
    assert_eq!(decode(bytes("4spam")), Err(DecodeError::MissingColon));
    assert_eq!(decode(bytes("41")), Err(DecodeError::MissingColon));
}

#[test]
fn empty_byte_string() {
    assert_eq!(decode(bytes("0:")), Ok(BencodingResult::ByteString(vec![])));
}

#[test]
fn multi_digit_length_round_trip() {
    let content = "abcdefghijklmnopqrstuvwxyz";
    let mut input = bytes("26:");
    input.extend_from_slice(content.as_bytes());
    assert_eq!(decode(input), Ok(BencodingResult::ByteString(bytes(content))));
}

#[test]
fn content_may_start_with_digits() {
    assert_eq!(decode(bytes("2:12")), Ok(BencodingResult::ByteString(bytes("12"))));
}

#[test]
fn huge_declared_length_is_truncated() {
    assert_eq!(decode(bytes("99999999999999999999:x")), Err(DecodeError::TruncatedString));
}

#[test]
fn int_boundaries() {
    assert_eq!(
        decode(bytes("i9223372036854775807e")),
        Ok(BencodingResult::Int(9223372036854775807))
    );
    assert_eq!(
        decode(bytes("i-9223372036854775808e")),
        Ok(BencodingResult::Int(-9223372036854775808))
    );
    assert_eq!(decode(bytes("i9223372036854775808e")), Err(DecodeError::NotANumber));
    assert_eq!(decode(bytes("i-9223372036854775809e")), Err(DecodeError::NotANumber));
    assert_eq!(decode(bytes("i99999999999999999999999999e")), Err(DecodeError::NotANumber));
}

#[test]
fn trailing_bytes_are_left_alone() {
    assert_eq!(decode(bytes("i7etrailing")), Ok(BencodingResult::Int(7)));
    assert_eq!(decode(bytes("1:ab")), Ok(BencodingResult::ByteString(bytes("a"))));
}

#[test]
fn value_expected_at_end_of_input() {
    assert_eq!(decode(bytes("l")), Err(DecodeError::UnrecognizedValue));
    assert_eq!(decode(bytes("li1e")), Err(DecodeError::UnrecognizedValue));
    assert_eq!(decode(bytes("d")), Err(DecodeError::UnterminatedDictionary));
}

#[test]
fn dict_key_not_a_byte_string() {
    assert_eq!(decode(bytes("dxe")), Err(DecodeError::MissingColon));
}

#[test]
fn dict_key_invalid_utf8() {
    let mut input = bytes("d2:");
    input.push(0xff);
    input.push(0xfe);
    input.extend_from_slice(&bytes("i1ee"));
    assert_eq!(decode(input), Err(DecodeError::InvalidKey));
}

#[test]
fn dict_key_multibyte_utf8() {
    let mut input = bytes("d2:");
    input.extend_from_slice("\u{e9}".as_bytes());
    input.extend_from_slice(&bytes("i5ee"));
    assert_eq!(
        decode(input),
        Ok(BencodingResult::Dict(vec![(String::from("\u{e9}"), BencodingResult::Int(5))]))
    );
}

#[test]
fn dict_duplicate_key_last_wins() {
    assert_eq!(
        decode(bytes("d1:ai1e1:ai2ee")),
        Ok(BencodingResult::Dict(vec![(String::from("a"), BencodingResult::Int(2))]))
    );
    assert_eq!(
        decode(bytes("d1:ai1e1:bi2e1:ai3ee")),
        Ok(BencodingResult::Dict(vec![
            (String::from("a"), BencodingResult::Int(3)),
            (String::from("b"), BencodingResult::Int(2)),
        ]))
    );
}

#[test]
fn nested_containers() {
    assert_eq!(
        decode(bytes("lli1eeld1:ai2eeee")),
        Ok(BencodingResult::List(vec![
            BencodingResult::List(vec![BencodingResult::Int(1)]),
            BencodingResult::List(vec![BencodingResult::Dict(vec![(
                String::from("a"),
                BencodingResult::Int(2)
            )])]),
        ]))
    );
}

#[test]
fn nested_error_propagates() {
    assert_eq!(decode(bytes("li03ee")), Err(DecodeError::LeadingZero));
    assert_eq!(decode(bytes("d1:ai-0ee")), Err(DecodeError::NegativeZero));
}

#[test]
fn binary_content_survives() {
    let mut input = bytes("3:");
    input.push(0x00);
    input.push(0xff);
    input.push(0x7f);
    assert_eq!(decode(input), Ok(BencodingResult::ByteString(vec![0x00, 0xff, 0x7f])));
}
