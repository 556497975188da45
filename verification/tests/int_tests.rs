use nebula2::ws::convert::{signed_value_i128, unsigned_value_u128};
use nebula2::ws::int_literal::{IntLiteral, ParseError};
use nebula2::ws::integer::{Int, Sign};

fn bits(pattern: &[u8]) -> Vec<bool> {
    pattern.iter().map(|&b| b == 1).collect()
}

fn ok(text: &[u8], pattern: &[u8]) -> Result<IntLiteral, ParseError> {
    Ok(IntLiteral::from_parts(bits(pattern), Some(text.to_vec())))
}

#[test]
fn int_parse() {
    let erlang_cases: Vec<(&[u8], Result<IntLiteral, ParseError>)> = vec![
        (b"0", ok(b"0", &[0, 0])),
        (b"00", ok(b"00", &[0, 0])),
        (b"000", ok(b"000", &[0, 0])),
        (b"b#", ok(b"b#", &[])),
        (b"+b#", ok(b"+b#", &[0])),
        (b"-b#", ok(b"-b#", &[1])),
        (b"b#0", ok(b"b#0", &[0, 0])),
        (b"+b#0", ok(b"+b#0", &[0, 0])),
        (b"-b#0", ok(b"-b#0", &[1, 0])),
        (b"42", ok(b"42", &[0, 1, 0, 1, 0, 1, 0])),
        (b"16#123", ok(b"16#123", &[0, 1, 0, 0, 1, 0, 0, 0, 1, 1])),
        (
            b"16#dead_BEEF",
            ok(
                b"16#dead_BEEF",
                &[
                    0, 1, 1, 0, 1, 1, 1, 1, 0, 1, 0, 1, 0, 1, 1, 0, 1, 1, 0, 1, 1, 1, 1, 1, 0, 1,
                    1, 1, 0, 1, 1, 1, 1,
                ],
            ),
        ),
        (b"-60#100", ok(b"-60#100", &[1, 1, 1, 1, 0, 0, 0, 0, 1, 0, 0, 0, 0])),
        (b"3#_0", ok(b"3#_0", &[0, 0])),
        (b"-21#4_", ok(b"-21#4_", &[1, 1, 0, 0])),
        (b"42#7__K", ok(b"42#7__K", &[0, 1, 0, 0, 1, 1, 1, 0, 1, 0])),
        (b"b", Err(ParseError::InvalidDigit { ch: 'b', offset: 0 })),
        (b"B", Err(ParseError::InvalidDigit { ch: 'B', offset: 0 })),
        (b"o", Err(ParseError::InvalidDigit { ch: 'o', offset: 0 })),
        (b"O", Err(ParseError::InvalidDigit { ch: 'O', offset: 0 })),
        (b"x", Err(ParseError::InvalidDigit { ch: 'x', offset: 0 })),
        (b"X", Err(ParseError::InvalidDigit { ch: 'X', offset: 0 })),
        (b"#", Err(ParseError::InvalidRadix)),
        (b"a#", Err(ParseError::InvalidRadix)),
        (b"ab#", Err(ParseError::InvalidRadix)),
        (b"abc#", Err(ParseError::InvalidDigit { ch: 'a', offset: 0 })),
        (b"0#", Err(ParseError::InvalidRadix)),
        (b"1#", Err(ParseError::InvalidRadix)),
        (b"63#", Err(ParseError::InvalidRadix)),
        (b"_", Err(ParseError::LeadingUnderscore)),
        (b"-_", Err(ParseError::LeadingUnderscore)),
        (b"_1__2__3_", Err(ParseError::LeadingUnderscore)),
    ];
    for (text, expected) in erlang_cases {
        let result = IntLiteral::parse_erlang_style(text);
        assert_eq!(
            expected,
            result,
            "parse {} with base#value syntax",
            String::from_utf8_lossy(text)
        );
    }

    let c_cases: Vec<(&[u8], Result<IntLiteral, ParseError>)> = vec![
        (b"0", ok(b"0", &[0, 0])),
        (b"00", ok(b"00", &[0, 0])),
        (b"000", ok(b"000", &[0, 0])),
        (b"0755", ok(b"0755", &[0, 1, 1, 1, 1, 0, 1, 1, 0, 1])),
        (b"0_755", ok(b"0_755", &[0, 1, 1, 1, 1, 0, 1, 1, 0, 1])),
        (b"-0x_fe", ok(b"-0x_fe", &[1, 1, 1, 1, 1, 1, 1, 1, 0])),
        (b"0b", Err(ParseError::NoDigits)),
        (b"0x", Err(ParseError::NoDigits)),
        (b"0a", Err(ParseError::InvalidDigit { ch: 'a', offset: 1 })),
        (b"_", Err(ParseError::LeadingUnderscore)),
        (b"-_", Err(ParseError::LeadingUnderscore)),
        (b"_1__2__3_", Err(ParseError::LeadingUnderscore)),
    ];
    for (text, expected) in c_cases {
        let result = IntLiteral::parse_c_style(text);
        assert_eq!(
            expected,
            result,
            "parse {} with prefix syntax",
            String::from_utf8_lossy(text)
        );
    }
}

#[test]
fn parse_radix_plain() {
    assert_eq!(
        ok(b"ff", &[0, 1, 1, 1, 1, 1, 1, 1, 1]),
        IntLiteral::parse_radix(b"ff", 16)
    );
    assert_eq!(Err(ParseError::NoDigits), IntLiteral::parse_radix(b"", 10));
    assert_eq!(Err(ParseError::NoDigits), IntLiteral::parse_radix(b"-", 10));
    assert_eq!(Err(ParseError::InvalidRadix), IntLiteral::parse_radix(b"1", 63));
}

#[test]
fn signed_bits_decode() {
    // sign 1, magnitude 011 reads as minus three
    assert_eq!(Some(-3), signed_value_i128(&bits(&[1, 0, 1, 1])));
    assert_eq!(Some(3), signed_value_i128(&bits(&[0, 0, 1, 1])));
    assert_eq!(Some(0), signed_value_i128(&bits(&[0])));
    assert_eq!(Some(0), signed_value_i128(&bits(&[1])));
    // the empty vector reads as zero, but its signlessness is kept apart
    assert_eq!(Some(0), signed_value_i128(&bits(&[])));
    assert_eq!(Sign::Empty, Int::from_bits(bits(&[])).sign());
    assert_eq!(Sign::Pos, Int::from_bits(bits(&[0, 0])).sign());
    assert_eq!(Sign::Neg, Int::from_bits(bits(&[1, 0, 1, 1])).sign());
    assert!(Int::from_bits(bits(&[])).sign() != Int::from_bits(bits(&[0, 0])).sign());
}

#[test]
fn unsigned_values() {
    assert_eq!(Some(0), unsigned_value_u128(&bits(&[])));
    assert_eq!(Some(11), unsigned_value_u128(&bits(&[1, 0, 1, 1])));
    assert_eq!(Some(255), unsigned_value_u128(&bits(&[1, 1, 1, 1, 1, 1, 1, 1])));
}

#[test]
fn literal_sign() {
    let l = IntLiteral::parse_erlang_style(b"-b#0").unwrap();
    assert_eq!(Sign::Neg, l.sign());
    let l = IntLiteral::parse_erlang_style(b"b#0").unwrap();
    assert_eq!(Sign::Pos, l.sign());
    let l = IntLiteral::parse_erlang_style(b"b#").unwrap();
    assert_eq!(Sign::Empty, l.sign());
}

#[test]
fn spelling_round_trips() {
    // a parsed literal keeps its exact source spelling
    let l = IntLiteral::parse_erlang_style(b"-21#4_").unwrap();
    assert_eq!(b"-21#4_".to_vec(), l.spelling());

    // decoded bits spell themselves in the explicit binary form, and
    // parsing that spelling recovers the same bits
    for pattern in [
        &[][..],
        &[0][..],
        &[1][..],
        &[0, 0][..],
        &[1, 0][..],
        &[1, 0, 1, 1][..],
        &[0, 0, 0, 1, 1, 0][..],
    ] {
        let l = IntLiteral::from_bits(bits(pattern));
        let text = l.spelling();
        let back = IntLiteral::parse_erlang_style(&text).unwrap();
        assert_eq!(
            l.bits(),
            back.bits(),
            "spelling {} of {:?}",
            String::from_utf8_lossy(&text),
            pattern
        );
    }
}
