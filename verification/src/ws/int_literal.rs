//! Parses textual integer literals from assembly source into the wire bit
//! form: a sign bit, kept leading zeros, and the big-endian magnitude.

use crate::text::iter::utf8_first;
use crate::ws::convert::{
    bits_of_nat, compose_signed_bits, digits_to_bits, nat_of_digits,
};
use crate::ws::integer::Sign;
use vstd::prelude::*;

verus! {

/// Why a literal did not parse.
#[derive(Clone, Debug, PartialEq, Eq, Hash)]
pub enum ParseError {
    /// The written radix is not in 2 ..= 62.
    InvalidRadix,
    /// A character is no digit of the radix; `offset` is its byte position.
    InvalidDigit { ch: char, offset: usize },
    /// The literal starts with a digit separator.
    LeadingUnderscore,
    /// There are no digits where some are required.
    NoDigits,
}

/// A parsed integer literal: the wire bit form, and the source text it was
/// written as.
#[derive(Clone, Debug, PartialEq, Eq, Hash)]
pub struct IntLiteral {
    bits: Vec<bool>,
    text: Option<Vec<u8>>,
}

impl IntLiteral {
    pub closed spec fn bits_spec(&self) -> Seq<bool> {
        self.bits@
    }

    pub closed spec fn text_spec(&self) -> Option<Seq<u8>> {
        match self.text {
            Some(t) => Some(t@),
            None => None,
        }
    }

    /// A literal assembled from its parts.
    pub fn from_parts(bits: Vec<bool>, text: Option<Vec<u8>>) -> (r: Self)
        ensures
            r.bits_spec() == bits@,
            r.text_spec() == (match text {
                Some(t) => Some(t@),
                None => None::<Seq<u8>>,
            }),
    {
        IntLiteral { bits, text }
    }

    /// A literal from decoded argument bits, with no source text.
    pub fn from_bits(bits: Vec<bool>) -> (r: Self)
        ensures
            r.bits_spec() == bits@,
            r.text_spec() is None,
    {
        IntLiteral { bits, text: None }
    }

    /// The wire bits: the sign first (if any), then the magnitude with its
    /// kept leading zeros.
    pub fn bits(&self) -> (r: &Vec<bool>)
        ensures
            r@ == self.bits_spec(),
    {
        &self.bits
    }

    /// The source spelling, where the literal was parsed from text.
    pub fn text(&self) -> (r: &Option<Vec<u8>>)
        ensures
            match r {
                Some(t) => self.text_spec() == Some(t@),
                None => self.text_spec() is None,
            },
    {
        &self.text
    }

    pub fn sign(&self) -> (r: Sign)
        ensures
            r == crate::ws::integer::sign_of_bits(self.bits_spec()),
    {
        if self.bits.len() == 0 {
            Sign::Empty
        } else if self.bits[0] {
            Sign::Neg
        } else {
            Sign::Pos
        }
    }

    /// A surface spelling of the literal: its source text where it came
    /// from text, and otherwise the explicit binary form — a sign where the
    /// bits carry one, then `b#`, then every magnitude bit — which spells
    /// all wire bit patterns, leading zeros included.
    pub fn spelling(&self) -> (r: Vec<u8>)
        ensures
            match self.text_spec() {
                Some(t) => r@ == t,
                None => r@ == spelled_bits(self.bits_spec()),
            },
    {
        match &self.text {
            Some(t) => copy_bytes(t),
            None => {
                let mut r: Vec<u8> = Vec::new();
                if self.bits.len() > 0 {
                    if self.bits[0] {
                        r.push(45);
                    } else {
                        r.push(43);
                    }
                }
                r.push(98);
                r.push(35);
                let n = self.bits.len();
                let ghost base = r@;
                let mut i: usize = 1;
                while i < n
                    invariant
                        1 <= i,
                        i <= n || i == 1,
                        n >= 1 || i == 1,
                        n == self.bits_spec().len(),
                        r@ == base + self.bits_spec().skip(1).take(i - 1).map_values(
                            |b: bool|
                                if b {
                                    49u8
                                } else {
                                    48u8
                                },
                        ),
                    decreases n - i,
                {
                    r.push(
                        if self.bits[i] {
                            49
                        } else {
                            48
                        },
                    );
                    proof {
                        assert(self.bits_spec().skip(1).take(i as int)
                            =~= self.bits_spec().skip(1).take(i - 1).push(
                            self.bits_spec()[i as int],
                        ));
                        assert(r@ =~= base + self.bits_spec().skip(1).take(i as int).map_values(
                            |b: bool|
                                if b {
                                    49u8
                                } else {
                                    48u8
                                },
                        ));
                    }
                    i = i + 1;
                }
                proof {
                    if n > 0 {
                        assert(self.bits_spec().skip(1).take(n - 1) =~= self.bits_spec().skip(1));
                    }
                    assert(r@ =~= spelled_bits(self.bits_spec()));
                }
                r
            },
        }
    }
}

/// The explicit binary spelling of wire bits: the sign, `b#`, and the
/// magnitude bits as digit characters.
pub open spec fn spelled_bits(bits: Seq<bool>) -> Seq<u8> {
    let sign: Seq<u8> = if bits.len() == 0 {
        Seq::empty()
    } else if bits[0] {
        seq![45u8]
    } else {
        seq![43u8]
    };
    let mag: Seq<bool> = if bits.len() == 0 {
        Seq::empty()
    } else {
        bits.skip(1)
    };
    sign + seq![98u8, 35u8] + mag.map_values(
        |b: bool|
            if b {
                49u8
            } else {
                48u8
            },
    )
}

/// An owned copy of a byte vector.
fn copy_bytes(v: &Vec<u8>) -> (r: Vec<u8>)
    ensures
        r@ == v@,
{
    let mut r: Vec<u8> = Vec::new();
    let mut i: usize = 0;
    let n = v.len();
    while i < n
        invariant
            n == v@.len(),
            i <= n,
            r@ == v@.take(i as int),
        decreases n - i,
    {
        r.push(v[i]);
        proof {
            assert(r@ =~= v@.take(i + 1));
        }
        i = i + 1;
    }
    proof {
        assert(v@.take(n as int) =~= v@);
    }
    r
}

/// The numeric value of one digit character: `0-9A-Z` for the
/// case-insensitive alphabet of radices up to 36, `0-9A-Za-z` for the
/// case-sensitive alphabet above, and 255 for everything else.
pub open spec fn spec_digit(ch: u8, extended: bool) -> u8 {
    if 48 <= ch <= 57 {
        (ch - 48) as u8
    } else if 65 <= ch <= 90 {
        (ch - 55) as u8
    } else if 97 <= ch <= 122 {
        if extended {
            (ch - 61) as u8
        } else {
            (ch - 87) as u8
        }
    } else {
        255
    }
}

/// The first position from `i` on that holds neither a zero digit nor a
/// separator.
pub open spec fn zeros_end(b: Seq<u8>, i: int) -> int
    decreases b.len() - i,
{
    if i < 0 || i >= b.len() {
        i
    } else if b[i] == 48 || b[i] == 95 {
        zeros_end(b, i + 1)
    } else {
        i
    }
}

/// How many zero digits stand before that position.
pub open spec fn zeros_count(b: Seq<u8>, i: int) -> int
    decreases b.len() - i,
{
    if i < 0 || i >= b.len() {
        0
    } else if b[i] == 48 {
        1 + zeros_count(b, i + 1)
    } else if b[i] == 95 {
        zeros_count(b, i + 1)
    } else {
        0
    }
}

/// Every character from `i` on is a separator or a digit of the radix.
pub open spec fn all_digits(b: Seq<u8>, i: int, radix: int, extended: bool) -> bool {
    forall|j: int|
        i <= j < b.len() ==> (#[trigger] b[j]) == 95 || spec_digit(b[j], extended) < radix
}

/// The position of the first character that is neither.
pub open spec fn first_bad(b: Seq<u8>, i: int, radix: int, extended: bool) -> int
    decreases b.len() - i,
{
    if i < 0 || i >= b.len() {
        b.len() as int
    } else if b[i] != 95 && spec_digit(b[i], extended) >= radix {
        i
    } else {
        first_bad(b, i + 1, radix, extended)
    }
}

/// The digit values from `i` on, separators skipped.
pub open spec fn digit_values(b: Seq<u8>, i: int, extended: bool) -> Seq<u8>
    decreases b.len() - i,
{
    if i < 0 || i >= b.len() {
        Seq::empty()
    } else if b[i] == 95 {
        digit_values(b, i + 1, extended)
    } else {
        seq![spec_digit(b[i], extended)] + digit_values(b, i + 1, extended)
    }
}

/// What parsing the digit part of a literal yields.
pub ghost enum IntParse {
    /// The radix is out of range.
    BadRadix,
    /// The character at `off` is no digit.
    BadDigit { off: int },
    /// The literal parses to these wire bits.
    Good { bits: Seq<bool> },
}

/// The abstract result of parsing digits from position `offset` with the
/// given sign and radix.
pub open spec fn digits_result(b: Seq<u8>, offset: int, sign: Sign, radix: int) -> IntParse {
    if radix < 2 || radix > 62 {
        IntParse::BadRadix
    } else {
        let extended = radix >= 37;
        let zend = zeros_end(b, offset);
        let zc = zeros_count(b, offset);
        if !all_digits(b, zend, radix, extended) {
            IntParse::BadDigit { off: first_bad(b, zend, radix, extended) }
        } else {
            let vals = digit_values(b, zend, extended);
            let v = nat_of_digits(vals, radix);
            let lz: int = if radix == 2 {
                zc
            } else if vals.len() == 0 && zc != 0 {
                1
            } else {
                0
            };
            if v == 0 && lz == 0 && sign is Empty {
                IntParse::Good { bits: Seq::empty() }
            } else {
                IntParse::Good {
                    bits: seq![sign is Neg] + Seq::new(lz as nat, |k: int| false) + bits_of_nat(
                        v,
                    ),
                }
            }
        }
    }
}

/// The character reported for a bad byte position: the decoded UTF-8
/// character, or the replacement character where the bytes are not valid
/// UTF-8.
pub open spec fn reported_char(b: Seq<u8>, off: int) -> char {
    match utf8_first(b.skip(off)).0 {
        Some(c) => c,
        None => '\u{FFFD}',
    }
}

/// The parse result agrees with the abstract outcome: errors carry the
/// exact position and decoded character, and a success carries the exact
/// wire bits and the whole source text.
pub open spec fn int_parse_matches(
    a: IntParse,
    b: Seq<u8>,
    r: Result<IntLiteral, ParseError>,
) -> bool {
    match a {
        IntParse::BadRadix => r == Err::<IntLiteral, ParseError>(ParseError::InvalidRadix),
        IntParse::BadDigit { off } => {
            &&& r matches Err(ParseError::InvalidDigit { ch, offset })
            &&& offset == off
            &&& ch == reported_char(b, off)
        },
        IntParse::Good { bits } => {
            &&& r matches Ok(lit)
            &&& lit.bits_spec() == bits
            &&& lit.text_spec() == Some(b)
        },
    }
}

/// The sign prefix of a literal, and where the digits start.
pub open spec fn sign_split(b: Seq<u8>) -> (Sign, int) {
    if b.len() > 0 && b[0] == 43 {
        (Sign::Pos, 1)
    } else if b.len() > 0 && b[0] == 45 {
        (Sign::Neg, 1)
    } else {
        (Sign::Empty, 0)
    }
}

fn parse_sign(b: &[u8]) -> (r: (Sign, usize))
    ensures
        (r.0, r.1 as int) == sign_split(b@),
{
    if b.len() > 0 && b[0] == 43 {
        (Sign::Pos, 1)
    } else if b.len() > 0 && b[0] == 45 {
        (Sign::Neg, 1)
    } else {
        (Sign::Empty, 0)
    }
}

/// One digit character's value under the chosen alphabet.
fn digit_value(ch: u8, extended: bool) -> (r: u8)
    ensures
        r == spec_digit(ch, extended),
{
    if 48 <= ch && ch <= 57 {
        ch - 48
    } else if 65 <= ch && ch <= 90 {
        ch - 55
    } else if 97 <= ch && ch <= 122 {
        if extended {
            ch - 61
        } else {
            ch - 87
        }
    } else {
        255
    }
}

/// Parses the digit part of a literal: skips leading zeros (counting them),
/// collects the digit values, and composes the wire bits — the sign, the
/// kept leading zeros (all of them in base 2, one for a zero written with
/// digits, none otherwise), and the canonical magnitude.
#[verifier::loop_isolation(false)]
fn parse_digits(b: &[u8], offset: usize, sign: Sign, radix: u32) -> (r: Result<
    IntLiteral,
    ParseError,
>)
    requires
        offset <= b@.len(),
    ensures
        int_parse_matches(digits_result(b@, offset as int, sign, radix as int), b@, r),
{
    if radix < 2 || radix > 62 {
        return Err(ParseError::InvalidRadix);
    }
    let extended = radix >= 37;
    let n = b.len();
    // skip leading zeros
    let mut i: usize = offset;
    let mut lz: usize = 0;
    while i < n && (b[i] == 48 || b[i] == 95)
        invariant
            offset <= i <= n,
            n == b@.len(),
            zeros_end(b@, offset as int) == zeros_end(b@, i as int),
            zeros_count(b@, offset as int) == lz + zeros_count(b@, i as int),
            lz <= i,
        decreases n - i,
    {
        if b[i] == 48 {
            lz = lz + 1;
        }
        i = i + 1;
    }
    let zstart = i;
    proof {
        assert(zeros_end(b@, i as int) == i as int);
        assert(zeros_count(b@, i as int) == 0);
    }
    // collect digit values
    let mut digits: Vec<u8> = Vec::new();
    while i < n
        invariant
            zstart <= i <= n,
            n == b@.len(),
            2 <= radix <= 62,
            extended == (radix >= 37),
            digit_values(b@, zstart as int, extended) == digits@ + digit_values(
                b@,
                i as int,
                extended,
            ),
            first_bad(b@, zstart as int, radix as int, extended) == first_bad(
                b@,
                i as int,
                radix as int,
                extended,
            ),
            forall|k: int| 0 <= k < digits@.len() ==> #[trigger] digits@[k] < radix,
        decreases n - i,
    {
        let ch = b[i];
        let d = digit_value(ch, extended);
        if d >= radix as u8 {
            if ch == 95 {
                i = i + 1;
                continue;
            }
            let decoded = crate::text::iter::decode_utf8_from(b, i);
            let ch_rep = match decoded.0 {
                Some(c) => c,
                None => '\u{FFFD}',
            };
            proof {
                assert(first_bad(b@, i as int, radix as int, extended) == i as int);
                assert(!all_digits(b@, zstart as int, radix as int, extended)) by {
                    assert(b@[i as int] != 95 && spec_digit(b@[i as int], extended)
                        >= radix as int);
                }
            }
            return Err(ParseError::InvalidDigit { ch: ch_rep, offset: i });
        }
        digits.push(d);
        proof {
            assert(digit_values(b@, i as int, extended) =~= seq![spec_digit(
                b@[i as int],
                extended,
            )] + digit_values(b@, i + 1, extended));
            assert(digits@ + digit_values(b@, i + 1, extended) =~= digit_values(
                b@,
                zstart as int,
                extended,
            ));
        }
        i = i + 1;
    }
    proof {
        assert(digit_values(b@, n as int, extended) =~= Seq::<u8>::empty());
        assert(digits@ =~= digit_values(b@, zstart as int, extended));
        assert(first_bad(b@, n as int, radix as int, extended) == n as int);
        lemma_no_bad_all_digits(b@, zstart as int, radix as int, extended);
    }
    // compose the wire bits
    let leading_zeros: usize = if radix == 2 {
        lz
    } else if digits.len() == 0 && lz != 0 {
        1
    } else {
        0
    };
    let magnitude = digits_to_bits(&digits, radix);
    proof {
        crate::ws::convert::lemma_bits_of_nat(magnitude@);
    }
    let bits = compose_signed_bits(
        match sign {
            Sign::Neg => true,
            _ => false,
        },
        match sign {
            Sign::Empty => false,
            _ => true,
        },
        leading_zeros,
        &magnitude,
    );
    let mut text: Vec<u8> = Vec::new();
    let mut j: usize = 0;
    while j < n
        invariant
            j <= n,
            n == b@.len(),
            text@ == b@.take(j as int),
        decreases n - j,
    {
        text.push(b[j]);
        proof {
            assert(text@ =~= b@.take(j + 1));
        }
        j = j + 1;
    }
    proof {
        assert(b@.take(n as int) =~= b@);
        if nat_of_digits(digits@, radix as int) == 0 && leading_zeros == 0 && sign is Empty {
            lemma_zero_value_empty_mag(magnitude@);
        }
        match digits_result(b@, offset as int, sign, radix as int) {
            IntParse::Good { bits: gb } => {
                assert(bits@ =~= gb);
            },
            _ => {},
        }
    }
    Ok(IntLiteral { bits, text: Some(text) })
}

/// A chosen radix and digit start, or why none could be chosen.
pub ghost enum RadixChoice {
    Chosen { radix: int, offset: int },
    BadRadix,
    Underscore,
    Empty,
}

/// The radix an Erlang-style literal writes before `#`: a one- or two-digit
/// base, or a letter alias — `b` for binary, `o` for octal, `x` for
/// hexadecimal — or base 10 with no prefix at all.
pub open spec fn erlang_choice(b: Seq<u8>, o: int) -> RadixChoice {
    if o + 2 <= b.len() && b[o + 1] == 35 {
        let r = b[o];
        if r == 98 || r == 66 {
            RadixChoice::Chosen { radix: 2, offset: o + 2 }
        } else if r == 111 || r == 79 {
            RadixChoice::Chosen { radix: 8, offset: o + 2 }
        } else if r == 120 || r == 88 {
            RadixChoice::Chosen { radix: 16, offset: o + 2 }
        } else if 50 <= r <= 57 {
            RadixChoice::Chosen { radix: (r - 48) as int, offset: o + 2 }
        } else {
            RadixChoice::BadRadix
        }
    } else if o + 3 <= b.len() && b[o + 2] == 35 {
        let r0 = b[o];
        let r1 = b[o + 1];
        if 49 <= r0 <= 54 && 48 <= r1 <= 57 {
            RadixChoice::Chosen { radix: (r0 - 48) * 10 + (r1 - 48), offset: o + 3 }
        } else {
            RadixChoice::BadRadix
        }
    } else if o < b.len() && b[o] == 95 {
        RadixChoice::Underscore
    } else if o == b.len() {
        RadixChoice::Empty
    } else {
        RadixChoice::Chosen { radix: 10, offset: o }
    }
}

/// The radix a C-style literal writes as a prefix: `0b`, `0o`, `0x`, a bare
/// leading zero for octal, or base 10 with no prefix.
pub open spec fn c_choice(b: Seq<u8>, o: int) -> RadixChoice {
    if o + 2 <= b.len() && b[o] == 48 && (b[o + 1] == 98 || b[o + 1] == 66) {
        RadixChoice::Chosen { radix: 2, offset: o + 2 }
    } else if o + 2 <= b.len() && b[o] == 48 && (b[o + 1] == 111 || b[o + 1] == 79) {
        RadixChoice::Chosen { radix: 8, offset: o + 2 }
    } else if o + 2 <= b.len() && b[o] == 48 && (b[o + 1] == 120 || b[o + 1] == 88) {
        RadixChoice::Chosen { radix: 16, offset: o + 2 }
    } else if o + 2 <= b.len() && b[o] == 48 {
        RadixChoice::Chosen { radix: 8, offset: o + 1 }
    } else if o < b.len() && b[o] == 95 {
        RadixChoice::Underscore
    } else {
        RadixChoice::Chosen { radix: 10, offset: o }
    }
}

impl IntLiteral {
    /// Parses a literal with the radix given outright. A radix in 2 ..= 36
    /// uses the case-insensitive alphabet `0-9A-Z`; one in 37 ..= 62 the
    /// case-sensitive alphabet `0-9A-Za-z`.
    pub fn parse_radix(b: &[u8], radix: u32) -> (r: Result<IntLiteral, ParseError>)
        ensures
            ({
                let (sign, o) = sign_split(b@);
                if o == b@.len() {
                    r == Err::<IntLiteral, ParseError>(ParseError::NoDigits)
                } else {
                    int_parse_matches(digits_result(b@, o, sign, radix as int), b@, r)
                }
            }),
    {
        let (sign, offset) = parse_sign(b);
        if offset == b.len() {
            return Err(ParseError::NoDigits);
        }
        parse_digits(b, offset, sign, radix)
    }

    /// Parses an Erlang-like literal of the form `base#value`, where `base`
    /// is in 2 ..= 62 or a letter alias, or just `value` for base 10.
    /// Underscores may separate digits, and `value` may be empty when a
    /// radix is written, so that every wire bit pattern can be spelled.
    pub fn parse_erlang_style(b: &[u8]) -> (r: Result<IntLiteral, ParseError>)
        ensures
            ({
                let (sign, o) = sign_split(b@);
                match erlang_choice(b@, o) {
                    RadixChoice::BadRadix => r == Err::<IntLiteral, ParseError>(
                        ParseError::InvalidRadix,
                    ),
                    RadixChoice::Underscore => r == Err::<IntLiteral, ParseError>(
                        ParseError::LeadingUnderscore,
                    ),
                    RadixChoice::Empty => r == Err::<IntLiteral, ParseError>(
                        ParseError::NoDigits,
                    ),
                    RadixChoice::Chosen { radix, offset } => {
                        let a = digits_result(b@, offset, sign, radix);
                        if (a matches IntParse::BadDigit { off } && reported_char(b@, off)
                            == '#') {
                            r == Err::<IntLiteral, ParseError>(ParseError::InvalidRadix)
                        } else {
                            int_parse_matches(a, b@, r)
                        }
                    },
                }
            }),
    {
        let (sign, o) = parse_sign(b);
        let n = b.len();
        let radix: u32;
        let offset: usize;
        if o + 2 <= n && b[o + 1] == 35 {
            let c = b[o];
            if c == 98 || c == 66 {
                radix = 2;
            } else if c == 111 || c == 79 {
                radix = 8;
            } else if c == 120 || c == 88 {
                radix = 16;
            } else if 50 <= c && c <= 57 {
                radix = (c - 48) as u32;
            } else {
                return Err(ParseError::InvalidRadix);
            }
            offset = o + 2;
        } else if o + 3 <= n && b[o + 2] == 35 {
            let c0 = b[o];
            let c1 = b[o + 1];
            if 49 <= c0 && c0 <= 54 && 48 <= c1 && c1 <= 57 {
                radix = ((c0 - 48) * 10 + (c1 - 48)) as u32;
            } else {
                return Err(ParseError::InvalidRadix);
            }
            offset = o + 3;
        } else if o < n && b[o] == 95 {
            return Err(ParseError::LeadingUnderscore);
        } else if o == n {
            return Err(ParseError::NoDigits);
        } else {
            radix = 10;
            offset = o;
        }
        match parse_digits(b, offset, sign, radix) {
            Err(ParseError::InvalidDigit { ch, offset: bad }) => {
                if ch == '#' {
                    Err(ParseError::InvalidRadix)
                } else {
                    Err(ParseError::InvalidDigit { ch, offset: bad })
                }
            },
            other => other,
        }
    }

    /// Parses a C-like literal with an optional base prefix: `0b` for
    /// binary, `0` or `0o` for octal, `0x` for hexadecimal, or decimal
    /// otherwise. Underscores may separate digits.
    pub fn parse_c_style(b: &[u8]) -> (r: Result<IntLiteral, ParseError>)
        ensures
            ({
                let (sign, o) = sign_split(b@);
                match c_choice(b@, o) {
                    RadixChoice::Underscore => r == Err::<IntLiteral, ParseError>(
                        ParseError::LeadingUnderscore,
                    ),
                    RadixChoice::Chosen { radix, offset } => {
                        if offset == b@.len() {
                            r == Err::<IntLiteral, ParseError>(ParseError::NoDigits)
                        } else {
                            int_parse_matches(digits_result(b@, offset, sign, radix), b@, r)
                        }
                    },
                    _ => true,
                }
            }),
    {
        let (sign, o) = parse_sign(b);
        let n = b.len();
        let radix: u32;
        let offset: usize;
        if o + 2 <= n && b[o] == 48 && (b[o + 1] == 98 || b[o + 1] == 66) {
            radix = 2;
            offset = o + 2;
        } else if o + 2 <= n && b[o] == 48 && (b[o + 1] == 111 || b[o + 1] == 79) {
            radix = 8;
            offset = o + 2;
        } else if o + 2 <= n && b[o] == 48 && (b[o + 1] == 120 || b[o + 1] == 88) {
            radix = 16;
            offset = o + 2;
        } else if o + 2 <= n && b[o] == 48 {
            radix = 8;
            offset = o + 1;
        } else if o < n && b[o] == 95 {
            return Err(ParseError::LeadingUnderscore);
        } else {
            radix = 10;
            offset = o;
        }
        if offset == n {
            return Err(ParseError::NoDigits);
        }
        parse_digits(b, offset, sign, radix)
    }
}

/// With no bad position, every character is a separator or digit.
proof fn lemma_no_bad_all_digits(b: Seq<u8>, i: int, radix: int, extended: bool)
    requires
        0 <= i <= b.len(),
        first_bad(b, i, radix, extended) == b.len() as int,
    ensures
        all_digits(b, i, radix, extended),
    decreases b.len() - i,
{
    if i < b.len() {
        if b[i] != 95 && spec_digit(b[i], extended) >= radix {
        } else {
            lemma_no_bad_all_digits(b, i + 1, radix, extended);
        }
    }
}

/// A canonical magnitude with value zero is empty.
proof fn lemma_zero_value_empty_mag(mag: Seq<bool>)
    requires
        crate::ws::convert::canonical_bits(mag),
        crate::ws::convert::nat_of_bits(mag) == 0,
    ensures
        mag.len() == 0,
{
    if mag.len() > 0 {
        crate::ws::convert::lemma_lsb_of_reverse(mag);
        assert(crate::ws::convert::canonical_lsb(mag.reverse())) by {
            assert(mag.reverse().last() == mag[0]);
        }
        crate::ws::convert::lemma_canonical_lsb_injective(mag.reverse(), Seq::empty());
    }
}


} // verus!
