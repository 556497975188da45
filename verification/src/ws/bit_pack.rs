//! Packs tokens into a compact bitwise encoding and back.
//!
//! Tokens map to a variable number of bits: a space is `0`, a tab is `10`,
//! a line feed is `11`. The bits do not end on a byte boundary, so when the
//! packed stream would otherwise end in a run of `0` bits, a marker `1` bit
//! is appended before the zero padding; an unpaired trailing `1` is ignored
//! when unpacking.

use crate::text::iter::{EncodingError, Lexer};
use crate::ws::convert::{nat_of_bits, nat_of_lsb, tail_nat};
use crate::ws::token::Token;
use vstd::prelude::*;

verus! {

/// The packed bits of a token sequence.
pub open spec fn pack_bits(toks: Seq<Token>) -> Seq<bool>
    decreases toks.len(),
{
    if toks.len() == 0 {
        Seq::empty()
    } else {
        pack_bits(toks.drop_last()) + (match toks.last() {
            Token::S => seq![false],
            Token::T => seq![true, false],
            Token::L => seq![true, true],
        })
    }
}

/// The tokens encoded from position `i` of a packed bit sequence: `0` is a
/// space, `10` a tab, `11` a line feed; a final unpaired `1` is a marker
/// and encodes nothing.
pub open spec fn unpack_from(bits: Seq<bool>, i: int) -> Seq<Token>
    decreases bits.len() - i,
{
    if i < 0 || i >= bits.len() {
        Seq::empty()
    } else if !bits[i] {
        seq![Token::S] + unpack_from(bits, i + 1)
    } else if i + 1 >= bits.len() {
        Seq::empty()
    } else if bits[i + 1] {
        seq![Token::L] + unpack_from(bits, i + 2)
    } else {
        seq![Token::T] + unpack_from(bits, i + 2)
    }
}

/// Packs tokens into bits.
pub fn bit_pack(toks: &Vec<Token>) -> (r: Vec<bool>)
    ensures
        r@ == pack_bits(toks@),
{
    let n = toks.len();
    let mut r: Vec<bool> = Vec::new();
    let mut i: usize = 0;
    proof {
        assert(pack_bits(toks@.take(0)) =~= Seq::<bool>::empty());
    }
    while i < n
        invariant
            n == toks@.len(),
            i <= n,
            r@ == pack_bits(toks@.take(i as int)),
        decreases n - i,
    {
        proof {
            assert(toks@.take(i + 1).drop_last() =~= toks@.take(i as int));
            assert(toks@.take(i + 1).last() == toks@[i as int]);
        }
        match toks[i] {
            Token::S => {
                r.push(false);
            },
            Token::T => {
                r.push(true);
                r.push(false);
            },
            Token::L => {
                r.push(true);
                r.push(true);
            },
        }
        proof {
            assert(r@ =~= pack_bits(toks@.take(i + 1)));
        }
        i = i + 1;
    }
    proof {
        assert(toks@.take(n as int) =~= toks@);
    }
    r
}

/// Unpacks tokens from bits; an unpaired trailing `1` bit is ignored.
pub fn bit_unpack(bits: &Vec<bool>) -> (r: Vec<Token>)
    ensures
        r@ == unpack_from(bits@, 0),
{
    let n = bits.len();
    let mut r: Vec<Token> = Vec::new();
    let mut i: usize = 0;
    while i < n
        invariant
            n == bits@.len(),
            i <= n,
            unpack_from(bits@, 0) == r@ + unpack_from(bits@, i as int),
        decreases n - i,
    {
        if !bits[i] {
            r.push(Token::S);
            i = i + 1;
        } else if i + 1 >= n {
            // marker bit
            i = n;
            proof {
                assert(r@ + unpack_from(bits@, n as int) =~= r@);
                assert(unpack_from(bits@, 0) =~= r@);
            }
        } else if bits[i + 1] {
            r.push(Token::L);
            i = i + 2;
        } else {
            r.push(Token::T);
            i = i + 2;
        }
    }
    proof {
        assert(r@ + unpack_from(bits@, n as int) =~= r@);
    }
    r
}

/// The order bits fill bytes.
#[derive(Clone, Copy, Debug, PartialEq, Eq, Hash, Structural)]
pub enum BitOrderDynamic {
    /// Least-significant bit first in each byte.
    Lsb0,
    /// Most-significant bit first in each byte; the order older tools
    /// wrote.
    Msb0,
}

/// Two to the `n`.
pub open spec fn p2(n: nat) -> nat
    decreases n,
{
    if n == 0 {
        1
    } else {
        2 * p2((n - 1) as nat)
    }
}

/// A bit vector's value is bounded by its width.
proof fn lemma_nat_of_bits_bound(s: Seq<bool>)
    ensures
        nat_of_bits(s) < p2(s.len()),
    decreases s.len(),
{
    if s.len() > 0 {
        lemma_nat_of_bits_bound(s.drop_last());
    }
}

/// Bit vectors of one width with one value are one vector.
pub proof fn lemma_fixed_width_value_injective(a: Seq<bool>, b: Seq<bool>)
    requires
        a.len() == b.len(),
        nat_of_bits(a) == nat_of_bits(b),
    ensures
        a == b,
    decreases a.len(),
{
    if a.len() > 0 {
        assert(nat_of_bits(a) == nat_of_bits(a.drop_last()) * 2 + if a.last() { 1nat } else { 0nat });
        assert(nat_of_bits(b) == nat_of_bits(b.drop_last()) * 2 + if b.last() { 1nat } else { 0nat });
        lemma_fixed_width_value_injective(a.drop_last(), b.drop_last());
        assert(a.last() == b.last());
        assert(a =~= a.drop_last().push(a.last()));
        assert(b =~= b.drop_last().push(b.last()));
    }
}

/// One byte from the 8 bits of `chunk`, most significant first.
fn byte_of_chunk_msb(chunk: &Vec<bool>, start: usize) -> (r: u8)
    requires
        start + 8 <= chunk@.len(),
    ensures
        r as nat == nat_of_bits(chunk@.subrange(start as int, start + 8)),
{
    let clen = chunk.len();
    let mut v: u16 = 0;
    let mut k: usize = 0;
    proof {
        assert(chunk@.subrange(start as int, start as int).len() == 0);
    }
    while k < 8
        invariant
            clen == chunk@.len(),
            start + 8 <= chunk@.len(),
            k <= 8,
            v as nat == nat_of_bits(chunk@.subrange(start as int, start + k)),
            v < 256,
        decreases 8 - k,
    {
        proof {
            lemma_nat_of_bits_bound(chunk@.subrange(start as int, start + k));
            assert(p2(chunk@.subrange(start as int, start + k).len()) <= p2(8)) by {
                lemma_p2_mono(chunk@.subrange(start as int, start + k).len(), 8);
            }
            assert(chunk@.subrange(start as int, start + k + 1).drop_last() =~= chunk@.subrange(
                start as int,
                start + k,
            ));
        }
        let bit = chunk[start + k];
        v = v * 2 + if bit {
            1
        } else {
            0
        };
        k = k + 1;
        proof {
            lemma_nat_of_bits_bound(chunk@.subrange(start as int, start + k));
            lemma_p2_mono(chunk@.subrange(start as int, start + k).len(), 8);
            assert(p2(8) == 256) by {
                reveal_with_fuel(p2, 9);
            }
        }
    }
    v as u8
}

/// Larger widths allow no smaller bound.
proof fn lemma_p2_mono(a: nat, b: nat)
    requires
        a <= b,
    ensures
        p2(a) <= p2(b),
        p2(a) >= 1,
    decreases b,
{
    if a < b {
        lemma_p2_mono(a, (b - 1) as nat);
    } else if b > 0 {
        lemma_p2_mono((a - 1) as nat, (b - 1) as nat);
    }
}

/// The 8 bits of one byte, most significant first.
fn bits_of_byte_msb(b: u8) -> (r: Vec<bool>)
    ensures
        r@.len() == 8,
        nat_of_bits(r@) == b,
{
    let mut lsb: Vec<bool> = Vec::new();
    let mut x: u16 = b as u16;
    let mut k: usize = 0;
    proof {
        assert(p2(0) == 1);
        assert(nat_of_lsb(lsb@) == 0);
    }
    while k < 8
        invariant
            k <= 8,
            lsb@.len() == k,
            x < 256,
            b as nat == nat_of_lsb(lsb@) + (x as nat) * p2(k as nat),
        decreases 8 - k,
    {
        let bit = x % 2 == 1;
        let ghost prev = lsb@;
        let ghost xprev = x as nat;
        lsb.push(bit);
        x = x / 2;
        k = k + 1;
        proof {
            lemma_lsb_push(prev, bit);
            assert(xprev == (if bit { 1nat } else { 0nat }) + 2 * (x as nat));
            assert(p2(k as nat) == 2 * p2((k - 1) as nat));
            assert((2 * (x as nat) + if bit { 1nat } else { 0nat }) * p2((k - 1) as nat) == 2 * (
            x as nat) * p2((k - 1) as nat) + (if bit { 1nat } else { 0nat }) * p2((k - 1) as nat))
                by (nonlinear_arith);
            assert(2 * (x as nat) * p2((k - 1) as nat) == (x as nat) * p2(k as nat))
                by (nonlinear_arith)
                requires
                    p2(k as nat) == 2 * p2((k - 1) as nat),
            ;
            assert((if bit { 1nat } else { 0nat }) * p2((k - 1) as nat) == if bit {
                p2((k - 1) as nat)
            } else {
                0nat
            }) by (nonlinear_arith);
        }
    }
    proof {
        assert(x == 0) by {
            if x > 0 {
                lemma_p2_mono(8, 8);
                assert((x as nat) * p2(8) >= p2(8)) by (nonlinear_arith)
                    requires
                        x >= 1,
                        p2(8) >= 1,
                ;
                assert(p2(8) == 256) by {
                    reveal_with_fuel(p2, 9);
                }
            }
        }
    }
    let r = crate::ws::convert::reverse_bits(&lsb);
    proof {
        crate::ws::convert::lemma_lsb_of_reverse(r@);
        assert(r@.reverse() =~= lsb@);
    }
    r
}

/// The low `w` bits of a number, least significant first.
pub open spec fn lsb_bits(b: nat, w: nat) -> Seq<bool>
    decreases w,
{
    if w == 0 {
        Seq::empty()
    } else {
        seq![b % 2 == 1] + lsb_bits(b / 2, (w - 1) as nat)
    }
}

/// The 8 bits of a byte, most significant first.
pub open spec fn byte_bits_msb(b: u8) -> Seq<bool> {
    lsb_bits(b as nat, 8).reverse()
}

/// The 8 bits of a byte, least significant first.
pub open spec fn byte_bits_lsb(b: u8) -> Seq<bool> {
    lsb_bits(b as nat, 8)
}

/// The low bits hold the number's residue.
proof fn lemma_lsb_bits_value(b: nat, w: nat)
    ensures
        nat_of_lsb(lsb_bits(b, w)) == b % p2(w),
        lsb_bits(b, w).len() == w,
    decreases w,
{
    if w == 0 {
        assert(b % 1 == 0) by (nonlinear_arith);
    } else {
        lemma_lsb_bits_value(b / 2, (w - 1) as nat);
        lemma_p2_mono((w - 1) as nat, (w - 1) as nat);
        let s = lsb_bits(b, w);
        assert(s[0] == (b % 2 == 1));
        assert(s.drop_first() =~= lsb_bits(b / 2, (w - 1) as nat));
        crate::ws::convert::lemma_tail_shift(s);
        let ghost h = p2((w - 1) as nat);
        vstd::arithmetic::div_mod::lemma_breakdown(b as int, 2, h as int);
        assert(b % (2 * h) == (b % 2) + 2 * ((b / 2) % h));
        assert(p2(w) == 2 * h);
    }
}

/// A byte's most-significant-first bits carry its value.
proof fn lemma_byte_bits_value(b: u8)
    ensures
        byte_bits_msb(b).len() == 8,
        nat_of_bits(byte_bits_msb(b)) == b,
{
    lemma_lsb_bits_value(b as nat, 8);
    crate::ws::convert::lemma_lsb_of_reverse(byte_bits_msb(b));
    assert(byte_bits_msb(b).reverse() =~= lsb_bits(b as nat, 8));
    assert(p2(8) == 256) by {
        reveal_with_fuel(p2, 9);
    }
    assert((b as nat) % 256 == b as nat);
}

/// All bytes expanded to bits, in the given order.
pub open spec fn bytes_bits(bytes: Seq<u8>, order: BitOrderDynamic) -> Seq<bool>
    decreases bytes.len(),
{
    if bytes.len() == 0 {
        Seq::empty()
    } else {
        bytes_bits(bytes.drop_last(), order) + (match order {
            BitOrderDynamic::Msb0 => byte_bits_msb(bytes.last()),
            BitOrderDynamic::Lsb0 => byte_bits_lsb(bytes.last()),
        })
    }
}

/// The number of zero bits a sequence ends with.
pub open spec fn tz_count(s: Seq<bool>) -> int
    decreases s.len(),
{
    if s.len() == 0 {
        0
    } else if s.last() {
        0
    } else {
        1 + tz_count(s.drop_last())
    }
}

/// Expands bytes into bits in the given order.
fn expand_bytes(bytes: &Vec<u8>, order: BitOrderDynamic) -> (r: Vec<bool>)
    ensures
        r@ == bytes_bits(bytes@, order),
{
    let n = bytes.len();
    let mut r: Vec<bool> = Vec::new();
    let mut j: usize = 0;
    proof {
        assert(bytes_bits(bytes@.take(0), order) =~= Seq::<bool>::empty());
        assert(r@ =~= bytes_bits(bytes@.take(0), order));
    }
    while j < n
        invariant
            n == bytes@.len(),
            j <= n,
            r@ == bytes_bits(bytes@.take(j as int), order),
        decreases n - j,
    {
        let chunk = bits_of_byte_msb(bytes[j]);
        proof {
            lemma_byte_bits_value(bytes@[j as int]);
            lemma_fixed_width_value_injective(chunk@, byte_bits_msb(bytes@[j as int]));
            assert(bytes@.take(j + 1).drop_last() =~= bytes@.take(j as int));
            assert(bytes@.take(j + 1).last() == bytes@[j as int]);
        }
        match order {
            BitOrderDynamic::Msb0 => {
                let mut k: usize = 0;
                let ghost base = r@;
                while k < 8
                    invariant
                        k <= 8,
                        chunk@.len() == 8,
                        r@ == base + chunk@.take(k as int),
                    decreases 8 - k,
                {
                    r.push(chunk[k]);
                    proof {
                        assert(r@ =~= base + chunk@.take(k + 1));
                    }
                    k = k + 1;
                }
                proof {
                    assert(chunk@.take(8) =~= chunk@);
                    assert(r@ =~= bytes_bits(bytes@.take(j + 1), order));
                }
            },
            BitOrderDynamic::Lsb0 => {
                let rev = crate::ws::convert::reverse_bits(&chunk);
                proof {
                    assert(rev@ =~= byte_bits_lsb(bytes@[j as int])) by {
                        assert(chunk@ =~= lsb_bits(bytes@[j as int] as nat, 8).reverse());
                    }
                }
                let mut k: usize = 0;
                let ghost base = r@;
                while k < 8
                    invariant
                        k <= 8,
                        rev@.len() == 8,
                        r@ == base + rev@.take(k as int),
                    decreases 8 - k,
                {
                    r.push(rev[k]);
                    proof {
                        assert(r@ =~= base + rev@.take(k + 1));
                    }
                    k = k + 1;
                }
                proof {
                    assert(rev@.take(8) =~= rev@);
                    assert(r@ =~= bytes_bits(bytes@.take(j + 1), order));
                }
            },
        }
        j = j + 1;
    }
    proof {
        assert(bytes@.take(n as int) =~= bytes@);
    }
    r
}

/// A run of `t` zero bits at the end, stopped by a one bit or the start, is
/// the whole trailing-zero run.
proof fn lemma_tz_exact(s: Seq<bool>, t: int)
    requires
        0 <= t <= s.len(),
        forall|i: int| s.len() - t <= i < s.len() ==> !(#[trigger] s[i]),
        t == s.len() || s[s.len() - t - 1],
    ensures
        tz_count(s) == t,
    decreases t,
{
    if t == 0 {
        if s.len() > 0 {
            assert(s.last());
        }
    } else {
        assert(!s.last());
        let d = s.drop_last();
        assert forall|i: int| d.len() - (t - 1) <= i < d.len() implies !(#[trigger] d[i]) by {
            assert(d[i] == s[i]);
        }
        if t - 1 < d.len() {
            assert(d[d.len() - (t - 1) - 1] == s[s.len() - t - 1]);
        }
        lemma_tz_exact(d, t - 1);
    }
}

/// The number of trailing zero bits, counted backwards from the end.
fn count_trailing_zeros(bits: &Vec<bool>) -> (r: usize)
    ensures
        r == tz_count(bits@),
        r <= bits@.len(),
{
    let n = bits.len();
    let mut t: usize = 0;
    while t < n && !bits[n - 1 - t]
        invariant
            n == bits@.len(),
            t <= n,
            forall|i: int| n - t <= i < n ==> !(#[trigger] bits@[i]),
        decreases n - t,
    {
        t = t + 1;
    }
    proof {
        lemma_tz_exact(bits@, t as int);
    }
    t
}

/// The packed bits of a token stream, with the disambiguating marker and
/// the zero padding that fills the last byte.
pub open spec fn padded_bits(toks: Seq<Token>) -> Seq<bool> {
    let p = pack_bits(toks);
    let m = if p.len() > 0 && !p.last() {
        p.push(true)
    } else {
        p
    };
    m + Seq::new(((8 - m.len() % 8) % 8) as nat, |i: int| false)
}

/// Packs tokens into whole bytes: the marker `1` bit is appended when the
/// stream would otherwise end in a `0` bit, and the last byte is padded
/// with zeros.
pub fn bit_pack_padded(toks: &Vec<Token>, order: BitOrderDynamic) -> (r: Vec<u8>)
    ensures
        r@.len() * 8 == padded_bits(toks@).len(),
        bytes_bits(r@, order) == padded_bits(toks@),
{
    let mut bits = bit_pack(toks);
    if bits.len() > 0 && !bits[bits.len() - 1] {
        bits.push(true);
    }
    let ghost m = bits@;
    let pad = (8 - bits.len() % 8) % 8;
    let mut k: usize = 0;
    proof {
        assert(bits@ =~= m + Seq::new(0, |i: int| false));
    }
    while k < pad
        invariant
            k <= pad,
            pad < 8,
            bits@ == m + Seq::new(k as nat, |i: int| false),
        decreases pad - k,
    {
        bits.push(false);
        k = k + 1;
        proof {
            assert(bits@ =~= m + Seq::new(k as nat, |i: int| false));
        }
    }
    proof {
        assert(pad == ((8 - m.len() % 8) % 8));
        assert(bits@ =~= padded_bits(toks@));
        assert((m.len() + (8 - m.len() % 8) % 8) % 8 == 0) by (nonlinear_arith);
    }
    let nb = bits.len() / 8;
    let blen = bits.len();
    proof {
        assert(bits@.len() == nb * 8) by (nonlinear_arith)
            requires
                bits@.len() % 8 == 0,
                nb == bits@.len() / 8,
        ;
    }
    let mut r: Vec<u8> = Vec::new();
    let mut j: usize = 0;
    proof {
        assert(bytes_bits(r@, order) =~= bits@.take(0));
    }
    while j < nb
        invariant
            blen == bits@.len(),
            bits@.len() == nb * 8,
            j <= nb,
            r@.len() == j,
            bytes_bits(r@, order) == bits@.take(8 * j),
        decreases nb - j,
    {
        proof {
            assert(8 * j + 8 <= nb * 8) by (nonlinear_arith)
                requires
                    j < nb,
            ;
        }
        let b: u8 = match order {
            BitOrderDynamic::Msb0 => byte_of_chunk_msb(&bits, 8 * j),
            BitOrderDynamic::Lsb0 => {
                let mut rev: Vec<bool> = Vec::new();
                let mut k2: usize = 0;
                while k2 < 8
                    invariant
                        k2 <= 8,
                        blen == bits@.len(),
                        bits@.len() == nb * 8,
                        j < nb,
                        8 * j + 8 <= bits@.len(),
                        rev@.len() == k2,
                        forall|i: int|
                            0 <= i < k2 ==> #[trigger] rev@[i] == bits@[8 * j + 7 - i],
                    decreases 8 - k2,
                {
                    rev.push(bits[8 * j + 7 - k2]);
                    k2 = k2 + 1;
                }
                let v = byte_of_chunk_msb(&rev, 0);
                proof {
                    assert(rev@.subrange(0, 8) =~= rev@);
                    assert(rev@ =~= bits@.subrange(8 * j, 8 * j + 8).reverse());
                }
                v
            },
        };
        let ghost prev = r@;
        r.push(b);
        proof {
            assert(r@.drop_last() =~= prev);
            assert(r@.last() == b);
            let chunk = bits@.subrange(8 * j, 8 * j + 8);
            match order {
                BitOrderDynamic::Msb0 => {
                    lemma_byte_bits_value(b);
                    lemma_fixed_width_value_injective(byte_bits_msb(b), chunk);
                },
                BitOrderDynamic::Lsb0 => {
                    lemma_byte_bits_value(b);
                    lemma_fixed_width_value_injective(byte_bits_msb(b), chunk.reverse());
                    assert(byte_bits_lsb(b) =~= chunk) by {
                        assert(byte_bits_msb(b).reverse() =~= byte_bits_lsb(b));
                        assert(chunk.reverse().reverse() =~= chunk);
                    }
                },
            }
            assert(bytes_bits(r@, order) =~= bits@.take(8 * j + 8));
        }
        j = j + 1;
    }
    proof {
        assert(bits@.take((nb * 8) as int) =~= bits@);
    }
    r
}

/// The tokens packed into padded bytes: the expansion, with a trailing-zero
/// run of at most one byte's worth trimmed, decoded with the marker rule.
pub open spec fn unpack_padded_spec(bytes: Seq<u8>, order: BitOrderDynamic) -> Seq<Token> {
    let e = bytes_bits(bytes, order);
    let t = tz_count(e);
    let trimmed = if 0 < t <= 8 {
        e.take(e.len() - t)
    } else {
        e
    };
    unpack_from(trimmed, 0)
}

/// Unpacks tokens from padded bytes.
pub fn bit_unpack_padded(bytes: &Vec<u8>, order: BitOrderDynamic) -> (r: Vec<Token>)
    ensures
        r@ == unpack_padded_spec(bytes@, order),
{
    let mut bits = expand_bytes(bytes, order);
    let t = count_trailing_zeros(&bits);
    if 0 < t && t <= 8 {
        let keep = bits.len() - t;
        bits.truncate(keep);
        proof {
            let e = bytes_bits(bytes@, order);
            assert(bits@ =~= e.take(e.len() - tz_count(e)));
        }
    }
    bit_unpack(&bits)
}

/// Packs tokens into padded bytes with a runtime-chosen bit order.
pub fn bit_pack_dynamic(toks: &Vec<Token>, order: BitOrderDynamic) -> (r: Vec<u8>)
    ensures
        r@.len() * 8 == padded_bits(toks@).len(),
        bytes_bits(r@, order) == padded_bits(toks@),
{
    bit_pack_padded(toks, order)
}

/// Unpacks tokens from padded bytes with a runtime-chosen bit order.
pub fn bit_unpack_dynamic(bytes: &Vec<u8>, order: BitOrderDynamic) -> (r: Vec<Token>)
    ensures
        r@ == unpack_padded_spec(bytes@, order),
{
    bit_unpack_padded(bytes, order)
}

/// The bits a byte buffer yields as a token source: the whole expansion,
/// most significant bit first, minus the unset padding at the end of the
/// last byte.
pub open spec fn lexer_bits(src: Seq<u8>) -> Seq<bool> {
    let e = bytes_bits(src, BitOrderDynamic::Msb0);
    let t = tz_count(e);
    let cut = if t > 8 {
        8
    } else {
        t
    };
    e.take(e.len() - cut)
}

/// A token source that reads a byte buffer as packed bits: `0` is a space,
/// `10` a tab, `11` a line feed; unset bits at the end of the last byte,
/// and a final marker `1`, yield nothing.
#[derive(Debug)]
pub struct BitLexer {
    bits: Vec<bool>,
    pos: usize,
}

impl BitLexer {
    pub fn new(src: Vec<u8>) -> (r: Self)
        ensures
            r.remaining() == unpack_from(lexer_bits(src@), 0).map_values(
                |t: Token| Ok::<Token, EncodingError>(t),
            ),
    {
        let mut bits = expand_bytes(&src, BitOrderDynamic::Msb0);
        let t = count_trailing_zeros(&bits);
        let cut = if t > 8 {
            8
        } else {
            t
        };
        let keep = bits.len() - cut;
        bits.truncate(keep);
        proof {
            assert(bits@ =~= lexer_bits(src@));
        }
        BitLexer { bits, pos: 0 }
    }
}

impl Lexer for BitLexer {
    type Tok = Token;

    closed spec fn remaining(&self) -> Seq<Result<Token, EncodingError>> {
        unpack_from(self.bits@, self.pos as int).map_values(
            |t: Token| Ok::<Token, EncodingError>(t),
        )
    }

    fn next(&mut self) -> (r: Option<Result<Token, EncodingError>>)
        ensures
            old(self).remaining().len() == 0 ==> r is None && final(self).remaining()
                == old(self).remaining(),
            old(self).remaining().len() > 0 ==> r == Some(old(self).remaining()[0])
                && final(self).remaining() == old(self).remaining().drop_first(),
    {
        let n = self.bits.len();
        if self.pos >= n {
            return None;
        }
        if !self.bits[self.pos] {
            self.pos = self.pos + 1;
            proof {
                lemma_map_drop_first(
                    unpack_from(old(self).bits@, old(self).pos as int),
                );
            }
            Some(Ok(Token::S))
        } else if self.pos + 1 >= n {
            // the unpaired final bit is the marker
            self.pos = n;
            proof {
                assert(old(self).remaining() =~= self.remaining());
            }
            None
        } else {
            let second = self.bits[self.pos + 1];
            self.pos = self.pos + 2;
            proof {
                lemma_map_drop_first(
                    unpack_from(old(self).bits@, old(self).pos as int),
                );
            }
            if second {
                Some(Ok(Token::L))
            } else {
                Some(Ok(Token::T))
            }
        }
    }
}

/// Mapping a sequence commutes with dropping its first element.
proof fn lemma_map_drop_first(s: Seq<Token>)
    requires
        s.len() > 0,
    ensures
        s.map_values(|t: Token| Ok::<Token, EncodingError>(t)).drop_first()
            == s.drop_first().map_values(|t: Token| Ok::<Token, EncodingError>(t)),
{
    assert(s.map_values(|t: Token| Ok::<Token, EncodingError>(t)).drop_first()
        =~= s.drop_first().map_values(|t: Token| Ok::<Token, EncodingError>(t)));
}

/// Appending a bit to a least-significant-first vector adds it at the top.
proof fn lemma_lsb_push(s: Seq<bool>, bit: bool)
    ensures
        nat_of_lsb(s.push(bit)) == nat_of_lsb(s) + (if bit {
            1nat
        } else {
            0nat
        }) * p2(s.len()),
    decreases s.len(),
{
    let t = s.push(bit);
    if s.len() == 0 {
        assert(t.len() == 1 && t[0] == bit);
        assert(tail_nat(t, 1) == 0);
    } else {
        assert(t.drop_first() =~= s.drop_first().push(bit));
        lemma_lsb_push(s.drop_first(), bit);
        crate::ws::convert::lemma_tail_shift(t);
        crate::ws::convert::lemma_tail_shift(s);
        assert(2 * ((if bit { 1nat } else { 0nat }) * p2((s.len() - 1) as nat)) == (if bit {
            1nat
        } else {
            0nat
        }) * p2(s.len())) by (nonlinear_arith)
            requires
                p2(s.len()) == 2 * p2((s.len() - 1) as nat),
        ;
    }
}

} // verus!
