//! Converts between bit vectors, digit strings, and machine integers.
//!
//! Wire-format bit vectors are big-endian: the most significant bit comes
//! first. Arithmetic here works on least-significant-first sequences and
//! converts at the boundaries.

use vstd::prelude::*;

verus! {

/// The value of a big-endian bit vector.
pub open spec fn nat_of_bits(s: Seq<bool>) -> nat
    decreases s.len(),
{
    if s.len() == 0 {
        0
    } else {
        nat_of_bits(s.drop_last()) * 2 + if s.last() {
            1nat
        } else {
            0nat
        }
    }
}

/// The value of a least-significant-first bit vector, from position `i` on.
pub open spec fn tail_nat(s: Seq<bool>, i: int) -> nat
    decreases s.len() - i,
{
    if i < 0 || i >= s.len() {
        0
    } else {
        (if s[i] {
            1nat
        } else {
            0nat
        }) + 2 * tail_nat(s, i + 1)
    }
}

/// The value of a least-significant-first bit vector.
pub open spec fn nat_of_lsb(s: Seq<bool>) -> nat {
    tail_nat(s, 0)
}

/// The value of a big-endian digit string in the given radix.
pub open spec fn nat_of_digits(digits: Seq<u8>, radix: int) -> nat
    decreases digits.len(),
{
    if digits.len() == 0 {
        0
    } else {
        nat_of_digits(digits.drop_last(), radix) * radix as nat + digits.last() as nat
    }
}

/// A big-endian bit vector with no leading zeros.
pub open spec fn canonical_bits(s: Seq<bool>) -> bool {
    s.len() == 0 || s[0]
}

/// A least-significant-first bit vector with no trailing zeros.
pub open spec fn canonical_lsb(s: Seq<bool>) -> bool {
    s.len() == 0 || s.last()
}

/// Reading a least-significant-first vector backwards gives the big-endian
/// value.
pub proof fn lemma_lsb_of_reverse(s: Seq<bool>)
    ensures
        nat_of_lsb(s.reverse()) == nat_of_bits(s),
    decreases s.len(),
{
    if s.len() > 0 {
        lemma_lsb_of_reverse(s.drop_last());
        let r = s.reverse();
        assert(r.len() == s.len());
        assert(r[0] == s.last());
        assert(r.drop_first() =~= s.drop_last().reverse());
        lemma_tail_shift(r);
    }
}

/// Peeling the first bit off a least-significant-first vector halves the
/// rest.
pub proof fn lemma_tail_shift(s: Seq<bool>)
    requires
        s.len() > 0,
    ensures
        tail_nat(s, 0) == (if s[0] {
            1nat
        } else {
            0nat
        }) + 2 * nat_of_lsb(s.drop_first()),
{
    lemma_tail_drop_first(s, 1);
}

/// `tail_nat` from `i` in `s` equals `tail_nat` from `i - 1` in the tail.
pub proof fn lemma_tail_drop_first(s: Seq<bool>, i: int)
    requires
        s.len() > 0,
        1 <= i,
    ensures
        tail_nat(s, i) == tail_nat(s.drop_first(), i - 1),
    decreases s.len() - i,
{
    if i < s.len() {
        lemma_tail_drop_first(s, i + 1);
        assert(s.drop_first()[i - 1] == s[i]);
    }
}

/// Dropping a trailing zero bit does not change the value.
proof fn lemma_tail_drop_last_zero(s: Seq<bool>, i: int)
    requires
        s.len() > 0,
        !s.last(),
        0 <= i,
    ensures
        tail_nat(s.drop_last(), i) == tail_nat(s, i),
    decreases s.len() - i,
{
    if i < s.len() - 1 {
        lemma_tail_drop_last_zero(s, i + 1);
        assert(s.drop_last()[i] == s[i]);
    } else if i == s.len() - 1 {
        assert(tail_nat(s, i) == 2 * tail_nat(s, i + 1));
    }
}

/// A canonical least-significant-first vector is empty exactly when its
/// value is zero.
proof fn lemma_canonical_lsb_pos(s: Seq<bool>, i: int)
    requires
        canonical_lsb(s),
        0 <= i < s.len(),
    ensures
        tail_nat(s, i) > 0,
    decreases s.len() - i,
{
    if i < s.len() - 1 {
        lemma_canonical_lsb_pos(s, i + 1);
    }
}

/// Two canonical least-significant-first vectors with one value are one
/// vector.
pub proof fn lemma_canonical_lsb_injective(a: Seq<bool>, b: Seq<bool>)
    requires
        canonical_lsb(a),
        canonical_lsb(b),
        nat_of_lsb(a) == nat_of_lsb(b),
    ensures
        a == b,
    decreases a.len(),
{
    if a.len() == 0 {
        if b.len() > 0 {
            lemma_canonical_lsb_pos(b, 0);
        }
        assert(a =~= b);
    } else if b.len() == 0 {
        lemma_canonical_lsb_pos(a, 0);
    } else {
        lemma_tail_shift(a);
        lemma_tail_shift(b);
        assert(a[0] == b[0]);
        let a2 = a.drop_first();
        let b2 = b.drop_first();
        assert(canonical_lsb(a2)) by {
            if a2.len() > 0 {
                assert(a2.last() == a.last());
            }
        }
        assert(canonical_lsb(b2)) by {
            if b2.len() > 0 {
                assert(b2.last() == b.last());
            }
        }
        lemma_canonical_lsb_injective(a2, b2);
        assert(a =~= seq![a[0]] + a2);
        assert(b =~= seq![b[0]] + b2);
    }
}

/// Two canonical big-endian vectors with one value are one vector.
pub proof fn lemma_canonical_bits_injective(a: Seq<bool>, b: Seq<bool>)
    requires
        canonical_bits(a),
        canonical_bits(b),
        nat_of_bits(a) == nat_of_bits(b),
    ensures
        a == b,
{
    lemma_lsb_of_reverse(a);
    lemma_lsb_of_reverse(b);
    assert(canonical_lsb(a.reverse())) by {
        if a.len() > 0 {
            assert(a.reverse().last() == a[0]);
        }
    }
    assert(canonical_lsb(b.reverse())) by {
        if b.len() > 0 {
            assert(b.reverse().last() == b[0]);
        }
    }
    lemma_canonical_lsb_injective(a.reverse(), b.reverse());
    assert(a.len() == b.len());
    assert forall|i: int| 0 <= i < a.len() implies a[i] == b[i] by {
        assert(a.reverse()[a.len() - 1 - i] == a[i]);
        assert(b.reverse()[b.len() - 1 - i] == b[i]);
    }
    assert(a =~= b);
}

/// The canonical big-endian bit vector with the given value: the unique
/// vector with no leading zeros whose bits read as that number.
pub open spec fn bits_of_nat(n: nat) -> Seq<bool> {
    choose|s: Seq<bool>| canonical_bits(s) && nat_of_bits(s) == n
}

/// Any canonical vector is the canonical form of its own value.
pub proof fn lemma_bits_of_nat(mag: Seq<bool>)
    requires
        canonical_bits(mag),
    ensures
        bits_of_nat(nat_of_bits(mag)) == mag,
{
    assert(canonical_bits(mag) && nat_of_bits(mag) == nat_of_bits(mag));
    let w = choose|s: Seq<bool>| canonical_bits(s) && nat_of_bits(s) == nat_of_bits(mag);
    lemma_canonical_bits_injective(w, mag);
}

/// Ripple-carry addition over least-significant-first vectors, from
/// position `i` on.
fn add_lsb_from(a: &Vec<bool>, b: &Vec<bool>, i: usize, carry: bool) -> (r: Vec<bool>)
    ensures
        nat_of_lsb(r@) == tail_nat(a@, i as int) + tail_nat(b@, i as int) + if carry {
            1nat
        } else {
            0nat
        },
    decreases
            (if a@.len() > i {
                a@.len() - i
            } else {
                0
            }) + (if b@.len() > i {
                b@.len() - i
            } else {
                0
            }),
{
    if i >= a.len() && i >= b.len() {
        let mut r: Vec<bool> = Vec::new();
        if carry {
            r.push(true);
        }
        proof {
            if carry {
                assert(r@.len() == 1 && r@[0]);
                assert(tail_nat(r@, 1) == 0);
                assert(tail_nat(r@, 0) == 1);
            }
        }
        r
    } else {
        let ba = if i < a.len() {
            a[i]
        } else {
            false
        };
        let bb = if i < b.len() {
            b[i]
        } else {
            false
        };
        let count: u8 = (if ba {
            1u8
        } else {
            0u8
        }) + (if bb {
            1u8
        } else {
            0u8
        }) + (if carry {
            1u8
        } else {
            0u8
        });
        let bit = count % 2 == 1;
        let carry2 = count >= 2;
        let mut rest = add_lsb_from(a, b, i + 1, carry2);
        let ghost prev = rest@;
        rest.insert(0, bit);
        proof {
            assert(rest@[0] == bit);
            assert(rest@.drop_first() =~= prev);
            lemma_tail_shift(rest@);
        }
        rest
    }
}

/// The sum of two least-significant-first bit vectors.
fn add_lsb(a: &Vec<bool>, b: &Vec<bool>) -> (r: Vec<bool>)
    ensures
        nat_of_lsb(r@) == nat_of_lsb(a@) + nat_of_lsb(b@),
{
    add_lsb_from(a, b, 0, false)
}

/// A small number as a least-significant-first bit vector.
fn u32_to_lsb(x: u32) -> (r: Vec<bool>)
    ensures
        nat_of_lsb(r@) == x,
        canonical_lsb(r@),
    decreases x,
{
    if x == 0 {
        Vec::new()
    } else {
        let mut rest = u32_to_lsb(x / 2);
        let ghost prev = rest@;
        let bit = x % 2 == 1;
        rest.insert(0, bit);
        proof {
            assert(rest@[0] == bit);
            assert(rest@.drop_first() =~= prev);
            lemma_tail_shift(rest@);
            if prev.len() == 0 {
                assert(x / 2 == 0 && bit);
                assert(rest@.last() == bit);
            } else {
                assert(rest@.last() == prev.last());
            }
        }
        rest
    }
}

/// `v * m + a`, over least-significant-first vectors, by repeated addition.
fn mul_small_add_lsb(v: &Vec<bool>, m: u32, a: u32) -> (r: Vec<bool>)
    ensures
        nat_of_lsb(r@) == nat_of_lsb(v@) * m + a,
{
    let mut acc: Vec<bool> = Vec::new();
    let mut k: u32 = 0;
    while k < m
        invariant
            k <= m,
            nat_of_lsb(acc@) == nat_of_lsb(v@) * k,
        decreases m - k,
    {
        let next = add_lsb(&acc, v);
        proof {
            assert(nat_of_lsb(v@) * k + nat_of_lsb(v@) == nat_of_lsb(v@) * (k + 1))
                by (nonlinear_arith)
            ;
        }
        acc = next;
        k = k + 1;
    }
    let digit = u32_to_lsb(a);
    add_lsb(&acc, &digit)
}

/// Strips trailing zero bits, leaving the canonical form with the same
/// value.
fn trim_lsb(v: Vec<bool>) -> (r: Vec<bool>)
    ensures
        canonical_lsb(r@),
        nat_of_lsb(r@) == nat_of_lsb(v@),
    decreases v@.len(),
{
    let mut v = v;
    if v.len() == 0 {
        v
    } else if v[v.len() - 1] {
        v
    } else {
        let ghost before = v@;
        let _ = v.pop();
        proof {
            assert(v@ =~= before.drop_last());
            lemma_tail_drop_last_zero(before, 0);
        }
        trim_lsb(v)
    }
}

/// The bits of `v`, in the opposite order.
pub fn reverse_bits(v: &Vec<bool>) -> (r: Vec<bool>)
    ensures
        r@ == v@.reverse(),
{
    let n = v.len();
    let mut r: Vec<bool> = Vec::new();
    let mut i: usize = 0;
    while i < n
        invariant
            n == v@.len(),
            i <= n,
            r@.len() == i,
            forall|k: int| 0 <= k < i ==> #[trigger] r@[k] == v@[n - 1 - k],
        decreases n - i,
    {
        r.push(v[n - 1 - i]);
        i = i + 1;
    }
    proof {
        assert(r@ =~= v@.reverse());
    }
    r
}

/// The canonical big-endian magnitude bits of a digit string: the bit
/// vector whose value is the digits' value in the given radix, with no
/// leading zeros.
pub fn digits_to_bits(digits: &Vec<u8>, radix: u32) -> (r: Vec<bool>)
    requires
        2 <= radix <= 62,
        forall|k: int| 0 <= k < digits@.len() ==> #[trigger] digits@[k] < radix,
    ensures
        canonical_bits(r@),
        nat_of_bits(r@) == nat_of_digits(digits@, radix as int),
{
    let n = digits.len();
    let mut acc: Vec<bool> = Vec::new();
    let mut i: usize = 0;
    while i < n
        invariant
            n == digits@.len(),
            i <= n,
            2 <= radix <= 62,
            forall|k: int| 0 <= k < n ==> #[trigger] digits@[k] < radix,
            nat_of_lsb(acc@) == nat_of_digits(digits@.take(i as int), radix as int),
        decreases n - i,
    {
        let d = digits[i];
        let next = mul_small_add_lsb(&acc, radix, d as u32);
        proof {
            assert(digits@.take(i + 1).drop_last() =~= digits@.take(i as int));
        }
        acc = next;
        i = i + 1;
    }
    proof {
        assert(digits@.take(n as int) =~= digits@);
    }
    let trimmed = trim_lsb(acc);
    let r = reverse_bits(&trimmed);
    proof {
        lemma_lsb_of_reverse(r@);
        assert(r@.reverse() =~= trimmed@);
        if r@.len() > 0 {
            assert(r@[0] == trimmed@.last());
        }
    }
    r
}

/// The composed wire form of a parsed integer: the sign bit, the kept
/// leading zeros, then the magnitude — or the empty vector for a signless
/// zero written with no digits.
pub fn compose_signed_bits(
    negative: bool,
    explicit_sign: bool,
    leading_zeros: usize,
    magnitude: &Vec<bool>,
) -> (r: Vec<bool>)
    ensures
        magnitude@.len() == 0 && leading_zeros == 0 && !explicit_sign ==> r@ == Seq::<
            bool,
        >::empty(),
        magnitude@.len() > 0 || leading_zeros > 0 || explicit_sign ==> r@ == seq![negative]
            + Seq::new(leading_zeros as nat, |k: int| false) + magnitude@,
{
    if magnitude.len() == 0 && leading_zeros == 0 && !explicit_sign {
        Vec::new()
    } else {
        let mut r: Vec<bool> = Vec::new();
        r.push(negative);
        let mut z: usize = 0;
        while z < leading_zeros
            invariant
                z <= leading_zeros,
                r@.len() == z + 1,
                r@[0] == negative,
                forall|k: int| 1 <= k < r@.len() ==> !(#[trigger] r@[k]),
            decreases leading_zeros - z,
        {
            r.push(false);
            z = z + 1;
        }
        let n = magnitude.len();
        let mut i: usize = 0;
        while i < n
            invariant
                n == magnitude@.len(),
                i <= n,
                r@.len() == leading_zeros + 1 + i,
                r@[0] == negative,
                forall|k: int| 1 <= k < leading_zeros + 1 ==> !(#[trigger] r@[k]),
                forall|k: int|
                    0 <= k < i ==> #[trigger] r@[leading_zeros + 1 + k] == magnitude@[k],
            decreases n - i,
        {
            r.push(magnitude[i]);
            i = i + 1;
        }
        proof {
            let rhs = seq![negative] + Seq::new(leading_zeros as nat, |k: int| false)
                + magnitude@;
            assert(rhs.len() == r@.len());
            assert forall|k: int| 0 <= k < r@.len() implies r@[k] == rhs[k] by {
                if k == 0 {
                    assert(rhs[0] == negative);
                } else if k < leading_zeros + 1 {
                    assert(rhs[k] == Seq::new(leading_zeros as nat, |k2: int| false)[k - 1]);
                } else {
                    let k2 = k - leading_zeros - 1;
                    assert(rhs[k] == magnitude@[k2]);
                    assert(r@[leading_zeros + 1 + k2] == magnitude@[k2]);
                }
            }
            assert(r@ =~= rhs);
        }
        r
    }
}

/// The value of a big-endian bit vector as a machine word, when it fits.
pub fn unsigned_value_u128(bits: &Vec<bool>) -> (r: Option<u128>)
    ensures
        match r {
            Some(v) => v == nat_of_bits(bits@),
            None => nat_of_bits(bits@) > u128::MAX,
        },
{
    let n = bits.len();
    let mut v: u128 = 0;
    let mut i: usize = 0;
    while i < n
        invariant
            n == bits@.len(),
            i <= n,
            v == nat_of_bits(bits@.take(i as int)),
        decreases n - i,
    {
        let bit = bits[i];
        proof {
            assert(bits@.take(i + 1).drop_last() =~= bits@.take(i as int));
            assert(bits@.take(i + 1).last() == bits@[i as int]);
        }
        if v > (u128::MAX - if bit {
            1
        } else {
            0
        }) / 2 {
            proof {
                lemma_nat_of_bits_prefix(bits@, i + 1);
            }
            return None;
        }
        v = v * 2 + if bit {
            1
        } else {
            0
        };
        i = i + 1;
    }
    proof {
        assert(bits@.take(n as int) =~= bits@);
    }
    Some(v)
}

/// A bit vector's value only grows as more bits arrive.
proof fn lemma_nat_of_bits_prefix(s: Seq<bool>, i: int)
    requires
        0 <= i <= s.len(),
    ensures
        nat_of_bits(s) >= nat_of_bits(s.take(i)),
    decreases s.len() - i,
{
    if i < s.len() {
        lemma_nat_of_bits_prefix(s, i + 1);
        assert(s.take(i + 1).drop_last() =~= s.take(i));
    } else {
        assert(s.take(i) =~= s);
    }
}

/// The signed value a sign-magnitude bit vector denotes: the empty vector
/// counts as zero (its signlessness lives in `Sign`, not the value).
pub open spec fn signed_value_spec(bits: Seq<bool>) -> int {
    if bits.len() == 0 {
        0
    } else if bits[0] {
        -(nat_of_bits(bits.drop_first()) as int)
    } else {
        nat_of_bits(bits.drop_first()) as int
    }
}

/// The signed value of a sign-magnitude bit vector as a machine word, when
/// it fits.
pub fn signed_value_i128(bits: &Vec<bool>) -> (r: Option<i128>)
    ensures
        match r {
            Some(v) => v == signed_value_spec(bits@),
            None => signed_value_spec(bits@) > i128::MAX || signed_value_spec(bits@)
                < i128::MIN,
        },
{
    if bits.len() == 0 {
        return Some(0);
    }
    let negative = bits[0];
    let mut mag: Vec<bool> = Vec::new();
    let n = bits.len();
    let mut i: usize = 1;
    while i < n
        invariant
            n == bits@.len(),
            1 <= i <= n,
            mag@.len() == i - 1,
            forall|k: int| 0 <= k < i - 1 ==> #[trigger] mag@[k] == bits@[k + 1],
        decreases n - i,
    {
        mag.push(bits[i]);
        i = i + 1;
    }
    proof {
        assert(mag@ =~= bits@.drop_first());
    }
    match unsigned_value_u128(&mag) {
        None => None,
        Some(m) => {
            if negative {
                if m <= i128::MAX as u128 {
                    Some(-(m as i128))
                } else if m == i128::MAX as u128 + 1 {
                    Some(i128::MIN)
                } else {
                    None
                }
            } else {
                if m <= i128::MAX as u128 {
                    Some(m as i128)
                } else {
                    None
                }
            }
        },
    }
}

} // verus!
