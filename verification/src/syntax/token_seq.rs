use core::marker::PhantomData;
use crate::syntax::variant::VariantIndex;
use vstd::prelude::*;

verus! {

/// The scalar encoding of a token sequence: the empty sequence is 0, and
/// appending a token multiplies by the alphabet size and adds the token's
/// number plus one.
pub open spec fn seq_encode<T: VariantIndex>(s: Seq<T>) -> int
    decreases s.len(),
{
    if s.len() == 0 {
        0
    } else {
        seq_encode(s.drop_last()) * T::count_spec() + s.last().index_spec() + 1
    }
}

/// The token sequence a scalar encodes: 0 is the empty sequence, and any
/// other value has last token `(n - 1) % COUNT` and parent `(n - 1) / COUNT`.
pub open spec fn seq_decode<T: VariantIndex>(n: nat) -> Seq<T>
    decreases n,
{
    if n == 0 || T::count_spec() == 0 {
        Seq::empty()
    } else {
        seq_decode(((n - 1) as int / T::count_spec() as int) as nat).push(
            T::variant_spec(((n - 1) as int % T::count_spec() as int) as u32),
        )
    }
}

/// All tokens of `s` carry numbers below the alphabet size.
pub open spec fn seq_tokens_valid<T: VariantIndex>(s: Seq<T>) -> bool {
    forall|i: int| 0 <= i < s.len() ==> (#[trigger] s[i]).index_spec() < T::count_spec()
}

/// The largest encoding of any sequence of length at most `width`:
/// 0 for width 0, and otherwise `previous * COUNT + COUNT`.
pub open spec fn max_code(count: int, width: int) -> int
    decreases width,
{
    if width <= 0 {
        0
    } else {
        max_code(count, width - 1) * count + count
    }
}

proof fn lemma_div_mod_cancel(n: int, c: int, i: int)
    by (nonlinear_arith)
    requires
        c > 0,
        0 <= i < c,
        n >= 0,
    ensures
        (n * c + i) / c == n,
        (n * c + i) % c == i,
{
}

pub proof fn lemma_encode_nonneg<T: VariantIndex>(s: Seq<T>)
    requires
        seq_tokens_valid(s),
    ensures
        seq_encode(s) >= 0,
        s.len() > 0 ==> seq_encode(s) >= 1,
    decreases s.len(),
{
    if s.len() > 0 {
        assert forall|i: int| 0 <= i < s.drop_last().len() implies (#[trigger] s.drop_last()[
            i
        ]).index_spec() < T::count_spec() by {
            assert(s.drop_last()[i] == s[i]);
        }
        lemma_encode_nonneg(s.drop_last());
        assert(seq_encode(s.drop_last()) * T::count_spec() >= 0) by (nonlinear_arith)
            requires
                seq_encode(s.drop_last()) >= 0,
                T::count_spec() >= 0,
        ;
    }
}

/// Decoding inverts encoding: popping the last token repeatedly recovers
/// exactly the sequence that was pushed.
pub proof fn lemma_decode_encode<T: VariantIndex>(s: Seq<T>)
    requires
        seq_tokens_valid(s),
    ensures
        seq_encode(s) >= 0,
        seq_decode::<T>(seq_encode(s) as nat) == s,
    decreases s.len(),
{
    lemma_encode_nonneg(s);
    if s.len() == 0 {
        assert(seq_decode::<T>(0) =~= s);
    } else {
        let parent = s.drop_last();
        assert forall|i: int| 0 <= i < parent.len() implies (#[trigger] parent[i]).index_spec()
            < T::count_spec() by {
            assert(parent[i] == s[i]);
        }
        lemma_decode_encode(parent);
        let c = T::count_spec() as int;
        let p = seq_encode(parent);
        let i = s.last().index_spec() as int;
        let n = seq_encode(s);
        assert(i < c);
        assert(c > 0);
        assert(n == p * c + i + 1);
        lemma_div_mod_cancel(p, c, i);
        assert((n - 1) / c == p);
        assert((n - 1) % c == i);
        s.last().lemma_index_valid();
        assert(seq_decode(n as nat) =~= s);
    }
}

/// Four to the `n`: a convenient bound base for alphabets of up to three
/// tokens.
pub open spec fn p4(n: int) -> int
    decreases n,
{
    if n <= 0 {
        1
    } else {
        4 * p4(n - 1)
    }
}

/// Over an alphabet of at most three tokens, the encoding of a sequence is
/// bounded by four to its length.
pub proof fn lemma_encode_exp_bound<T: VariantIndex>(s: Seq<T>)
    requires
        seq_tokens_valid(s),
        T::count_spec() <= 3,
    ensures
        0 <= seq_encode(s) < p4(s.len() as int),
    decreases s.len(),
{
    if s.len() > 0 {
        let parent = s.drop_last();
        assert forall|i: int| 0 <= i < parent.len() implies (#[trigger] parent[i]).index_spec()
            < T::count_spec() by {
            assert(parent[i] == s[i]);
        }
        lemma_encode_exp_bound(parent);
        let e = seq_encode(parent);
        let c = T::count_spec() as int;
        assert(e * c <= e * 3) by (nonlinear_arith)
            requires
                e >= 0,
                c <= 3,
        ;
        assert(e * 3 + 3 < 4 * (e + 1)) by (nonlinear_arith)
            requires
                e >= 0,
        ;
        assert(e + 1 <= p4(s.len() - 1));
        assert(4 * (e + 1) <= 4 * p4(s.len() - 1)) by (nonlinear_arith)
            requires
                e + 1 <= p4(s.len() - 1),
        ;
    }
}

/// Longer lengths allow no smaller bound.
pub proof fn lemma_p4_mono(a: int, b: int)
    requires
        a <= b,
    ensures
        p4(a) <= p4(b),
        p4(a) >= 1,
    decreases b,
{
    if a < b && b > 0 {
        lemma_p4_mono(a, b - 1);
    } else if b > 0 {
        lemma_p4_mono(a - 1, b - 1);
    }
}

/// The encoding is injective: distinct sequences of valid tokens have
/// distinct encodings.
pub proof fn lemma_encode_injective<T: VariantIndex>(a: Seq<T>, b: Seq<T>)
    requires
        seq_tokens_valid(a),
        seq_tokens_valid(b),
        a != b,
    ensures
        seq_encode(a) != seq_encode(b),
{
    if seq_encode(a) == seq_encode(b) {
        lemma_decode_encode(a);
        lemma_decode_encode(b);
    }
}

/// A compact token stack that represents a sequence of tokens as one scalar.
///
/// With a 3-token alphabet, `[]` is 0, the three single-token sequences are
/// 1, 2 and 3, and the two-token sequences start at 4.
#[derive(Debug, PartialEq, Eq, Hash)]
pub struct TokenSeq<T> {
    inner: u32,
    elem: PhantomData<T>,
}

impl<T> Clone for TokenSeq<T> {
    fn clone(&self) -> (r: Self)
        ensures
            r == *self,
    {
        TokenSeq { inner: self.inner, elem: PhantomData }
    }
}

impl<T> Copy for TokenSeq<T> {

}

impl<T: VariantIndex> TokenSeq<T> {
    /// The scalar value this sequence is stored as.
    pub closed spec fn encoding(&self) -> int {
        self.inner as int
    }

    /// The token sequence this value represents.
    pub open spec fn view(&self) -> Seq<T> {
        seq_decode(self.encoding() as nat)
    }

    /// A nonzero encoding only means anything over a nonempty alphabet.
    pub open spec fn wf(&self) -> bool {
        self.encoding() == 0 || T::count_spec() > 0
    }

    /// The encoding is stored in 32 bits.
    pub proof fn lemma_encoding_bounds(&self)
        ensures
            0 <= self.encoding() <= u32::MAX,
    {
    }

    /// The empty sequence.
    pub fn new() -> (r: Self)
        ensures
            r.wf(),
            r.encoding() == 0,
            r@ == Seq::<T>::empty(),
    {
        TokenSeq { inner: 0, elem: PhantomData }
    }

    /// The sequence with the given scalar encoding.
    pub fn from_encoding(n: u32) -> (r: Self)
        requires
            n == 0 || T::count_spec() > 0,
        ensures
            r.wf(),
            r.encoding() == n,
    {
        TokenSeq { inner: n, elem: PhantomData }
    }

    /// The number of distinct encodings of sequences of length at most
    /// `width`: one more than the largest such encoding.
    pub fn size_for(width: usize) -> (r: usize)
        requires
            max_code(T::count_spec() as int, width as int) < usize::MAX,
        ensures
            r == max_code(T::count_spec() as int, width as int) + 1,
    {
        let count = T::count();
        let mut i: usize = width;
        let mut max: usize = 0;
        while i > 0
            invariant
                max == max_code(count as int, width - i),
                max_code(count as int, width as int) < usize::MAX,
                count == T::count_spec(),
                i <= width,
            decreases i,
        {
            proof {
                lemma_max_code_mono(count as int, (width - i) as int + 1, width as int);
            }
            max = max * count as usize + count as usize;
            i = i - 1;
        }
        max + 1
    }

    /// Appends `tok`.
    pub fn push(&mut self, tok: &T)
        requires
            old(self).encoding() * T::count_spec() + tok.index_spec() + 1 <= u32::MAX,
        ensures
            final(self).wf(),
            final(self).encoding() == old(self).encoding() * T::count_spec()
                + tok.index_spec() + 1,
            final(self)@ == old(self)@.push(*tok),
    {
        let count = T::count();
        let v = tok.index();
        self.inner = self.inner * count + v + 1;
        proof {
            let c = T::count_spec() as int;
            let p = old(self).encoding();
            lemma_div_mod_cancel(p, c, v as int);
            tok.lemma_index_valid();
            assert(self@ =~= old(self)@.push(*tok));
        }
    }

    /// Removes and returns the last token.
    pub fn pop(&mut self) -> (r: T)
        requires
            old(self)@.len() > 0,
        ensures
            final(self).wf(),
            r == old(self)@.last(),
            final(self)@ == old(self)@.drop_last(),
            final(self).encoding() == (old(self).encoding() - 1) / T::count_spec() as int,
    {
        proof {
            // A nonempty view rules out both a zero encoding and an empty
            // alphabet.
            assert(self.inner != 0 && T::count_spec() != 0);
        }
        let count = T::count();
        let v = (self.inner - 1) % count;
        let tok = T::variant(v);
        self.inner = (self.inner - 1) / count;
        proof {
            assert(old(self)@ == self@.push(T::variant_spec(v)));
            assert(self@ =~= old(self)@.drop_last());
        }
        tok
    }

    /// The length of the sequence, found by repeated division.
    pub fn len(&self) -> (r: u32)
        ensures
            r == self@.len(),
    {
        let count = T::count();
        if count == 0 {
            return 0;
        }
        let mut seq: u32 = self.inner;
        let mut len: u32 = 0;
        proof {
            lemma_decode_len_bound::<T>(self.inner as nat);
        }
        while seq != 0
            invariant
                count == T::count_spec(),
                count > 0,
                len + seq_decode::<T>(seq as nat).len() == self@.len(),
                len <= self@.len() <= u32::MAX,
            decreases seq,
        {
            proof {
                lemma_decode_len_bound::<T>(seq as nat);
            }
            seq = (seq - 1) / count;
            len = len + 1;
        }
        len
    }

    /// Whether the sequence is empty.
    pub fn is_empty(&self) -> (r: bool)
        requires
            self.wf(),
        ensures
            r == (self@.len() == 0),
    {
        self.inner == 0
    }

    /// The scalar encoding, as the stored width.
    pub fn to_u32(&self) -> (r: u32)
        ensures
            r == self.encoding(),
    {
        self.inner
    }

    /// The scalar encoding, for array and map addressing.
    pub fn as_usize(&self) -> (r: usize)
        ensures
            r == self.encoding(),
    {
        self.inner as usize
    }

    /// The tokens of the sequence, in push order.
    pub fn to_tokens(&self) -> (r: Vec<T>)
        requires
            self.wf(),
        ensures
            r@ == self@,
    {
        let mut rest = TokenSeq { inner: self.inner, elem: PhantomData };
        let mut rev: Vec<T> = Vec::new();
        while !rest.is_empty()
            invariant
                rest.wf(),
                rest@.len() + rev@.len() == self@.len(),
                forall|i: int|
                    0 <= i < rev@.len() ==> #[trigger] rev@[i] == self@[self@.len() - 1 - i],
                forall|i: int| 0 <= i < rest@.len() ==> #[trigger] rest@[i] == self@[i],
            decreases rest@.len(),
        {
            let tok = rest.pop();
            rev.push(tok);
        }
        let mut toks: Vec<T> = Vec::new();
        while rev.len() > 0
            invariant
                toks@.len() + rev@.len() == self@.len(),
                forall|j: int| 0 <= j < toks@.len() ==> #[trigger] toks@[j] == self@[j],
                forall|j: int|
                    0 <= j < rev@.len() ==> #[trigger] rev@[j] == self@[self@.len() - 1 - j],
            decreases rev@.len(),
        {
            if let Some(tok) = rev.pop() {
                toks.push(tok);
            }
        }
        proof {
            assert(toks@ =~= self@);
        }
        toks
    }
}

/// The length of a decoded sequence never exceeds the scalar it decodes.
proof fn lemma_decode_len_bound<T: VariantIndex>(n: nat)
    ensures
        seq_decode::<T>(n).len() <= n,
        n != 0 && T::count_spec() != 0 ==> seq_decode::<T>(n).len() >= 1
            && seq_decode::<T>(((n - 1) as int / T::count_spec() as int) as nat)
                == seq_decode::<T>(n).drop_last(),
    decreases n,
{
    if n != 0 && T::count_spec() != 0 {
        let c = T::count_spec() as int;
        let m = ((n - 1) as int / c) as nat;
        assert((n - 1) as int / c <= (n - 1) as int) by (nonlinear_arith)
            requires
                c >= 1,
                n >= 1,
        ;
        assert((n - 1) as int / c >= 0) by (nonlinear_arith)
            requires
                c >= 1,
                n >= 1,
        ;
        lemma_decode_len_bound::<T>(m);
        assert(seq_decode::<T>(n).drop_last() =~= seq_decode::<T>(m));
    }
}

/// Larger widths never shrink the largest code.
proof fn lemma_max_code_mono(count: int, w1: int, w2: int)
    requires
        count >= 0,
        0 <= w1 <= w2,
    ensures
        max_code(count, w1) <= max_code(count, w2),
        max_code(count, w1) >= 0,
    decreases w2,
{
    if w1 > 0 && w2 > 0 {
        lemma_max_code_mono(count, w1 - 1, w2 - 1);
        assert(max_code(count, w1 - 1) * count <= max_code(count, w2 - 1) * count)
            by (nonlinear_arith)
            requires
                count >= 0,
                max_code(count, w1 - 1) <= max_code(count, w2 - 1),
        ;
        assert(max_code(count, w1 - 1) * count >= 0) by (nonlinear_arith)
            requires
                count >= 0,
                max_code(count, w1 - 1) >= 0,
        ;
    } else if w2 > 0 {
        lemma_max_code_mono(count, 0, w2 - 1);
        assert(max_code(count, w2 - 1) * count >= 0) by (nonlinear_arith)
            requires
                count >= 0,
                max_code(count, w2 - 1) >= 0,
        ;
    }
}

} // verus!
