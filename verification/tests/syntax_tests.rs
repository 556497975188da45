use std::fmt::Debug;

use nebula2::syntax::token_seq::TokenSeq;
use nebula2::syntax::variant::{VariantIndex, VariantRange};
use nebula2::ws::token::Token;
use nebula2::ws::token::Token::{L, S, T};

/// The range formatted the way the original pretty-printer wrote it.
fn range_debug<E: VariantIndex + Debug>(r: &VariantRange<E>) -> String {
    if E::count() == 0 {
        "..".to_string()
    } else {
        let s = r.start_index();
        let e = r.end_index();
        if e == 0 || s >= e {
            format!("{:?}..{:?}", E::variant(s), E::variant(e))
        } else {
            format!("{:?}..={:?}", E::variant(s), E::variant(e - 1))
        }
    }
}

#[derive(Debug, PartialEq, Eq)]
enum Zero {}

impl VariantIndex for Zero {
    // the ghost members are never evaluated outside verification
    fn count_spec() -> u32 {
        0
    }
    fn index_spec(&self) -> u32 {
        0
    }
    fn variant_spec(_index: u32) -> Self {
        unreachable!()
    }
    fn lemma_index_valid(&self) {
    }
    fn count() -> u32 {
        0
    }
    fn variant(_index: u32) -> Self {
        unreachable!()
    }
    fn index(&self) -> u32 {
        match *self {}
    }
}

#[test]
fn iter_no_variants() {
    let mut iter = VariantRange::<Zero>::full();
    assert_eq!("..", range_debug(&iter));
    assert_eq!(None, iter.next());
}

#[derive(Debug, PartialEq, Eq)]
enum One {
    V,
}

impl VariantIndex for One {
    // the ghost members are never evaluated outside verification
    fn count_spec() -> u32 {
        1
    }
    fn index_spec(&self) -> u32 {
        0
    }
    fn variant_spec(_index: u32) -> Self {
        One::V
    }
    fn lemma_index_valid(&self) {
    }
    fn count() -> u32 {
        1
    }
    fn variant(_index: u32) -> Self {
        One::V
    }
    fn index(&self) -> u32 {
        0
    }
}

#[test]
fn iter_one_variant() {
    let mut iter = VariantRange::<One>::full();
    assert_eq!("V..=V", range_debug(&iter));
    assert_eq!(Some(One::V), iter.next());
    assert_eq!("V..V", range_debug(&iter));
    iter = VariantRange::<One>::full();
    assert_eq!(Some(One::V), iter.next_back());
    assert_eq!("V..V", range_debug(&iter));
}

#[test]
fn iter_three_variants() {
    let mut iter = VariantRange::<Token>::full();
    assert_eq!("S..=L", range_debug(&iter));
    assert_eq!(Some(Token::S), iter.next());
    assert_eq!("T..=L", range_debug(&iter));
    assert_eq!(Some(Token::L), iter.next_back());
    assert_eq!("T..=T", range_debug(&iter));
    assert_eq!(Some(Token::T), iter.next());
    assert_eq!("L..L", range_debug(&iter));
    assert_eq!(None, iter.next());
}

#[test]
fn iter_out_of_order() {
    let mut iter = VariantRange::new(&Token::L, &Token::S);
    assert_eq!("L..T", range_debug(&iter));
    assert_eq!(None, iter.next());
}

#[test]
fn convert() {
    let seqs: Vec<Vec<Token>> = vec![
        vec![],
        vec![S],
        vec![T],
        vec![L],
        vec![S, S],
        vec![S, T],
        vec![S, L],
        vec![T, S],
        vec![T, T],
        vec![T, L],
        vec![L, S],
        vec![L, T],
        vec![L, L],
        vec![S, S, S],
        vec![S, S, T],
        vec![S, S, L],
        vec![S, T, S],
        vec![S, T, T],
        vec![S, T, L],
        vec![S, L, S],
        vec![S, L, T],
        vec![S, L, L],
        vec![T, S, S],
        vec![T, S, T],
        vec![T, S, L],
        vec![T, T, S],
        vec![T, T, T],
        vec![T, T, L],
        vec![T, L, S],
        vec![T, L, T],
        vec![T, L, L],
        vec![L, S, S],
        vec![L, S, T],
        vec![L, S, L],
        vec![L, T, S],
        vec![L, T, T],
        vec![L, T, L],
        vec![L, L, S],
        vec![L, L, T],
        vec![L, L, L],
    ];
    for (i, toks) in seqs.iter().enumerate() {
        let seq = TokenSeq::<Token>::from_encoding(i as u32);
        let mut seq2 = TokenSeq::<Token>::new();
        for tok in toks {
            seq2.push(tok);
        }
        assert_eq!(seq, seq2, "sequence built from tokens {:?}", toks);
        let toks2 = seq.to_tokens();
        assert_eq!(toks, &toks2, "tokens recovered from encoding {}", i);
    }
}

#[test]
fn encode_round_trip() {
    // pushing and popping recovers the sequence, last token first
    let mut seq = TokenSeq::<Token>::new();
    seq.push(&S);
    seq.push(&T);
    seq.push(&L);
    assert_eq!(3, seq.len());
    assert!(!seq.is_empty());
    assert_eq!(L, seq.pop());
    assert_eq!(T, seq.pop());
    assert_eq!(S, seq.pop());
    assert!(seq.is_empty());
}

#[test]
fn encoding_values() {
    // the scalar encoding from the data model: [] is 0, [S] 1, [T] 2,
    // [L] 3, [S, S] 4
    let mut s = TokenSeq::<Token>::new();
    assert_eq!(0, s.as_usize());
    s.push(&S);
    assert_eq!(1, s.as_usize());
    let mut t = TokenSeq::<Token>::new();
    t.push(&T);
    assert_eq!(2, t.as_usize());
    let mut l = TokenSeq::<Token>::new();
    l.push(&L);
    assert_eq!(3, l.as_usize());
    s.push(&S);
    assert_eq!(4, s.as_usize());
}

#[test]
fn size_for_widths() {
    // 1 + 3 + 9 + 27 encodings for sequences of length at most 3
    assert_eq!(1, TokenSeq::<Token>::size_for(0));
    assert_eq!(4, TokenSeq::<Token>::size_for(1));
    assert_eq!(13, TokenSeq::<Token>::size_for(2));
    assert_eq!(40, TokenSeq::<Token>::size_for(3));
}
