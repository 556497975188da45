//! Maps raw characters or bytes to the three tokens, skipping everything
//! else, and the token sources built on such mappings.

use crate::text::iter::{ByteIterator, EncodingError, Lexer, Utf8Iterator};
use crate::ws::token::Token;
use vstd::prelude::*;

verus! {

/// An assignment of one raw value to each token. The three values are
/// pairwise distinct, so the mapping is unambiguous.
#[derive(Clone, Copy, Debug, PartialEq, Eq, Hash)]
pub struct Mapping<T> {
    s: T,
    t: T,
    l: T,
}

/// The token a raw value maps to, if any.
pub open spec fn map_spec<T>(m: Mapping<T>, v: T) -> Option<Token> {
    if v == m.value_spec(Token::S) {
        Some(Token::S)
    } else if v == m.value_spec(Token::T) {
        Some(Token::T)
    } else if v == m.value_spec(Token::L) {
        Some(Token::L)
    } else {
        None
    }
}

impl<T> Mapping<T> {
    /// The raw value assigned to a token.
    pub closed spec fn value_spec(&self, tok: Token) -> T {
        match tok {
            Token::S => self.s,
            Token::T => self.t,
            Token::L => self.l,
        }
    }

    pub open spec fn wf(&self) -> bool {
        &&& self.value_spec(Token::S) != self.value_spec(Token::T)
        &&& self.value_spec(Token::S) != self.value_spec(Token::L)
        &&& self.value_spec(Token::T) != self.value_spec(Token::L)
    }
}

impl Mapping<char> {
    /// A mapping from three distinct characters; `None` when any two
    /// coincide.
    pub fn new(s: char, t: char, l: char) -> (r: Option<Self>)
        ensures
            match r {
                Some(m) => s != t && s != l && t != l && m.wf() && m.value_spec(Token::S) == s
                    && m.value_spec(Token::T) == t && m.value_spec(Token::L) == l,
                None => s == t || s == l || t == l,
            },
    {
        if s == t || s == l || t == l {
            None
        } else {
            Some(Mapping { s, t, l })
        }
    }

    /// The mapping that writes each token as its initial.
    pub fn stl() -> (r: Self)
        ensures
            r.wf(),
            r.value_spec(Token::S) == 'S' && r.value_spec(Token::T) == 'T' && r.value_spec(
                Token::L,
            ) == 'L',
    {
        Mapping { s: 'S', t: 'T', l: 'L' }
    }

    /// The token a character maps to, if any.
    pub fn map(&self, v: char) -> (r: Option<Token>)
        ensures
            r == map_spec(*self, v),
    {
        if v == self.s {
            Some(Token::S)
        } else if v == self.t {
            Some(Token::T)
        } else if v == self.l {
            Some(Token::L)
        } else {
            None
        }
    }

    /// The character assigned to a token.
    pub fn map_token(&self, tok: Token) -> (r: char)
        ensures
            r == self.value_spec(tok),
    {
        match tok {
            Token::S => self.s,
            Token::T => self.t,
            Token::L => self.l,
        }
    }
}

impl Default for Mapping<char> {
    /// The language's own spelling: space, tab, line feed.
    fn default() -> (r: Self)
        ensures
            r.wf(),
            r.value_spec(Token::S) == ' ' && r.value_spec(Token::T) == '\t' && r.value_spec(
                Token::L,
            ) == '\n',
    {
        Mapping { s: ' ', t: '\t', l: '\n' }
    }
}

impl Mapping<u8> {
    /// A mapping from three distinct bytes; `None` when any two coincide.
    pub fn new(s: u8, t: u8, l: u8) -> (r: Option<Self>)
        ensures
            match r {
                Some(m) => s != t && s != l && t != l && m.wf() && m.value_spec(Token::S) == s
                    && m.value_spec(Token::T) == t && m.value_spec(Token::L) == l,
                None => s == t || s == l || t == l,
            },
    {
        if s == t || s == l || t == l {
            None
        } else {
            Some(Mapping { s, t, l })
        }
    }

    /// The mapping that writes each token as its initial.
    pub fn stl() -> (r: Self)
        ensures
            r.wf(),
            r.value_spec(Token::S) == 83u8 && r.value_spec(Token::T) == 84u8 && r.value_spec(
                Token::L,
            ) == 76u8,
    {
        Mapping { s: 83, t: 84, l: 76 }
    }

    /// The token a byte maps to, if any.
    pub fn map(&self, v: u8) -> (r: Option<Token>)
        ensures
            r == map_spec(*self, v),
    {
        if v == self.s {
            Some(Token::S)
        } else if v == self.t {
            Some(Token::T)
        } else if v == self.l {
            Some(Token::L)
        } else {
            None
        }
    }

    /// The byte assigned to a token.
    pub fn map_token(&self, tok: Token) -> (r: u8)
        ensures
            r == self.value_spec(tok),
    {
        match tok {
            Token::S => self.s,
            Token::T => self.t,
            Token::L => self.l,
        }
    }
}

impl Default for Mapping<u8> {
    /// The language's own spelling: space, tab, line feed.
    fn default() -> (r: Self)
        ensures
            r.wf(),
            r.value_spec(Token::S) == 32u8 && r.value_spec(Token::T) == 9u8 && r.value_spec(
                Token::L,
            ) == 10u8,
    {
        Mapping { s: 32, t: 9, l: 10 }
    }
}

/// The tokens a raw item stream maps to: mapped values become tokens,
/// unmapped ones are skipped, and errors pass through.
pub open spec fn mapped_stream<T>(m: Mapping<T>, s: Seq<Result<T, EncodingError>>) -> Seq<
    Result<Token, EncodingError>,
>
    decreases s.len(),
{
    if s.len() == 0 {
        Seq::empty()
    } else {
        let rest = mapped_stream(m, s.drop_first());
        match s[0] {
            Err(e) => seq![Err::<Token, EncodingError>(e)] + rest,
            Ok(v) => match map_spec(m, v) {
                Some(tok) => seq![Ok::<Token, EncodingError>(tok)] + rest,
                None => rest,
            },
        }
    }
}

/// A token source that maps each raw item of an underlying source to a
/// token, skipping items outside the mapping.
#[derive(Debug)]
pub struct MappingLexer<I, T> {
    iter: I,
    map: Mapping<T>,
}

impl<I, T> MappingLexer<I, T> {
    pub closed spec fn map_of(&self) -> Mapping<T> {
        self.map
    }

    pub closed spec fn inner_spec(&self) -> I {
        self.iter
    }

    pub fn new(iter: I, map: Mapping<T>) -> (r: Self)
        ensures
            r.map_of() == map,
            r.inner_spec() == iter,
    {
        MappingLexer { iter, map }
    }
}

impl MappingLexer<Utf8Iterator, char> {
    /// A token source over UTF-8 text.
    pub fn new_utf8(src: Vec<u8>, map: Mapping<char>, error_once: bool) -> (r: Self)
        ensures
            r.remaining() == mapped_stream(
                map,
                crate::text::iter::utf8_stream(src@, 0, false, error_once),
            ),
    {
        MappingLexer { iter: Utf8Iterator::new(src, error_once), map }
    }
}

impl MappingLexer<ByteIterator, u8> {
    /// A token source over raw bytes.
    pub fn new_bytes(src: Vec<u8>, map: Mapping<u8>) -> (r: Self)
        ensures
            r.remaining() == mapped_stream(
                map,
                src@.map_values(|b: u8| Ok::<u8, EncodingError>(b)),
            ),
    {
        let iter = ByteIterator::new(src);
        proof {
            assert(iter.remaining() =~= src@.map_values(|b: u8| Ok::<u8, EncodingError>(b)));
        }
        MappingLexer { iter, map }
    }
}

/// An assignment of one byte sequence to each token. No pattern is a
/// prefix of another (and none is empty), so a match is never ambiguous.
#[derive(Debug, PartialEq, Eq, Hash)]
pub struct BytesMapping {
    s: Vec<u8>,
    t: Vec<u8>,
    l: Vec<u8>,
}

/// One byte sequence begins with the other, whichever is shorter.
pub open spec fn either_prefix(a: Seq<u8>, b: Seq<u8>) -> bool {
    forall|i: int| 0 <= i < a.len() && i < b.len() ==> a[i] == b[i]
}

impl BytesMapping {
    /// The byte pattern assigned to a token.
    pub closed spec fn pattern_spec(&self, tok: Token) -> Seq<u8> {
        match tok {
            Token::S => self.s@,
            Token::T => self.t@,
            Token::L => self.l@,
        }
    }

    /// No pattern is a prefix of another; every value of the type holds
    /// this, since the one constructor checks it.
    #[verifier::type_invariant]
    pub closed spec fn wf(&self) -> bool {
        &&& !either_prefix(self.pattern_spec(Token::S), self.pattern_spec(Token::T))
        &&& !either_prefix(self.pattern_spec(Token::S), self.pattern_spec(Token::L))
        &&& !either_prefix(self.pattern_spec(Token::T), self.pattern_spec(Token::L))
    }

    /// A mapping from three byte patterns, none a prefix of another;
    /// `None` when two overlap that way.
    pub fn new(s: Vec<u8>, t: Vec<u8>, l: Vec<u8>) -> (r: Option<Self>)
        ensures
            match r {
                Some(m) => m.wf() && m.pattern_spec(Token::S) == s@ && m.pattern_spec(Token::T)
                    == t@ && m.pattern_spec(Token::L) == l@,
                None => either_prefix(s@, t@) || either_prefix(s@, l@) || either_prefix(t@, l@),
            },
    {
        if Self::is_prefix(&s, &t) || Self::is_prefix(&s, &l) || Self::is_prefix(&t, &l) {
            None
        } else {
            Some(BytesMapping { s, t, l })
        }
    }

    /// Whether one sequence begins with the other, whichever is shorter.
    fn is_prefix(s1: &Vec<u8>, s2: &Vec<u8>) -> (r: bool)
        ensures
            r == either_prefix(s1@, s2@),
    {
        let n = if s1.len() < s2.len() {
            s1.len()
        } else {
            s2.len()
        };
        let mut i: usize = 0;
        while i < n
            invariant
                n <= s1@.len() && n <= s2@.len(),
                n == s1@.len() || n == s2@.len(),
                i <= n,
                forall|k: int| 0 <= k < i ==> s1@[k] == s2@[k],
            decreases n - i,
        {
            if s1[i] != s2[i] {
                return false;
            }
            i = i + 1;
        }
        true
    }

    /// The token whose pattern starts the input, and the pattern's length;
    /// tried in order: space, tab, line feed.
    pub fn map(&self, v: &[u8]) -> (r: Option<(Token, usize)>)
        ensures
            r == bytes_map_spec(*self, v@),
    {
        if starts_with(v, &self.s) {
            Some((Token::S, self.s.len()))
        } else if starts_with(v, &self.t) {
            Some((Token::T, self.t.len()))
        } else if starts_with(v, &self.l) {
            Some((Token::L, self.l.len()))
        } else {
            None
        }
    }

    /// The byte pattern assigned to a token.
    pub fn map_token(&self, tok: Token) -> (r: &Vec<u8>)
        ensures
            r@ == self.pattern_spec(tok),
    {
        match tok {
            Token::S => &self.s,
            Token::T => &self.t,
            Token::L => &self.l,
        }
    }
}

/// Whether `v` begins with the whole of `p`.
pub open spec fn starts_with_spec(v: Seq<u8>, p: Seq<u8>) -> bool {
    p.len() <= v.len() && forall|i: int| 0 <= i < p.len() ==> v[i] == p[i]
}

fn starts_with(v: &[u8], p: &Vec<u8>) -> (r: bool)
    ensures
        r == starts_with_spec(v@, p@),
{
    if p.len() > v.len() {
        return false;
    }
    let n = p.len();
    let mut i: usize = 0;
    while i < n
        invariant
            n == p@.len() <= v@.len(),
            i <= n,
            forall|k: int| 0 <= k < i ==> v@[k] == p@[k],
        decreases n - i,
    {
        if v[i] != p[i] {
            return false;
        }
        i = i + 1;
    }
    true
}

/// The token matched at the head of the input, if any.
pub open spec fn bytes_map_spec(m: BytesMapping, v: Seq<u8>) -> Option<(Token, usize)> {
    if starts_with_spec(v, m.pattern_spec(Token::S)) {
        Some((Token::S, m.pattern_spec(Token::S).len() as usize))
    } else if starts_with_spec(v, m.pattern_spec(Token::T)) {
        Some((Token::T, m.pattern_spec(Token::T).len() as usize))
    } else if starts_with_spec(v, m.pattern_spec(Token::L)) {
        Some((Token::L, m.pattern_spec(Token::L).len() as usize))
    } else {
        None
    }
}

/// The tokens a byte buffer spells under a byte-pattern mapping: at each
/// position, the matching pattern's token, or one byte skipped.
pub open spec fn bytes_lexer_stream(m: BytesMapping, src: Seq<u8>, offset: int) -> Seq<
    Result<Token, EncodingError>,
>
    decreases src.len() - offset,
{
    if offset < 0 || offset >= src.len() {
        Seq::empty()
    } else {
        match bytes_map_spec(m, src.skip(offset)) {
            Some((tok, size)) => {
                let step: int = if 1 <= size <= src.len() - offset {
                    size as int
                } else {
                    1
                };
                seq![Ok::<Token, EncodingError>(tok)] + bytes_lexer_stream(m, src, offset + step)
            },
            None => bytes_lexer_stream(m, src, offset + 1),
        }
    }
}

/// A token source that matches byte patterns against a buffer, skipping
/// bytes that begin no pattern.
#[derive(Debug)]
pub struct BytesMappingLexer {
    src: Vec<u8>,
    offset: usize,
    map: BytesMapping,
}

impl BytesMappingLexer {
    pub fn new(src: Vec<u8>, map: BytesMapping) -> (r: Self)
        ensures
            r.remaining() == bytes_lexer_stream(map, src@, 0),
    {
        BytesMappingLexer { src, offset: 0, map }
    }
}

impl Lexer for BytesMappingLexer {
    type Tok = Token;

    closed spec fn remaining(&self) -> Seq<Result<Token, EncodingError>> {
        bytes_lexer_stream(self.map, self.src@, self.offset as int)
    }

    fn next(&mut self) -> (r: Option<Result<Token, EncodingError>>)
        ensures
            old(self).remaining().len() == 0 ==> r is None && final(self).remaining()
                == old(self).remaining(),
            old(self).remaining().len() > 0 ==> r == Some(old(self).remaining()[0])
                && final(self).remaining() == old(self).remaining().drop_first(),
    {
        loop
            invariant
                self.map == old(self).map,
                self.src@ == old(self).src@,
                bytes_lexer_stream(self.map, self.src@, self.offset as int) == old(
                    self,
                ).remaining(),
            decreases
                    (if self.offset <= self.src@.len() {
                        self.src@.len() - self.offset
                    } else {
                        0
                    }),
        {
            if self.offset >= self.src.len() {
                return None;
            }
            let ghost pre = self.offset as int;
            match map_at(&self.map, &self.src, self.offset) {
                Some((tok, size)) => {
                    proof {
                        assert(1 <= size <= self.src@.len() - pre);
                    }
                    self.offset = self.offset + size;
                    proof {
                        assert(self.remaining() =~= old(self).remaining().drop_first());
                    }
                    return Some(Ok(tok));
                },
                None => {
                    self.offset = self.offset + 1;
                },
            }
        }
    }
}

/// The mapping's match at position `offset` of the buffer.
fn map_at(m: &BytesMapping, src: &Vec<u8>, offset: usize) -> (r: Option<(Token, usize)>)
    requires
        offset < src@.len(),
    ensures
        r == bytes_map_spec(*m, src@.skip(offset as int)),
        r matches Some((_, size)) ==> 1 <= size <= src@.len() - offset,
    {
        let mut rest: Vec<u8> = Vec::new();
        let mut i: usize = offset;
        let n = src.len();
        while i < n
            invariant
                offset <= i <= n,
                n == src@.len(),
                rest@ == src@.subrange(offset as int, i as int),
            decreases n - i,
        {
            rest.push(src[i]);
            proof {
                assert(rest@ =~= src@.subrange(offset as int, i + 1));
            }
            i = i + 1;
        }
        proof {
            assert(rest@ =~= src@.skip(offset as int));
        }
        let r = m.map(rest.as_slice());
        proof {
            use_type_invariant(m);
            match r {
                Some((tok, size)) => {
                    // a matched pattern fits in the rest, and patterns are
                    // nonempty: an empty one would prefix the others
                    assert(size <= rest@.len());
                    if size == 0 {
                        assert(m.pattern_spec(tok).len() == 0);
                        assert(either_prefix(m.pattern_spec(Token::S), m.pattern_spec(Token::T))
                            || either_prefix(m.pattern_spec(Token::S), m.pattern_spec(Token::L))
                            || either_prefix(
                            m.pattern_spec(Token::T),
                            m.pattern_spec(Token::L),
                        ));
                    }
                },
                None => {},
            }
        }
        r
    }

impl<I: Lexer<Tok = char>> Lexer for MappingLexer<I, char> {
    type Tok = Token;

    closed spec fn remaining(&self) -> Seq<Result<Token, EncodingError>> {
        mapped_stream(self.map, self.iter.remaining())
    }

    fn next(&mut self) -> (r: Option<Result<Token, EncodingError>>)
        ensures
            old(self).remaining().len() == 0 ==> r is None && final(self).remaining()
                == old(self).remaining(),
            old(self).remaining().len() > 0 ==> r == Some(old(self).remaining()[0])
                && final(self).remaining() == old(self).remaining().drop_first(),
    {
        loop
            invariant
                self.map == old(self).map_of(),
                mapped_stream(self.map, self.iter.remaining()) == old(self).remaining(),
            decreases self.iter.remaining().len(),
        {
            match self.iter.next() {
                None => {
                    return None;
                },
                Some(Err(e)) => {
                    return Some(Err(e));
                },
                Some(Ok(v)) => {
                    match self.map.map(v) {
                        Some(tok) => {
                            return Some(Ok(tok));
                        },
                        None => {
                        },
                    }
                },
            }
        }
    }
}

impl<I: Lexer<Tok = u8>> Lexer for MappingLexer<I, u8> {
    type Tok = Token;

    closed spec fn remaining(&self) -> Seq<Result<Token, EncodingError>> {
        mapped_stream(self.map, self.iter.remaining())
    }

    fn next(&mut self) -> (r: Option<Result<Token, EncodingError>>)
        ensures
            old(self).remaining().len() == 0 ==> r is None && final(self).remaining()
                == old(self).remaining(),
            old(self).remaining().len() > 0 ==> r == Some(old(self).remaining()[0])
                && final(self).remaining() == old(self).remaining().drop_first(),
    {
        loop
            invariant
                self.map == old(self).map_of(),
                mapped_stream(self.map, self.iter.remaining()) == old(self).remaining(),
            decreases self.iter.remaining().len(),
        {
            match self.iter.next() {
                None => {
                    return None;
                },
                Some(Err(e)) => {
                    return Some(Err(e));
                },
                Some(Ok(v)) => {
                    match self.map.map(v) {
                        Some(tok) => {
                            return Some(Ok(tok));
                        },
                        None => {
                        },
                    }
                },
            }
        }
    }
}

} // verus!
