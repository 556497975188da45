use vstd::prelude::*;

verus! {

/// An error reported by a token source in place of a token: the underlying
/// text held a byte sequence that is not valid in its encoding. An invalid
/// UTF-8 sequence spans at most three bytes; `len` says how many of the
/// carried bytes are meaningful.
#[derive(Clone, Copy, Debug, PartialEq, Eq, Hash, Structural)]
pub enum EncodingError {
    InvalidUtf8 { b0: u8, b1: u8, b2: u8, len: u8 },
}

/// A pull-based token source: each call to `next` yields the first item of
/// `remaining` — a token, or an encoding error — or `None` at the end.
///
/// The decoder is written against this trait alone, so its contracts hold
/// for every source that meets it.
pub trait Lexer: Sized {
    type Tok;

    /// The items this source will still yield, in order.
    spec fn remaining(&self) -> Seq<Result<Self::Tok, EncodingError>>;

    fn next(&mut self) -> (r: Option<Result<Self::Tok, EncodingError>>)
        ensures
            old(self).remaining().len() == 0 ==> r is None && final(self).remaining()
                == old(self).remaining(),
            old(self).remaining().len() > 0 ==> r == Some(old(self).remaining()[0])
                && final(self).remaining() == old(self).remaining().drop_first(),
    ;
}

/// A token source over an explicit list of items, consumed front to back.
pub struct VecLexer<T> {
    items: Vec<Result<T, EncodingError>>,
}

impl<T> VecLexer<T> {
    pub fn new(items: Vec<Result<T, EncodingError>>) -> (r: Self)
        ensures
            r.remaining() == items@,
    {
        VecLexer { items }
    }
}

impl<T: Copy> VecLexer<T> {
    /// Wraps plain tokens as an error-free source.
    pub fn from_tokens(toks: &Vec<T>) -> (r: Self)
        ensures
            r.remaining().len() == toks@.len(),
            forall|i: int|
                0 <= i < toks@.len() ==> #[trigger] r.remaining()[i] == Ok::<
                    T,
                    EncodingError,
                >(toks@[i]),
    {
        let mut items: Vec<Result<T, EncodingError>> = Vec::new();
        let mut i: usize = 0;
        let n = toks.len();
        while i < n
            invariant
                n == toks@.len(),
                i <= n,
                items@.len() == i,
                forall|j: int|
                    0 <= j < i ==> #[trigger] items@[j] == Ok::<T, EncodingError>(toks@[j]),
            decreases n - i,
        {
            items.push(Ok(toks[i]));
            i = i + 1;
        }
        VecLexer { items }
    }
}

impl<T> Lexer for VecLexer<T> {
    type Tok = T;

    closed spec fn remaining(&self) -> Seq<Result<T, EncodingError>> {
        self.items@
    }

    fn next(&mut self) -> (r: Option<Result<T, EncodingError>>)
        ensures
            old(self).remaining().len() == 0 ==> r is None && final(self).remaining()
                == old(self).remaining(),
            old(self).remaining().len() > 0 ==> r == Some(old(self).remaining()[0])
                && final(self).remaining() == old(self).remaining().drop_first(),
    {
        if self.items.len() > 0 {
            let item = self.items.remove(0);
            proof {
                assert(self.remaining() =~= old(self).remaining().drop_first());
            }
            Some(item)
        } else {
            None
        }
    }
}

/// The first UTF-8 character of a byte sequence and the number of bytes it
/// spans — or, for an invalid or incomplete sequence, no character and the
/// number of bytes to skip past it.
pub uninterp spec fn utf8_first(bytes: Seq<u8>) -> (Option<char>, usize);

/// Relies on `bstr::decode_utf8`: decodes the first UTF-8 character of the
/// slice from `offset` on. The result depends on the bytes alone. An empty
/// slice decodes to nothing and spans no bytes; a nonempty one always spans
/// at least one and at most four, never more than remain; an ASCII byte
/// decodes to itself and spans exactly one.
#[verifier::external_body]
pub(crate) fn decode_utf8_from(src: &[u8], offset: usize) -> (r: (Option<char>, usize))
    requires
        offset <= src@.len(),
    ensures
        r == utf8_first(src@.skip(offset as int)),
        offset == src@.len() ==> r.0 is None && r.1 == 0,
        offset < src@.len() ==> 1 <= r.1 <= 4 && offset + r.1 <= src@.len(),
        offset < src@.len() && src@[offset as int] < 128 ==> r.1 == 1 && (match r.0 {
            Some(c) => c as u32 == src@[offset as int] as u32,
            None => false,
        }),
        r.0 is None && offset < src@.len() ==> r.1 <= 3,
{
    bstr::decode_utf8(&src[offset..])
}

/// The byte at `i`, or zero past the end.
pub open spec fn byte_at(src: Seq<u8>, i: int) -> u8 {
    if 0 <= i < src.len() {
        src[i]
    } else {
        0
    }
}

/// The error reported for the invalid sequence of `size` bytes at `offset`.
pub open spec fn utf8_err_at(src: Seq<u8>, offset: int, size: int) -> EncodingError {
    EncodingError::InvalidUtf8 {
        b0: if size >= 1 {
            byte_at(src, offset)
        } else {
            0
        },
        b1: if size >= 2 {
            byte_at(src, offset + 1)
        } else {
            0
        },
        b2: if size >= 3 {
            byte_at(src, offset + 2)
        } else {
            0
        },
        len: size as u8,
    }
}

/// The items UTF-8 decoding yields from `offset` on: each valid character,
/// and for each invalid sequence an error — or, when one error was already
/// reported and the source reports errors only once, the end of the stream.
pub open spec fn utf8_stream(src: Seq<u8>, offset: int, errored: bool, once: bool) -> Seq<
    Result<char, EncodingError>,
>
    decreases src.len() - offset,
{
    if offset < 0 || offset >= src.len() {
        Seq::empty()
    } else {
        let d = utf8_first(src.skip(offset));
        let size = d.1 as int;
        let step: int = if 1 <= size <= src.len() - offset {
            size
        } else {
            1
        };
        match d.0 {
            Some(c) => seq![Ok::<char, EncodingError>(c)] + utf8_stream(
                src,
                offset + step,
                errored,
                once,
            ),
            None => {
                if !errored || !once {
                    seq![Err::<char, EncodingError>(utf8_err_at(src, offset, step))]
                        + utf8_stream(src, offset + step, true, once)
                } else {
                    Seq::empty()
                }
            },
        }
    }
}

/// A token source that decodes a byte buffer as UTF-8, yielding characters
/// and, for each invalid sequence, an encoding error. With `error_once`, a
/// second invalid sequence ends the stream instead.
#[derive(Debug)]
pub struct Utf8Iterator {
    src: Vec<u8>,
    offset: usize,
    valid_to: Option<usize>,
    error_once: bool,
}

impl Utf8Iterator {
    pub closed spec fn offset_spec(&self) -> int {
        self.offset as int
    }

    pub closed spec fn src_spec(&self) -> Seq<u8> {
        self.src@
    }

    /// The position of the first invalid sequence, where one was seen.
    pub closed spec fn valid_to_spec(&self) -> Option<usize> {
        self.valid_to
    }

    pub fn new(src: Vec<u8>, error_once: bool) -> (r: Self)
        ensures
            r.src_spec() == src@,
            r.offset_spec() == 0,
            r.valid_to_spec() is None,
            r.remaining() == utf8_stream(src@, 0, false, error_once),
    {
        Utf8Iterator { src, offset: 0, valid_to: None, error_once }
    }

    /// How many bytes have been consumed.
    pub fn offset(&self) -> (r: usize)
        ensures
            r == self.offset_spec(),
    {
        self.offset
    }

    /// The end of the longest valid prefix: the position of the first
    /// invalid sequence, or of the read so far when all of it was valid.
    pub fn valid_to(&self) -> (r: usize)
        ensures
            r == (match self.valid_to_spec() {
                Some(v) => v as int,
                None => self.offset_spec(),
            }),
    {
        match self.valid_to {
            Some(v) => v,
            None => self.offset,
        }
    }
}

impl Lexer for Utf8Iterator {
    type Tok = char;

    closed spec fn remaining(&self) -> Seq<Result<char, EncodingError>> {
        utf8_stream(self.src@, self.offset as int, self.valid_to is Some, self.error_once)
    }

    fn next(&mut self) -> (r: Option<Result<char, EncodingError>>)
        ensures
            old(self).remaining().len() == 0 ==> r is None && final(self).remaining()
                == old(self).remaining(),
            old(self).remaining().len() > 0 ==> r == Some(old(self).remaining()[0])
                && final(self).remaining() == old(self).remaining().drop_first(),
    {
        if self.offset >= self.src.len() {
            return None;
        }
        let d = decode_utf8_from(self.src.as_slice(), self.offset);
        let start = self.offset;
        match d.0 {
            Some(c) => {
                self.offset = start + d.1;
                proof {
                    assert(self.remaining() =~= old(self).remaining().drop_first());
                }
                Some(Ok(c))
            },
            None => {
                let report = match self.valid_to {
                    None => true,
                    Some(_) => !self.error_once,
                };
                if report {
                    if self.valid_to.is_none() {
                        self.valid_to = Some(start);
                    }
                    self.offset = start + d.1;
                    let e = EncodingError::InvalidUtf8 {
                        b0: if d.1 >= 1 {
                            self.src[start]
                        } else {
                            0
                        },
                        b1: if d.1 >= 2 {
                            self.src[start + 1]
                        } else {
                            0
                        },
                        b2: if d.1 >= 3 {
                            self.src[start + 2]
                        } else {
                            0
                        },
                        len: d.1 as u8,
                    };
                    proof {
                        assert(e == utf8_err_at(old(self).src@, start as int, d.1 as int));
                        assert(self.remaining() =~= old(self).remaining().drop_first());
                    }
                    Some(Err(e))
                } else {
                    // a second invalid sequence under `error_once` ends the
                    // stream
                    self.offset = self.src.len();
                    proof {
                        assert(old(self).remaining() =~= Seq::<
                            Result<char, EncodingError>,
                        >::empty());
                        assert(self.remaining() =~= old(self).remaining());
                    }
                    None
                }
            },
        }
    }
}

/// A token source that yields the bytes of a buffer, never erring.
pub struct ByteIterator {
    src: Vec<u8>,
    offset: usize,
}

impl ByteIterator {
    pub closed spec fn offset_spec(&self) -> int {
        self.offset as int
    }

    pub closed spec fn src_spec(&self) -> Seq<u8> {
        self.src@
    }

    pub fn new(src: Vec<u8>) -> (r: Self)
        ensures
            r.src_spec() == src@,
            r.offset_spec() == 0,
            r.remaining() == src@.map_values(|b: u8| Ok::<u8, EncodingError>(b)),
    {
        let r = ByteIterator { src, offset: 0 };
        proof {
            assert(r.remaining() =~= r.src@.map_values(|b: u8| Ok::<u8, EncodingError>(b)));
        }
        r
    }

    /// How many bytes have been consumed.
    pub fn offset(&self) -> (r: usize)
        ensures
            r == self.offset_spec(),
    {
        self.offset
    }
}

impl Lexer for ByteIterator {
    type Tok = u8;

    closed spec fn remaining(&self) -> Seq<Result<u8, EncodingError>> {
        if self.offset <= self.src@.len() {
            self.src@.skip(self.offset as int).map_values(
                |b: u8| Ok::<u8, EncodingError>(b),
            )
        } else {
            Seq::empty()
        }
    }

    fn next(&mut self) -> (r: Option<Result<u8, EncodingError>>)
        ensures
            old(self).remaining().len() == 0 ==> r is None && final(self).remaining()
                == old(self).remaining(),
            old(self).remaining().len() > 0 ==> r == Some(old(self).remaining()[0])
                && final(self).remaining() == old(self).remaining().drop_first(),
    {
        if self.offset < self.src.len() {
            let b = self.src[self.offset];
            self.offset = self.offset + 1;
            proof {
                assert(self.remaining() =~= old(self).remaining().drop_first());
            }
            Some(Ok(b))
        } else {
            None
        }
    }
}

} // verus!
