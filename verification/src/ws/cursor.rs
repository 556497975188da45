//! A peekable character cursor and the token scanner for assembly-style
//! surface syntax: comments in several styles, words, integer literals,
//! punctuation and whitespace.

use vstd::prelude::*;

verus! {

/// A scanned surface token: its kind and its size in characters.
#[derive(Clone, Copy, Debug, PartialEq, Eq)]
pub struct SurfaceToken {
    pub kind: TokenKind,
    pub len: u32,
}

/// What kind of surface token was scanned.
#[derive(Clone, Copy, Debug, PartialEq, Eq, Structural)]
pub enum TokenKind {
    LineComment { style: LineCommentStyle },
    BlockComment { style: BlockCommentStyle, terminated: bool },
    Word,
    /// An integer literal, with its base and whether any digits followed
    /// the base prefix.
    Int { base: Base, has_digits: bool },
    /// `:`
    Colon,
    /// Line feed
    Lf,
    /// A run of whitespace, line feeds excluded
    Whitespace,
    /// A character the scanner does not expect
    Unknown,
}

/// The comment styles that run to the end of the line.
#[derive(Clone, Copy, Debug, PartialEq, Eq, PartialOrd, Ord, Hash, Structural)]
pub enum LineCommentStyle {
    /// `//`
    SlashSlash,
    /// `--`
    DashDash,
    /// `#`
    Pound,
    /// `;`
    Semi,
}

/// The bracketed comment styles.
#[derive(Clone, Copy, Debug, PartialEq, Eq, PartialOrd, Ord, Hash, Structural)]
pub enum BlockCommentStyle {
    /// `/*` … `*/`
    SlashStar,
    /// `{-` … `-}`, nestable
    BraceDash,
    /// `(` … `)`
    Paren,
}

/// The base of an integer literal.
#[derive(Clone, Copy, Debug, PartialEq, Eq, PartialOrd, Ord, Hash, Structural)]
pub enum Base {
    Decimal,
    /// `0b` prefix
    Binary,
    /// `0o` prefix
    Octal,
    /// `0x` prefix
    Hexadecimal,
}

/// The whitespace characters, as the surface syntax counts them.
pub open spec fn is_space(c: char) -> bool {
    c == ' ' || c == '\t' || c == '\n' || c == '\u{B}' || c == '\u{C}' || c == '\r' || c
        == '\u{85}' || c == '\u{A0}' || c == '\u{1680}' || ('\u{2000}' <= c && c <= '\u{200A}')
        || c == '\u{2028}' || c == '\u{2029}' || c == '\u{202F}' || c == '\u{205F}' || c
        == '\u{3000}'
}

/// The control characters.
pub open spec fn is_ctl(c: char) -> bool {
    c <= '\u{1F}' || ('\u{7F}' <= c && c <= '\u{9F}')
}

/// Whether a character is part of a word: not whitespace, not a colon, not
/// a control character.
pub open spec fn is_word_char(c: char) -> bool {
    !is_space(c) && c != ':' && !is_ctl(c)
}

fn space(c: char) -> (r: bool)
    ensures
        r == is_space(c),
{
    c == ' ' || c == '\t' || c == '\n' || c == '\u{B}' || c == '\u{C}' || c == '\r' || c
        == '\u{85}' || c == '\u{A0}' || c == '\u{1680}' || ('\u{2000}' <= c && c <= '\u{200A}')
        || c == '\u{2028}' || c == '\u{2029}' || c == '\u{202F}' || c == '\u{205F}' || c
        == '\u{3000}'
}

fn ctl(c: char) -> (r: bool)
    ensures
        r == is_ctl(c),
{
    c <= '\u{1F}' || ('\u{7F}' <= c && c <= '\u{9F}')
}

/// A peekable cursor over a character sequence. The next characters can be
/// seen with `first` and `second`; `bump` moves forward.
#[derive(Debug)]
pub struct Cursor {
    chars: Vec<char>,
    pos: usize,
    start: usize,
    last: char,
}

/// The character the cursor answers past the end of input; it does not by
/// itself mean the end — check `is_eof`.
pub open spec fn eof_char() -> char {
    '\u{0}'
}

impl Cursor {
    pub closed spec fn text(&self) -> Seq<char> {
        self.chars@
    }

    pub closed spec fn pos_spec(&self) -> int {
        self.pos as int
    }

    pub closed spec fn start_spec(&self) -> int {
        self.start as int
    }

    pub closed spec fn prev_spec(&self) -> char {
        self.last
    }

    pub open spec fn wf(&self) -> bool {
        self.start_spec() <= self.pos_spec() <= self.text().len()
    }

    /// A cursor at the start of `input`.
    pub fn new(input: Vec<char>) -> (r: Self)
        ensures
            r.wf(),
            r.text() == input@,
            r.pos_spec() == 0,
            r.start_spec() == 0,
            r.prev_spec() == eof_char(),
    {
        Cursor { chars: input, pos: 0, start: 0, last: '\u{0}' }
    }

    /// The last character consumed, or the end marker before any was.
    pub fn prev(&self) -> (r: char)
        ensures
            r == self.prev_spec(),
    {
        self.last
    }

    /// The next character, without consuming it.
    pub fn first(&self) -> (r: char)
        requires
            self.wf(),
        ensures
            r == (if self.pos_spec() < self.text().len() {
                self.text()[self.pos_spec()]
            } else {
                eof_char()
            }),
    {
        if self.pos < self.chars.len() {
            self.chars[self.pos]
        } else {
            '\u{0}'
        }
    }

    /// The character after the next, without consuming anything.
    pub fn second(&self) -> (r: char)
        requires
            self.wf(),
        ensures
            r == (if self.pos_spec() + 1 < self.text().len() {
                self.text()[self.pos_spec() + 1]
            } else {
                eof_char()
            }),
    {
        let n = self.chars.len();
        if n >= 2 && self.pos < n - 1 {
            self.chars[self.pos + 1]
        } else {
            '\u{0}'
        }
    }

    /// Whether everything has been consumed.
    pub fn is_eof(&self) -> (r: bool)
        requires
            self.wf(),
        ensures
            r == (self.pos_spec() == self.text().len()),
    {
        self.pos == self.chars.len()
    }

    /// How many characters the current token has consumed.
    pub fn len_consumed(&self) -> (r: usize)
        requires
            self.wf(),
        ensures
            r == self.pos_spec() - self.start_spec(),
    {
        self.pos - self.start
    }

    /// Starts counting a fresh token here.
    pub fn reset_len_consumed(&mut self)
        requires
            old(self).wf(),
        ensures
            final(self).wf(),
            final(self).text() == old(self).text(),
            final(self).pos_spec() == old(self).pos_spec(),
            final(self).start_spec() == old(self).pos_spec(),
            final(self).prev_spec() == old(self).prev_spec(),
    {
        self.start = self.pos;
    }

    /// Consumes and returns the next character.
    pub fn bump(&mut self) -> (r: Option<char>)
        requires
            old(self).wf(),
        ensures
            final(self).wf(),
            final(self).text() == old(self).text(),
            final(self).start_spec() == old(self).start_spec(),
            old(self).pos_spec() == old(self).text().len() ==> r is None && *final(self) == *old(
                self,
            ),
            old(self).pos_spec() < old(self).text().len() ==> r == Some(
                old(self).text()[old(self).pos_spec()],
            ) && final(self).pos_spec() == old(self).pos_spec() + 1 && final(self).prev_spec()
                == old(self).text()[old(self).pos_spec()],
    {
        if self.pos < self.chars.len() {
            let c = self.chars[self.pos];
            self.pos = self.pos + 1;
            self.last = c;
            Some(c)
        } else {
            None
        }
    }
}

/// The first position at or past `i` whose character fails `lf`-style
/// scanning: here, the first line feed.
pub open spec fn line_end(cs: Seq<char>, i: int) -> int
    decreases cs.len() - i,
{
    if i < 0 || i >= cs.len() {
        cs.len() as int
    } else if cs[i] == '\n' {
        i
    } else {
        line_end(cs, i + 1)
    }
}

/// The first position at or past `i` that is not whitespace.
pub open spec fn space_end(cs: Seq<char>, i: int) -> int
    decreases cs.len() - i,
{
    if i < 0 || i >= cs.len() {
        cs.len() as int
    } else if is_space(cs[i]) {
        space_end(cs, i + 1)
    } else {
        i
    }
}

/// The first position at or past `i` that cannot continue a word.
pub open spec fn word_end(cs: Seq<char>, i: int) -> int
    decreases cs.len() - i,
{
    if i < 0 || i >= cs.len() {
        cs.len() as int
    } else if is_word_char(cs[i]) {
        word_end(cs, i + 1)
    } else {
        i
    }
}

/// A decimal digit or separator.
pub open spec fn is_dec_digit_or_sep(c: char) -> bool {
    ('0' <= c && c <= '9') || c == '_'
}

/// A hexadecimal digit or separator.
pub open spec fn is_hex_digit_or_sep(c: char) -> bool {
    ('0' <= c && c <= '9') || ('a' <= c && c <= 'f') || ('A' <= c && c <= 'F') || c == '_'
}

/// The first position at or past `i` that is no decimal digit or
/// separator.
pub open spec fn dec_end(cs: Seq<char>, i: int) -> int
    decreases cs.len() - i,
{
    if i < 0 || i >= cs.len() {
        cs.len() as int
    } else if is_dec_digit_or_sep(cs[i]) {
        dec_end(cs, i + 1)
    } else {
        i
    }
}

/// The first position at or past `i` that is no hexadecimal digit or
/// separator.
pub open spec fn hex_end(cs: Seq<char>, i: int) -> int
    decreases cs.len() - i,
{
    if i < 0 || i >= cs.len() {
        cs.len() as int
    } else if is_hex_digit_or_sep(cs[i]) {
        hex_end(cs, i + 1)
    } else {
        i
    }
}

/// A decimal digit stands somewhere in `cs[i .. j]`.
pub open spec fn has_dec_digit(cs: Seq<char>, i: int, j: int) -> bool {
    exists|k: int| i <= k < j && '0' <= #[trigger] cs[k] && cs[k] <= '9'
}

/// A hexadecimal digit stands somewhere in `cs[i .. j]`.
pub open spec fn has_hex_digit(cs: Seq<char>, i: int, j: int) -> bool {
    exists|k: int|
        i <= k < j && (('0' <= #[trigger] cs[k] && cs[k] <= '9') || ('a' <= cs[k] && cs[k]
            <= 'f') || ('A' <= cs[k] && cs[k] <= 'F'))
}

impl Cursor {
    /// Consumes the rest of the line after a one-character comment marker.
    #[verifier::loop_isolation(false)]
    pub fn line_comment1(&mut self, style: LineCommentStyle) -> (r: TokenKind)
        requires
            old(self).wf(),
        ensures
            final(self).wf(),
            final(self).text() == old(self).text(),
            final(self).start_spec() == old(self).start_spec(),
            final(self).pos_spec() >= old(self).pos_spec(),
            final(self).pos_spec() == line_end(old(self).text(), old(self).pos_spec()),
            r == (TokenKind::LineComment { style }),
    {
        while self.pos < self.chars.len() && self.chars[self.pos] != '\n'
            invariant
                self.wf(),
                self.text() == old(self).text(),
                self.start_spec() == old(self).start_spec(),
                self.pos_spec() >= old(self).pos_spec(),
                line_end(self.text(), self.pos_spec()) == line_end(
                    old(self).text(),
                    old(self).pos_spec(),
                ),
            decreases self.text().len() - self.pos_spec(),
        {
            let _ = self.bump();
        }
        TokenKind::LineComment { style }
    }

    /// Consumes the second marker character, then the rest of the line.
    #[verifier::loop_isolation(false)]
    pub fn line_comment2(&mut self, style: LineCommentStyle) -> (r: TokenKind)
        requires
            old(self).wf(),
            old(self).pos_spec() < old(self).text().len(),
        ensures
            final(self).wf(),
            final(self).text() == old(self).text(),
            final(self).start_spec() == old(self).start_spec(),
            final(self).pos_spec() == line_end(old(self).text(), old(self).pos_spec() + 1),
            r == (TokenKind::LineComment { style }),
    {
        let _ = self.bump();
        self.line_comment1(style)
    }

    /// Consumes up to and including the closing character of a
    /// one-character-delimited block comment.
    #[verifier::loop_isolation(false)]
    pub fn block_comment1(&mut self, close: char, style: BlockCommentStyle) -> (r: TokenKind)
        requires
            old(self).wf(),
        ensures
            final(self).wf(),
            final(self).text() == old(self).text(),
            final(self).start_spec() == old(self).start_spec(),
            final(self).pos_spec() >= old(self).pos_spec(),
            r matches TokenKind::BlockComment { style: st, .. } && st == style,
    {
        while self.pos < self.chars.len() && self.chars[self.pos] != close
            invariant
                self.wf(),
                self.text() == old(self).text(),
                self.start_spec() == old(self).start_spec(),
                self.pos_spec() >= old(self).pos_spec(),
            decreases self.text().len() - self.pos_spec(),
        {
            let _ = self.bump();
        }
        let terminated = self.pos < self.chars.len() && self.chars[self.pos] == close;
        if terminated {
            let _ = self.bump();
        }
        TokenKind::BlockComment { style, terminated }
    }

    /// Consumes up to and including a two-character close marker.
    #[verifier::loop_isolation(false)]
    pub fn block_comment2(
        &mut self,
        close1: char,
        close2: char,
        style: BlockCommentStyle,
    ) -> (r: TokenKind)
        requires
            old(self).wf(),
            old(self).pos_spec() < old(self).text().len(),
        ensures
            final(self).wf(),
            final(self).text() == old(self).text(),
            final(self).start_spec() == old(self).start_spec(),
            final(self).pos_spec() >= old(self).pos_spec() + 1,
            r matches TokenKind::BlockComment { style: st, .. } && st == style,
    {
        let _ = self.bump();
        let mut terminated = false;
        loop
            invariant
                self.wf(),
                self.text() == old(self).text(),
                self.start_spec() == old(self).start_spec(),
                self.pos_spec() >= old(self).pos_spec() + 1,
                !terminated,
            decreases self.text().len() - self.pos_spec() + 1,
        {
            match self.bump() {
                None => {
                    break;
                },
                Some(c) => {
                    if c == close1 && self.first() == close2 {
                        let _ = self.bump();
                        terminated = true;
                        break;
                    }
                },
            }
        }
        TokenKind::BlockComment { style, terminated }
    }

    /// Consumes a nestable block comment with two-character markers,
    /// counting depth; a close at depth one ends it.
    #[verifier::loop_isolation(false)]
    pub fn block_comment2_nested(
        &mut self,
        open1: char,
        open2: char,
        close1: char,
        close2: char,
        style: BlockCommentStyle,
    ) -> (r: TokenKind)
        requires
            old(self).wf(),
            old(self).pos_spec() < old(self).text().len(),
        ensures
            final(self).wf(),
            final(self).text() == old(self).text(),
            final(self).start_spec() == old(self).start_spec(),
            final(self).pos_spec() >= old(self).pos_spec() + 1,
            r matches TokenKind::BlockComment { style: st, .. } && st == style,
    {
        let _ = self.bump();
        let mut depth: usize = 1;
        loop
            invariant
                self.wf(),
                self.text() == old(self).text(),
                self.start_spec() == old(self).start_spec(),
                self.pos_spec() >= old(self).pos_spec() + 1,
                depth >= 1,
            decreases self.text().len() - self.pos_spec() + 1,
        {
            match self.bump() {
                None => {
                    break;
                },
                Some(c) => {
                    if c == open1 && self.first() == open2 {
                        if depth < usize::MAX {
                            let _ = self.bump();
                            depth = depth + 1;
                        }
                    } else if c == close1 && self.first() == close2 {
                        let _ = self.bump();
                        depth = depth - 1;
                        if depth == 0 {
                            return TokenKind::BlockComment { style, terminated: true };
                        }
                    }
                },
            }
        }
        TokenKind::BlockComment { style, terminated: false }
    }

    /// Consumes a run of whitespace.
    #[verifier::loop_isolation(false)]
    pub fn whitespace(&mut self) -> (r: TokenKind)
        requires
            old(self).wf(),
        ensures
            final(self).wf(),
            final(self).text() == old(self).text(),
            final(self).start_spec() == old(self).start_spec(),
            final(self).pos_spec() >= old(self).pos_spec(),
            final(self).pos_spec() == space_end(old(self).text(), old(self).pos_spec()),
            r == TokenKind::Whitespace,
    {
        while self.pos < self.chars.len() && space(self.chars[self.pos])
            invariant
                self.wf(),
                self.text() == old(self).text(),
                self.start_spec() == old(self).start_spec(),
                self.pos_spec() >= old(self).pos_spec(),
                space_end(self.text(), self.pos_spec()) == space_end(
                    old(self).text(),
                    old(self).pos_spec(),
                ),
            decreases self.text().len() - self.pos_spec(),
        {
            let _ = self.bump();
        }
        TokenKind::Whitespace
    }

    /// Consumes the rest of a word.
    #[verifier::loop_isolation(false)]
    pub fn word(&mut self) -> (r: TokenKind)
        requires
            old(self).wf(),
        ensures
            final(self).wf(),
            final(self).text() == old(self).text(),
            final(self).start_spec() == old(self).start_spec(),
            final(self).pos_spec() >= old(self).pos_spec(),
            final(self).pos_spec() == word_end(old(self).text(), old(self).pos_spec()),
            r == TokenKind::Word,
    {
        while self.pos < self.chars.len() && !space(self.chars[self.pos]) && self.chars[self.pos]
            != ':' && !ctl(self.chars[self.pos])
            invariant
                self.wf(),
                self.text() == old(self).text(),
                self.start_spec() == old(self).start_spec(),
                self.pos_spec() >= old(self).pos_spec(),
                word_end(self.text(), self.pos_spec()) == word_end(
                    old(self).text(),
                    old(self).pos_spec(),
                ),
            decreases self.text().len() - self.pos_spec(),
        {
            let _ = self.bump();
        }
        TokenKind::Word
    }

    /// Consumes decimal digits and separators; reports whether any digit
    /// was among them.
    #[verifier::loop_isolation(false)]
    pub fn eat_decimal_digits(&mut self) -> (r: bool)
        requires
            old(self).wf(),
        ensures
            final(self).wf(),
            final(self).text() == old(self).text(),
            final(self).start_spec() == old(self).start_spec(),
            final(self).pos_spec() >= old(self).pos_spec(),
            final(self).pos_spec() == dec_end(old(self).text(), old(self).pos_spec()),
            r == has_dec_digit(old(self).text(), old(self).pos_spec(), final(self).pos_spec()),
    {
        let ghost p0 = self.pos_spec();
        let mut has_digits = false;
        while self.pos < self.chars.len() && (('0' <= self.chars[self.pos] && self.chars[self.pos]
            <= '9') || self.chars[self.pos] == '_')
            invariant
                self.wf(),
                self.text() == old(self).text(),
                self.start_spec() == old(self).start_spec(),
                p0 <= self.pos_spec(),
                dec_end(self.text(), self.pos_spec()) == dec_end(old(self).text(), p0),
                has_digits == has_dec_digit(self.text(), p0, self.pos_spec()),
            decreases self.text().len() - self.pos_spec(),
        {
            let ghost prev = self.pos_spec();
            let c = self.chars[self.pos];
            if '0' <= c && c <= '9' {
                has_digits = true;
            }
            let _ = self.bump();
            proof {
                lemma_has_dec_extend(self.text(), p0, prev);
            }
        }
        has_digits
    }

    /// Consumes hexadecimal digits and separators; reports whether any
    /// digit was among them.
    #[verifier::loop_isolation(false)]
    pub fn eat_hexadecimal_digits(&mut self) -> (r: bool)
        requires
            old(self).wf(),
        ensures
            final(self).wf(),
            final(self).text() == old(self).text(),
            final(self).start_spec() == old(self).start_spec(),
            final(self).pos_spec() >= old(self).pos_spec(),
            final(self).pos_spec() == hex_end(old(self).text(), old(self).pos_spec()),
            r == has_hex_digit(old(self).text(), old(self).pos_spec(), final(self).pos_spec()),
    {
        let ghost p0 = self.pos_spec();
        let mut has_digits = false;
        while self.pos < self.chars.len() && (('0' <= self.chars[self.pos] && self.chars[self.pos]
            <= '9') || ('a' <= self.chars[self.pos] && self.chars[self.pos] <= 'f') || ('A'
            <= self.chars[self.pos] && self.chars[self.pos] <= 'F') || self.chars[self.pos] == '_')
            invariant
                self.wf(),
                self.text() == old(self).text(),
                self.start_spec() == old(self).start_spec(),
                p0 <= self.pos_spec(),
                hex_end(self.text(), self.pos_spec()) == hex_end(old(self).text(), p0),
                has_digits == has_hex_digit(self.text(), p0, self.pos_spec()),
            decreases self.text().len() - self.pos_spec(),
        {
            let ghost prev = self.pos_spec();
            let c = self.chars[self.pos];
            if ('0' <= c && c <= '9') || ('a' <= c && c <= 'f') || ('A' <= c && c <= 'F') {
                has_digits = true;
            }
            let _ = self.bump();
            proof {
                lemma_has_hex_extend(self.text(), p0, prev);
            }
        }
        has_digits
    }

    /// Consumes an unsigned integer literal that starts with the digit
    /// `first_digit` (already consumed): a base prefix when it starts with
    /// zero, then the digits of that base.
    pub fn unsigned_int(&mut self, first_digit: char) -> (r: TokenKind)
        requires
            old(self).wf(),
            '0' <= first_digit <= '9',
        ensures
            final(self).wf(),
            final(self).text() == old(self).text(),
            final(self).start_spec() == old(self).start_spec(),
            final(self).pos_spec() >= old(self).pos_spec(),
            r matches TokenKind::Int { .. },
    {
        if first_digit != '0' {
            let _ = self.eat_decimal_digits();
            return TokenKind::Int { base: Base::Decimal, has_digits: true };
        }
        let next = self.first();
        if next == 'b' {
            let _ = self.bump();
            let has_digits = self.eat_decimal_digits();
            TokenKind::Int { base: Base::Binary, has_digits }
        } else if next == 'o' {
            let _ = self.bump();
            let has_digits = self.eat_decimal_digits();
            TokenKind::Int { base: Base::Octal, has_digits }
        } else if next == 'x' {
            let _ = self.bump();
            let has_digits = self.eat_hexadecimal_digits();
            TokenKind::Int { base: Base::Hexadecimal, has_digits }
        } else if ('0' <= next && next <= '9') || next == '_' {
            let _ = self.eat_decimal_digits();
            TokenKind::Int { base: Base::Decimal, has_digits: true }
        } else {
            TokenKind::Int { base: Base::Decimal, has_digits: true }
        }
    }

    /// Scans one surface token and reports its kind and size. Signed
    /// numbers and quoted literals are not scanned here; the caller keeps
    /// such starting characters out.
    pub fn advance_token(&mut self) -> (r: SurfaceToken)
        requires
            old(self).wf(),
            old(self).pos_spec() < old(self).text().len(),
            old(self).pos_spec() == old(self).start_spec(),
            old(self).text()[old(self).pos_spec()] != '+',
            old(self).text()[old(self).pos_spec()] != '-',
            old(self).text()[old(self).pos_spec()] != '"',
            old(self).text()[old(self).pos_spec()] != '\'',
        ensures
            final(self).wf(),
            final(self).text() == old(self).text(),
            final(self).pos_spec() > old(self).pos_spec(),
            final(self).pos_spec() - old(self).pos_spec() <= u32::MAX ==> r.len == final(self).pos_spec()
                - old(self).pos_spec(),
    {
        let first_char = match self.bump() {
            Some(c) => c,
            None => {
                return SurfaceToken { kind: TokenKind::Unknown, len: 0 };
            },
        };
        let kind: TokenKind = if first_char == '/' {
            if self.first() == '/' {
                self.line_comment1(LineCommentStyle::SlashSlash)
            } else if self.first() == '*' {
                self.block_comment2('*', '/', BlockCommentStyle::SlashStar)
            } else {
                self.word()
            }
        } else if first_char == '{' && self.first() == '-' {
            self.block_comment2_nested('{', '-', '-', '}', BlockCommentStyle::BraceDash)
        } else if first_char == '-' && self.first() == '-' {
            self.line_comment1(LineCommentStyle::DashDash)
        } else if first_char == '(' {
            self.block_comment1(')', BlockCommentStyle::Paren)
        } else if first_char == '#' {
            self.line_comment1(LineCommentStyle::Pound)
        } else if first_char == ';' {
            self.line_comment1(LineCommentStyle::Semi)
        } else if '0' <= first_char && first_char <= '9' {
            self.unsigned_int(first_char)
        } else if first_char == ':' {
            TokenKind::Colon
        } else if first_char == '\n' {
            TokenKind::Lf
        } else if space(first_char) {
            self.whitespace()
        } else if ctl(first_char) {
            TokenKind::Unknown
        } else {
            self.word()
        };
        let len = self.len_consumed();
        let len32 = if len <= u32::MAX as usize {
            len as u32
        } else {
            u32::MAX
        };
        SurfaceToken { kind, len: len32 }
    }
}

/// Extending the scanned span by one character adds a digit exactly when
/// that character is one.
proof fn lemma_has_dec_extend(cs: Seq<char>, i: int, j: int)
    requires
        0 <= i <= j < cs.len(),
    ensures
        has_dec_digit(cs, i, j + 1) == (has_dec_digit(cs, i, j) || ('0' <= cs[j] && cs[j]
            <= '9')),
{
    if has_dec_digit(cs, i, j + 1) && !('0' <= cs[j] && cs[j] <= '9') {
        let k = choose|k: int| i <= k < j + 1 && '0' <= #[trigger] cs[k] && cs[k] <= '9';
        assert(i <= k < j && '0' <= cs[k] && cs[k] <= '9');
    }
    if '0' <= cs[j] && cs[j] <= '9' {
        assert(i <= j < j + 1 && '0' <= cs[j] && cs[j] <= '9');
    }
}

/// Extending the scanned span by one character adds a digit exactly when
/// that character is one.
proof fn lemma_has_hex_extend(cs: Seq<char>, i: int, j: int)
    requires
        0 <= i <= j < cs.len(),
    ensures
        has_hex_digit(cs, i, j + 1) == (has_hex_digit(cs, i, j) || (('0' <= cs[j] && cs[j]
            <= '9') || ('a' <= cs[j] && cs[j] <= 'f') || ('A' <= cs[j] && cs[j] <= 'F'))),
{
    if has_hex_digit(cs, i, j + 1) && !(('0' <= cs[j] && cs[j] <= '9') || ('a' <= cs[j] && cs[j]
        <= 'f') || ('A' <= cs[j] && cs[j] <= 'F')) {
        let k = choose|k: int|
            i <= k < j + 1 && (('0' <= #[trigger] cs[k] && cs[k] <= '9') || ('a' <= cs[k]
                && cs[k] <= 'f') || ('A' <= cs[k] && cs[k] <= 'F'));
        assert(i <= k < j);
    }
    if ('0' <= cs[j] && cs[j] <= '9') || ('a' <= cs[j] && cs[j] <= 'f') || ('A' <= cs[j] && cs[j]
        <= 'F') {
        assert(i <= j < j + 1);
    }
}

} // verus!
