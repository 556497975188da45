use nebula2::text::iter::{EncodingError, Lexer, Utf8Iterator};
use nebula2::ws::cursor::{Base, BlockCommentStyle, Cursor, LineCommentStyle, TokenKind};
use nebula2::ws::gmh;
use nebula2::ws::source::{File, FileId, FileSet, Position};

fn cursor_of(text: &str) -> Cursor {
    Cursor::new(text.chars().collect())
}

#[test]
fn scan_comments() {
    let mut c = cursor_of("# note\nrest");
    let tok = c.advance_token();
    assert_eq!(
        TokenKind::LineComment { style: LineCommentStyle::Pound },
        tok.kind
    );
    assert_eq!(6, tok.len);

    let mut c = cursor_of("// note\n");
    assert_eq!(
        TokenKind::LineComment { style: LineCommentStyle::SlashSlash },
        c.advance_token().kind
    );

    let mut c = cursor_of("(fold it)x");
    let tok = c.advance_token();
    assert_eq!(
        TokenKind::BlockComment { style: BlockCommentStyle::Paren, terminated: true },
        tok.kind
    );
    assert_eq!(9, tok.len);

    let mut c = cursor_of("/* open");
    assert_eq!(
        TokenKind::BlockComment { style: BlockCommentStyle::SlashStar, terminated: false },
        c.advance_token().kind
    );

    let mut c = cursor_of("{- a {- b -} c -}done");
    let tok = c.advance_token();
    assert_eq!(
        TokenKind::BlockComment { style: BlockCommentStyle::BraceDash, terminated: true },
        tok.kind
    );
    assert_eq!(17, tok.len);
}

#[test]
fn scan_numbers_and_words() {
    let mut c = cursor_of("0x1f ");
    let tok = c.advance_token();
    assert_eq!(
        TokenKind::Int { base: Base::Hexadecimal, has_digits: true },
        tok.kind
    );
    assert_eq!(4, tok.len);

    let mut c = cursor_of("0b");
    assert_eq!(
        TokenKind::Int { base: Base::Binary, has_digits: false },
        c.advance_token().kind
    );

    let mut c = cursor_of("129_3 ");
    let tok = c.advance_token();
    assert_eq!(
        TokenKind::Int { base: Base::Decimal, has_digits: true },
        tok.kind
    );
    assert_eq!(5, tok.len);

    let mut c = cursor_of("label:");
    let tok = c.advance_token();
    assert_eq!(TokenKind::Word, tok.kind);
    assert_eq!(5, tok.len);
    c.reset_len_consumed();
    let tok = c.advance_token();
    assert_eq!(TokenKind::Colon, tok.kind);
    assert_eq!(1, tok.len);

    let mut c = cursor_of("\nx");
    assert_eq!(TokenKind::Lf, c.advance_token().kind);

    let mut c = cursor_of("  \t y");
    let tok = c.advance_token();
    assert_eq!(TokenKind::Whitespace, tok.kind);
    assert_eq!(4, tok.len);
}

#[test]
fn cursor_peeking() {
    let mut c = cursor_of("ab");
    assert_eq!('a', c.first());
    assert_eq!('b', c.second());
    assert!(!c.is_eof());
    assert_eq!(Some('a'), c.bump());
    assert_eq!('a', c.prev());
    assert_eq!('b', c.first());
    assert_eq!('\u{0}', c.second());
    assert_eq!(Some('b'), c.bump());
    assert!(c.is_eof());
    assert_eq!(None, c.bump());
    assert_eq!(2, c.len_consumed());
}

#[test]
fn utf8_errors_reported() {
    // one invalid byte between two valid characters
    let mut it = Utf8Iterator::new(vec![b'a', 0xFF, b'b'], false);
    assert_eq!(Some(Ok('a')), it.next());
    match it.next() {
        Some(Err(EncodingError::InvalidUtf8 { b0, len, .. })) => {
            assert_eq!(0xFF, b0);
            assert_eq!(1, len);
        },
        other => panic!("expected an encoding error, got {:?}", other),
    }
    assert_eq!(Some(Ok('b')), it.next());
    assert_eq!(None, it.next());
    assert_eq!(3, it.offset());
    assert_eq!(1, it.valid_to());

    // with error_once, a second invalid sequence ends the stream
    let mut it = Utf8Iterator::new(vec![0xFF, 0xFE, b'c'], true);
    assert!(matches!(it.next(), Some(Err(_))));
    assert_eq!(None, it.next());
}

#[test]
fn file_positions() {
    let mut files = FileSet::new();
    let id = files.add(File::new("a.ws".to_string(), b"  \t\n".to_vec()));
    assert_eq!(FileId(0), id);
    let id2 = files.add(File::new("b.ws".to_string(), b"\t".to_vec()));
    assert_eq!(FileId(1), id2);
    let pos = Position { offset: 1, line: 1, col: 2, file: id2 };
    let at = files.position(pos);
    assert_eq!("b.ws", at.file.path());
    assert_eq!(b"\t", at.file.src());
    assert_eq!(pos, at.pos);
}

#[test]
fn gmh_mapping() {
    let map = gmh::Mapping::default();
    assert_eq!(Some(gmh::Token::G), map.map('草'));
    assert_eq!(Some(gmh::Token::C), map.map('蟹'));
    assert_eq!(None, map.map('x'));
    assert_eq!('马', map.map_token(gmh::Token::H));
    assert_eq!(
        Some(nebula2::ws::token::Token::S),
        gmh::Token::G.as_ws_token()
    );
    assert_eq!(None, gmh::Token::R.as_ws_token());
    assert!(gmh::Mapping::new('a', 'b', 'c', 'd', 'd').is_none());
    assert!(gmh::Mapping::new('a', 'b', 'c', 'd', 'e').is_some());
}
