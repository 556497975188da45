use nebula2::text::iter::Lexer;
use nebula2::ws::bit_pack::BitLexer;
use nebula2::ws::inst::{Features, Inst, RawInst};
use nebula2::ws::lex::{BytesMapping, BytesMappingLexer, Mapping, MappingLexer};
use nebula2::ws::parse::{build_table, Parser};
use nebula2::ws::token::Token;
use nebula2::ws::token::Token::{L, S, T};

const TUTORIAL_STL: &[u8] = br"
S S S T L                    push 1
L S S S T S S S S T T L  label_C:
S L S                        dup
T L S T                      printi
S S S T S T S L              push 10
T L S S                      printc
S S S T L                    push 1
T S S S                      add
S L S                        dup
S S S T S T T L              push 11
T S S T                      sub
L T S S T S S S T S T L      jz label_E
L S L S T S S S S T T L      jmp label_C
L S S S T S S S T S T L  label_E:
S L L                        drop
L L L                        end
";

const TUTORIAL_TOKENS: &[Token] = &[
    S, S, S, T, L, L, S, S, S, T, S, S, S, S, T, T, L, S, L, S, T, L, S, T, S, S, S, T, S, T, S, L,
    T, L, S, S, S, S, S, T, L, T, S, S, S, S, L, S, S, S, S, T, S, T, T, L, T, S, S, T, L, T, S, S,
    T, S, S, S, T, S, T, L, L, S, L, S, T, S, S, S, S, T, T, L, L, S, S, S, T, S, S, S, T, S, T, L,
    S, L, L, L, L, L,
];

const TUTORIAL_BITS: &[u8] = &[
    0b00010111, 0b10001000, 0b00101011, 0b01101011, 0b01000010, 0b01001110, 0b11000001, 0b01110000,
    0b01100001, 0b00101011, 0b10001011, 0b10001000, 0b01001011, 0b11011010, 0b00001010, 0b11110001,
    0b00001001, 0b01101111, 0b11111100,
];

/// Pulls every token out of a source, panicking on an encoding error.
fn collect_tokens<Lx: Lexer<Tok = Token>>(mut lex: Lx) -> Vec<Token> {
    let mut toks = Vec::new();
    loop {
        match lex.next() {
            None => return toks,
            Some(Ok(tok)) => toks.push(tok),
            Some(Err(e)) => panic!("encoding error: {:?}", e),
        }
    }
}

/// Pulls every instruction out of a decoder.
fn collect_insts<Lx: Lexer<Tok = Token>>(mut parser: Parser<Lx>) -> Vec<RawInst> {
    let mut insts = Vec::new();
    loop {
        match parser.next() {
            None => return insts,
            Some(inst) => insts.push(inst),
        }
    }
}

fn bits(pattern: &[u8]) -> Vec<bool> {
    pattern.iter().map(|&b| b == 1).collect()
}

fn tutorial_insts() -> Vec<RawInst> {
    let label_c = &[0, 1, 0, 0, 0, 0, 1, 1];
    let label_e = &[0, 1, 0, 0, 0, 1, 0, 1];
    vec![
        Inst::Push(bits(&[0, 1])),
        Inst::Label(bits(label_c)),
        Inst::Dup,
        Inst::Printi,
        Inst::Push(bits(&[0, 1, 0, 1, 0])),
        Inst::Printc,
        Inst::Push(bits(&[0, 1])),
        Inst::Add,
        Inst::Dup,
        Inst::Push(bits(&[0, 1, 0, 1, 1])),
        Inst::Sub,
        Inst::Jz(bits(label_e)),
        Inst::Jmp(bits(label_c)),
        Inst::Label(bits(label_e)),
        Inst::Drop,
        Inst::End,
    ]
}

#[test]
fn lex() {
    let lex = MappingLexer::new_utf8(TUTORIAL_STL.to_vec(), Mapping::<char>::stl(), true);
    assert_eq!(TUTORIAL_TOKENS, collect_tokens(lex));
}

#[test]
fn byte_lex() {
    let lex = MappingLexer::new_bytes(TUTORIAL_STL.to_vec(), Mapping::<u8>::stl());
    assert_eq!(TUTORIAL_TOKENS, collect_tokens(lex));
}

#[test]
fn bit_lex() {
    let lex = BitLexer::new(TUTORIAL_BITS.to_vec());
    assert_eq!(TUTORIAL_TOKENS, collect_tokens(lex));
}

#[test]
fn bit_lex_tutorial() {
    let lex = BitLexer::new(TUTORIAL_BITS.to_vec());
    let toks = collect_tokens(lex);
    assert_eq!(TUTORIAL_TOKENS, toks);
}

#[test]
fn tests_parse() {
    let table = build_table(Features::all()).unwrap();
    let lex = MappingLexer::new_utf8(TUTORIAL_STL.to_vec(), Mapping::<char>::stl(), true);
    let parser = Parser::with_table(table, lex);
    assert_eq!(tutorial_insts(), collect_insts(parser));
}

#[test]
fn parse_dyn() {
    let expected = tutorial_insts();

    let table = build_table(Features::all()).unwrap();
    let lex = MappingLexer::new_utf8(TUTORIAL_STL.to_vec(), Mapping::<char>::stl(), true);
    assert_eq!(expected, collect_insts(Parser::with_table(table, lex)));

    let table = build_table(Features::all()).unwrap();
    let lex = MappingLexer::new_bytes(TUTORIAL_STL.to_vec(), Mapping::<u8>::stl());
    assert_eq!(expected, collect_insts(Parser::with_table(table, lex)));

    let table = build_table(Features::all()).unwrap();
    let lex = BitLexer::new(TUTORIAL_BITS.to_vec());
    assert_eq!(expected, collect_insts(Parser::with_table(table, lex)));
}

#[test]
fn bytes_mapping_lex() {
    // multi-byte spellings for each token, with junk between them
    let map = BytesMapping::new(b"aa".to_vec(), b"bb".to_vec(), b"cd".to_vec()).unwrap();
    let lex = BytesMappingLexer::new(b"aa..bb!cdaa".to_vec(), map);
    assert_eq!(vec![S, T, L, S], collect_tokens(lex));

    // one pattern starting another is rejected
    assert!(BytesMapping::new(b"a".to_vec(), b"ab".to_vec(), b"c".to_vec()).is_none());
    assert!(BytesMapping::new(b"".to_vec(), b"b".to_vec(), b"c".to_vec()).is_none());
}
