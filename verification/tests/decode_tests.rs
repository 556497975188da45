use nebula2::syntax::prefix::{InsertError, PrefixEntry, PrefixTable, Tokens};
use nebula2::syntax::token_seq::TokenSeq;
use nebula2::text::iter::{EncodingError, Lexer, VecLexer};
use nebula2::ws::assembly::MnemonicMap;
use nebula2::ws::bit_pack::{bit_pack, bit_pack_dynamic, bit_unpack, bit_unpack_dynamic,
    BitOrderDynamic};
use nebula2::ws::inst::{detect_features, Feature, Features, Inst, Opcode, RawInst};
use nebula2::ws::label::{InstId, LabelOrder, LabelResolver, ProgramInst};
use nebula2::ws::integer::Int;
use nebula2::ws::parse::{build_table, Parser};
use nebula2::ws::token::Token;
use nebula2::ws::token::Token::{L, S, T};

fn bits(pattern: &[u8]) -> Vec<bool> {
    pattern.iter().map(|&b| b == 1).collect()
}

fn seq_of(toks: &[Token]) -> TokenSeq<Token> {
    let mut s = TokenSeq::new();
    for tok in toks {
        s.push(tok);
    }
    s
}

#[test]
fn trie_conflicts_both_orders() {
    // a complete opcode first: its spelling blocks every extension
    let mut table: PrefixTable<Token, Opcode> = PrefixTable::with_dense_width(2);
    assert!(table.insert(&[S], Opcode::Dup).is_ok());
    match table.insert(&[S, T], Opcode::Push) {
        Err(InsertError::Conflict(ce)) => {
            assert_eq!(&seq_of(&[S]), ce.prefix());
            assert_eq!(&vec![Opcode::Dup, Opcode::Push], ce.opcodes());
        },
        other => panic!("expected a conflict, got {:?}", other),
    }

    // the longer opcode first: the short spelling is now a prefix node
    let mut table: PrefixTable<Token, Opcode> = PrefixTable::with_dense_width(2);
    assert!(table.insert(&[S, T], Opcode::Push).is_ok());
    match table.insert(&[S], Opcode::Dup) {
        Err(InsertError::Conflict(ce)) => {
            assert_eq!(&seq_of(&[S]), ce.prefix());
            assert_eq!(&vec![Opcode::Push, Opcode::Dup], ce.opcodes());
        },
        other => panic!("expected a conflict, got {:?}", other),
    }

    // an empty spelling is rejected outright
    let mut table: PrefixTable<Token, Opcode> = PrefixTable::with_dense_width(2);
    assert_eq!(Err(InsertError::NoSpelling), table.insert(&[], Opcode::Dup));
}

#[test]
fn trie_consistency() {
    // every inserted spelling answers Terminal, every strict prefix lists
    // the opcode among its continuations
    let mut table: PrefixTable<Token, Opcode> = PrefixTable::with_dense_width(3);
    assert!(table.insert(&[S, S], Opcode::Push).is_ok());
    assert!(table.insert(&[S, L, S], Opcode::Dup).is_ok());
    match table.get(seq_of(&[S, S])) {
        Some(PrefixEntry::Terminal(op)) => assert_eq!(&Opcode::Push, op),
        other => panic!("expected a terminal, got {:?}", other),
    }
    match table.get(seq_of(&[S, L, S])) {
        Some(PrefixEntry::Terminal(op)) => assert_eq!(&Opcode::Dup, op),
        other => panic!("expected a terminal, got {:?}", other),
    }
    match table.get(seq_of(&[S])) {
        Some(PrefixEntry::Prefix(ops)) => {
            assert!(ops.contains(&Opcode::Push));
            assert!(ops.contains(&Opcode::Dup));
        },
        other => panic!("expected a prefix node, got {:?}", other),
    }
    match table.get(seq_of(&[S, L])) {
        Some(PrefixEntry::Prefix(ops)) => assert_eq!(&vec![Opcode::Dup], ops),
        other => panic!("expected a prefix node, got {:?}", other),
    }
    assert!(table.get(seq_of(&[T])).is_none());
}

fn ok_tokens(toks: &[Token]) -> Vec<Result<Token, EncodingError>> {
    toks.iter().map(|&t| Ok(t)).collect()
}

const BAD_BYTE: EncodingError = EncodingError::InvalidUtf8 { b0: 0xFF, b1: 0, b2: 0, len: 1 };

#[test]
fn decode_resumes_mid_argument() {
    // an encoding error in the middle of push's argument: the decoder
    // yields the error, suspends, and the next pull finishes the same
    // instruction
    let mut items = ok_tokens(&[S, S, S, T]);
    items.push(Err(BAD_BYTE));
    items.extend(ok_tokens(&[S, T, L, L, L, L]));
    let table = build_table(Features::all()).unwrap();
    let mut parser = Parser::with_table(table, VecLexer::new(items));
    match parser.next() {
        Some(Inst::Error(e)) => {
            let _ = e;
        },
        other => panic!("expected an error item, got {:?}", other),
    }
    assert_eq!(Some(Inst::Push(bits(&[0, 1, 0, 1]))), parser.next());
    assert_eq!(Some(Inst::End), parser.next());
    assert_eq!(None, parser.next());
}

#[test]
fn decode_resumes_mid_opcode() {
    // an encoding error inside an opcode's spelling resumes from the exact
    // partial sequence
    let mut items = ok_tokens(&[T, S]);
    items.push(Err(BAD_BYTE));
    items.extend(ok_tokens(&[S, S, L, L, L]));
    let table = build_table(Features::all()).unwrap();
    let mut parser = Parser::with_table(table, VecLexer::new(items));
    match parser.next() {
        Some(Inst::Error(_)) => {},
        other => panic!("expected an error item, got {:?}", other),
    }
    assert_eq!(Some(Inst::Add), parser.next());
    assert_eq!(Some(Inst::End), parser.next());
    assert_eq!(None, parser.next());
}

#[test]
fn decode_matches_unsplit() {
    // the resumed decode equals the decode of the unsplit stream
    let plain = ok_tokens(&[S, S, S, T, S, T, L, L, L, L]);
    let table = build_table(Features::all()).unwrap();
    let mut parser = Parser::with_table(table, VecLexer::new(plain));
    let mut unsplit = Vec::new();
    while let Some(inst) = parser.next() {
        unsplit.push(inst);
    }

    for cut in 0..7 {
        let mut items = ok_tokens(&[S, S, S, T, S, T, L, L, L, L]);
        items.insert(cut, Err(BAD_BYTE));
        let table = build_table(Features::all()).unwrap();
        let mut parser = Parser::with_table(table, VecLexer::new(items));
        let mut decoded = Vec::new();
        while let Some(inst) = parser.next() {
            match inst {
                Inst::Error(_) => {},
                other => decoded.push(other),
            }
        }
        assert_eq!(unsplit, decoded, "split at {}", cut);
    }
}

#[test]
fn decode_error_items() {
    let table = build_table(Features::all()).unwrap();
    // L alone can begin several opcodes: incomplete at end of input
    let mut parser = Parser::with_table(table, VecLexer::new(ok_tokens(&[L])));
    match parser.next() {
        Some(Inst::Error(_)) => {},
        other => panic!("expected an incomplete-opcode item, got {:?}", other),
    }

    // push's argument never sees its terminator
    let table = build_table(Features::all()).unwrap();
    let mut parser = Parser::with_table(table, VecLexer::new(ok_tokens(&[S, S, T, T])));
    match parser.next() {
        Some(Inst::Error(_)) => {},
        other => panic!("expected an unterminated-argument item, got {:?}", other),
    }
}

#[test]
fn feature_gating() {
    // without its feature, a gated opcode's spelling is unknown
    let table = build_table(Features::empty()).unwrap();
    let mut parser = Parser::with_table(table, VecLexer::new(ok_tokens(&[S, T, T, S])));
    match parser.next() {
        Some(Inst::Error(_)) => {},
        other => panic!("expected an unknown-opcode item, got {:?}", other),
    }
    let table = build_table(Features::all()).unwrap();
    let mut parser = Parser::with_table(table, VecLexer::new(ok_tokens(&[S, T, T, S])));
    assert_eq!(Some(Inst::Shuffle), parser.next());
}

fn label_insts() -> Vec<RawInst> {
    vec![
        // position 0: a use of the pattern defined later at position 2
        Inst::Jmp(bits(&[0, 1, 0])),
        Inst::Dup,
        // position 2: the definition of that pattern
        Inst::Label(bits(&[0, 1, 0])),
        Inst::Drop,
        Inst::Call(bits(&[1, 1])),
        // position 5: the definition of a second pattern
        Inst::Label(bits(&[1, 1])),
        Inst::End,
    ]
}

fn label_id(inst: &ProgramInst) -> u32 {
    match inst {
        Inst::Jmp(l) => l.0,
        Inst::Call(l) => l.0,
        Inst::Label(l) => l.0,
        other => panic!("no label argument in {:?}", other),
    }
}

#[test]
fn label_definition_order() {
    // under definition order, the pattern defined at position 2 outranks
    // the one defined at position 5, wherever each is first referenced
    let mut resolver = LabelResolver::new();
    let resolved = resolver.resolve_all(label_insts(), LabelOrder::Def);
    assert_eq!(7, resolved.len());
    let early = label_id(&resolved[2]);
    let late = label_id(&resolved[5]);
    assert!(early < late);
    assert_eq!(early, label_id(&resolved[0]));
    assert_eq!(late, label_id(&resolved[4]));
    assert_eq!(0, early);
    assert_eq!(1, late);

    // the records carry the positions that defined and used each pattern
    let labels = resolver.labels();
    assert_eq!(2, labels.len());
    assert_eq!(&bits(&[0, 1, 0]), labels[0].bits());
    assert_eq!(&vec![InstId(2)], labels[0].defs());
    assert_eq!(&vec![InstId(0)], labels[0].uses());
    assert_eq!(&vec![InstId(5)], labels[1].defs());
    assert_eq!(&vec![InstId(4)], labels[1].uses());
}

#[test]
fn label_def_or_use_order() {
    // under definition-or-use order, the first appearance decides
    let mut resolver = LabelResolver::new();
    let resolved = resolver.resolve_all(label_insts(), LabelOrder::DefOrUse);
    assert_eq!(0, label_id(&resolved[0]));
    assert_eq!(0, label_id(&resolved[2]));
    assert_eq!(1, label_id(&resolved[4]));
    assert_eq!(1, label_id(&resolved[5]));
}

#[test]
fn label_resolution_deterministic() {
    // identical inputs under one policy give identical identifiers
    let mut first = LabelResolver::new();
    let a = first.resolve_all(label_insts(), LabelOrder::Def);
    let mut second = LabelResolver::new();
    let b = second.resolve_all(label_insts(), LabelOrder::Def);
    assert_eq!(a, b);
}

#[test]
fn integer_arguments_pass_through() {
    // an integer argument keeps its exact wire bits through resolution
    let mut resolver = LabelResolver::new();
    let resolved = resolver.resolve_all(vec![Inst::Push(bits(&[1, 0, 1, 1]))], LabelOrder::Def);
    match &resolved[0] {
        Inst::Push(n) => assert_eq!(&Int::from_bits(bits(&[1, 0, 1, 1])), n),
        other => panic!("expected the integer argument, got {:?}", other),
    }
}

#[test]
fn pack_round_trips() {
    let toks = vec![S, S, S, T, L, L, S, S, T, T, L];
    assert_eq!(toks, bit_unpack(&bit_pack(&toks)));
    for order in [BitOrderDynamic::Msb0, BitOrderDynamic::Lsb0] {
        let packed = bit_pack_dynamic(&toks, order);
        assert_eq!(toks, bit_unpack_dynamic(&packed, order), "order {:?}", order);
    }
}

#[test]
fn mnemonic_lookup() {
    let map = MnemonicMap::with_permissive().unwrap();
    assert_eq!(Some(Opcode::Push), map.get(&"push".to_string()));
    assert_eq!(Some(Opcode::Jz), map.get(&"jumpzero".to_string()));
    assert_eq!(Some(Opcode::Jz), map.get(&"jmpifzero".to_string()));
    assert_eq!(Some(Opcode::Jn), map.get(&"bneg".to_string()));
    assert_eq!(Some(Opcode::Printc), map.get(&"putchar".to_string()));
    assert_eq!(Some(Opcode::End), map.get(&"quit".to_string()));
    assert_eq!(None, map.get(&"nonsense".to_string()));

    let mut map = MnemonicMap::new();
    assert!(map.insert(Opcode::Push, "go").is_ok());
    assert!(map.insert(Opcode::Push, "go").is_ok());
    let clash = map.insert(Opcode::Dup, "go");
    match clash {
        Err(e) => {
            assert_eq!(Opcode::Push, e.old_opcode());
            assert_eq!(Opcode::Dup, e.new_opcode());
        },
        Ok(()) => panic!("a second opcode claimed a taken name"),
    }
}

#[test]
fn opcode_spellings() {
    assert_eq!(vec![S, S], Tokens::tokens(&Opcode::Push));
    assert_eq!(vec![L, L, L], Tokens::tokens(&Opcode::End));
    assert_eq!(vec![L, L, S, S, T], Tokens::tokens(&Opcode::DumpHeap));
}

#[test]
fn features_detected() {
    let insts: Vec<RawInst> = vec![Inst::Shuffle, Inst::Push(bits(&[0, 1])), Inst::End];
    let found = detect_features(&insts);
    assert!(found.contains(Feature::Shuffle));
    assert!(!found.contains(Feature::Wspace0_3));
    assert!(!found.contains(Feature::DumpTrace));
}
