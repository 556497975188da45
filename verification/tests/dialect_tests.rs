use nebula2::bf;
use nebula2::bf::ook;
use nebula2::bf::spoon;
use nebula2::syntax::prefix::PrefixEntry;

fn bits(pattern: &[u8]) -> Vec<bool> {
    pattern.iter().map(|&b| b == 1).collect()
}

const INC: spoon::Inst = spoon::Inst::Bf(bf::Inst::Inc);
const DEC: spoon::Inst = spoon::Inst::Bf(bf::Inst::Dec);
const RIGHT: spoon::Inst = spoon::Inst::Bf(bf::Inst::Right);
const LEFT: spoon::Inst = spoon::Inst::Bf(bf::Inst::Left);
const HEAD: spoon::Inst = spoon::Inst::Bf(bf::Inst::Head);
const TAIL: spoon::Inst = spoon::Inst::Bf(bf::Inst::Tail);
const OUT: spoon::Inst = spoon::Inst::Bf(bf::Inst::Output);

#[test]
fn spoon_parse() {
    // a well-known greeting program in the dialect's binary spelling
    let program = bits(&[
        0, 1, 0, 1, 1, 1, 1, 1, 1, 1, 1, 1, 0, 0, 1, 0, 0, 0, 1, 1, 1, 1, 1, 1, 1, 1, 1, 1, 0,
        1, 0, 0, 0, 0, 0, 0, 1, 1, 0, 1, 1, 0, 0, 1, 0, 1, 0, 0, 1, 0, 1, 1, 1, 1, 1, 1, 1, 0,
        0, 1, 0, 0, 0, 1, 1, 1, 1, 1, 1, 0, 1, 0, 0, 0, 0, 0, 0, 1, 1, 0, 1, 1, 1, 0, 0, 1, 0,
        1, 0, 1, 1, 1, 1, 1, 1, 1, 0, 0, 1, 0, 1, 0, 0, 0, 1, 0, 1, 0, 1, 1, 1, 0, 0, 1, 0, 1,
        0, 0, 1, 0, 1, 1, 1, 1, 1, 1, 1, 1, 1, 1, 1, 0, 0, 1, 0, 0, 0, 1, 1, 0, 0, 0, 0, 0, 0,
        0, 0, 0, 0, 0, 0, 0, 0, 0, 0, 0, 0, 0, 1, 0, 0, 0, 0, 0, 0, 1, 1, 0, 1, 1, 0, 0, 0, 0,
        0, 1, 0, 1, 0, 0, 0, 0, 0, 0, 0, 0, 0, 0, 0, 0, 0, 0, 0, 0, 0, 0, 0, 0, 0, 0, 0, 0, 0,
        0, 0, 0, 0, 0, 0, 0, 0, 0, 0, 0, 0, 0, 0, 1, 0, 1, 0, 0, 1, 0, 1, 1, 1, 1, 1, 1, 1, 1,
        1, 1, 1, 0, 0, 1, 0, 0, 0, 1, 1, 1, 1, 1, 1, 1, 0, 1, 0, 0, 0, 0, 0, 0, 1, 1, 0, 1, 1,
        0, 0, 1, 0, 1, 0, 0, 1, 0, 1, 1, 1, 1, 1, 1, 0, 0, 1, 0, 0, 0, 1, 1, 1, 1, 1, 1, 0, 1,
        0, 0, 0, 0, 0, 0, 1, 1, 0, 1, 1, 0, 0, 1, 0, 1, 0, 1, 1, 1, 0, 0, 1, 0, 1, 0, 0, 0, 0,
        0, 0, 0, 0, 0, 0, 0, 0, 0, 0, 0, 0, 0, 0, 0, 0, 0, 1, 0, 1, 0, 0, 0, 0, 0, 0, 0, 0, 0,
        0, 0, 0, 0, 0, 0, 0, 0, 0, 0, 0, 0, 0, 0, 0, 0, 0, 0, 1, 0, 1, 0, 0, 1, 0, 1, 1, 1, 1,
        1, 1, 1, 1, 1, 1, 1, 0, 0, 1, 0, 0, 0, 1, 1, 0, 0, 0, 0, 0, 0, 0, 0, 0, 0, 0, 0, 0, 0,
        0, 0, 0, 0, 0, 1, 0, 0, 0, 0, 0, 0, 1, 1, 0, 1, 1, 0, 0, 0, 0, 0, 1, 0, 1, 0,
    ]);
    let toks = spoon::tokens_from_bits(&program, false);
    let table = spoon::table().unwrap();
    let items = spoon::parse_all(&table, &toks);
    let mut insts = Vec::new();
    for item in items {
        insts.push(item.unwrap());
    }
    let expected = vec![
        RIGHT, INC, INC, INC, INC, INC, INC, INC, INC, INC, HEAD, LEFT, INC, INC, INC, INC, INC,
        INC, INC, INC, RIGHT, DEC, TAIL, LEFT, OUT, RIGHT, INC, INC, INC, INC, INC, INC, INC,
        HEAD, LEFT, INC, INC, INC, INC, RIGHT, DEC, TAIL, LEFT, INC, OUT, INC, INC, INC, INC,
        INC, INC, INC, OUT, OUT, INC, INC, INC, OUT, RIGHT, INC, INC, INC, INC, INC, INC, INC,
        INC, INC, INC, INC, HEAD, LEFT, DEC, DEC, DEC, DEC, DEC, DEC, RIGHT, DEC, TAIL, LEFT,
        DEC, OUT, DEC, DEC, DEC, DEC, DEC, DEC, DEC, DEC, DEC, DEC, DEC, DEC, OUT, RIGHT, INC,
        INC, INC, INC, INC, INC, INC, INC, INC, INC, INC, HEAD, LEFT, INC, INC, INC, INC, INC,
        RIGHT, DEC, TAIL, LEFT, OUT, RIGHT, INC, INC, INC, INC, INC, INC, HEAD, LEFT, INC, INC,
        INC, INC, RIGHT, DEC, TAIL, LEFT, OUT, INC, INC, INC, OUT, DEC, DEC, DEC, DEC, DEC,
        DEC, OUT, DEC, DEC, DEC, DEC, DEC, DEC, DEC, DEC, OUT, RIGHT, INC, INC, INC, INC, INC,
        INC, INC, INC, INC, INC, INC, HEAD, LEFT, DEC, DEC, DEC, DEC, DEC, DEC, RIGHT, DEC,
        TAIL, LEFT, DEC, OUT,
    ];
    assert_eq!(expected, insts);
}

#[test]
fn ook_table_spellings() {
    let table = ook::table().unwrap();
    let mut seq = nebula2::syntax::token_seq::TokenSeq::new();
    seq.push(&ook::Punct::Bang);
    seq.push(&ook::Punct::Question);
    match table.get(seq) {
        Some(PrefixEntry::Terminal(op)) => {
            assert_eq!(&ook::Inst::Bf(bf::Inst::Head), op);
        },
        other => panic!("expected a terminal, got {:?}", other),
    }
    let mut banana = nebula2::syntax::token_seq::TokenSeq::new();
    banana.push(&ook::Punct::Question);
    banana.push(&ook::Punct::Question);
    match table.get(banana) {
        Some(PrefixEntry::Terminal(op)) => {
            assert_eq!(&ook::Inst::Banana, op);
        },
        other => panic!("expected a terminal, got {:?}", other),
    }
}
