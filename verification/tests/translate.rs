use cortexforge::ir::{BracketErrorKind, Error, IntermRep, Operation, Source, Token};
use cortexforge::utils::filter_chars;

fn translated(src: &str) -> IntermRep {
    let mut ir = IntermRep::new();
    ir.from_source_string(String::from(src))
        .expect("translation should succeed");
    ir
}

#[test]
fn filter_keeps_only_instruction_characters() {
    assert_eq!(filter_chars("a+b-c"), "+-");
    assert_eq!(filter_chars("hello, world."), ",.");
    assert_eq!(filter_chars("<<>>[]+-,."), "<<>>[]+-,.");
    assert_eq!(filter_chars(""), "");
    assert_eq!(filter_chars("no instructions here?!"), "");
}

#[test]
fn run_length_compression_collapses_runs() {
    let ir = translated("+++++");
    assert_eq!(ir.operations.len(), 1);
    assert_eq!(
        ir.operations[0],
        Operation { token: Token::INC, count: 5, match_addr: 0 }
    );
}

#[test]
fn runs_break_at_different_characters() {
    let ir = translated("++--<<>>..,,");
    let tokens: Vec<(Token, u32)> = ir.operations.iter().map(|o| (o.token, o.count)).collect();
    assert_eq!(
        tokens,
        vec![
            (Token::INC, 2),
            (Token::DEC, 2),
            (Token::LEFT, 2),
            (Token::RIGHT, 2),
            (Token::OUTPUT, 2),
            (Token::INPUT, 2),
        ]
    );
}

#[test]
fn bracket_pairing_is_an_involution() {
    let ir = translated("+[>[-]<]");
    let ops = &ir.operations;
    for (i, op) in ops.iter().enumerate() {
        if op.token == Token::LOOP {
            let j = op.match_addr as usize;
            assert!(i < j);
            assert_eq!(ops[j].token, Token::POOL);
            assert_eq!(ops[j].match_addr as usize, i);
        }
    }
}

#[test]
fn nested_brackets_resolve_to_expected_addresses() {
    // indices: 0 '[', 1 '[', 2 ']', 3 ']'
    let ir = translated("[[]]");
    let addrs: Vec<(Token, u32)> = ir.operations.iter().map(|o| (o.token, o.match_addr)).collect();
    assert_eq!(
        addrs,
        vec![
            (Token::LOOP, 3),
            (Token::LOOP, 2),
            (Token::POOL, 1),
            (Token::POOL, 0),
        ]
    );
}

#[test]
fn loop_operations_carry_count_one() {
    let ir = translated("[[]]");
    for op in &ir.operations {
        assert_eq!(op.count, 1);
    }
}

#[test]
fn open_without_close_is_detected() {
    let mut ir = IntermRep::new();
    let r = ir.from_source_string(String::from("[["));
    assert_eq!(
        r,
        Err(Error::UnmatchedBracket(BracketErrorKind::OpenWithoutClose))
    );
    assert!(ir.operations.is_empty());
}

#[test]
fn close_without_open_is_detected() {
    let mut ir = IntermRep::new();
    let r = ir.from_source_string(String::from("]]"));
    assert_eq!(
        r,
        Err(Error::UnmatchedBracket(BracketErrorKind::CloseWithoutOpen))
    );
    assert!(ir.operations.is_empty());
}

#[test]
fn failed_translation_keeps_previous_operations() {
    let mut ir = translated("++");
    let r = ir.from_source_string(String::from("]"));
    assert!(r.is_err());
    assert_eq!(ir.operations.len(), 1);
    assert_eq!(ir.operations[0].count, 2);
}

#[test]
fn token_from_char_covers_the_alphabet() {
    assert_eq!(Token::from_char('+'), Ok(Token::INC));
    assert_eq!(Token::from_char('-'), Ok(Token::DEC));
    assert_eq!(Token::from_char('<'), Ok(Token::LEFT));
    assert_eq!(Token::from_char('>'), Ok(Token::RIGHT));
    assert_eq!(Token::from_char('['), Ok(Token::LOOP));
    assert_eq!(Token::from_char(']'), Ok(Token::POOL));
    assert_eq!(Token::from_char(','), Ok(Token::INPUT));
    assert_eq!(Token::from_char('.'), Ok(Token::OUTPUT));
    assert!(Token::from_char('x').is_err());
}

#[test]
fn token_from_byte_covers_the_alphabet() {
    assert_eq!(Token::from_byte(b'+'), Ok(Token::INC));
    assert_eq!(Token::from_byte(b']'), Ok(Token::POOL));
    assert!(Token::from_byte(0).is_err());
}

#[test]
fn source_scanner_walks_the_text() {
    let mut src = Source::new(String::from("+-"));
    assert_eq!(src.curr(), '+');
    assert_eq!(src.next(), '-');
    src.increment();
    assert_eq!(src.curr(), '-');
    assert_eq!(src.next(), '\0');
    assert_eq!(src.at(0), Ok(Token::INC));
    assert_eq!(src.at(1), Ok(Token::DEC));
    assert_eq!(src.at(2), Err(Error::OutOfBounds));
}
