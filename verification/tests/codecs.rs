use cortexforge::ir::{DecodeErrorKind, Error, IntermRep, Operation, Token};

fn translated(src: &str) -> IntermRep {
    let mut ir = IntermRep::new();
    ir.from_source_string(String::from(src))
        .expect("translation should succeed");
    ir
}

#[test]
fn text_round_trip_restores_the_program() {
    let ir = translated("++>+++++[<+>-]<.");
    let text = ir.to_text().expect("encoding should succeed");
    let mut back = IntermRep::new();
    back.from_text(&text).expect("decoding should succeed");
    assert_eq!(back.operations, ir.operations);
}

#[test]
fn binary_round_trip_restores_the_program() {
    let ir = translated("++>+++++[<+>-]<.");
    let bytes = ir.to_binary();
    let mut back = IntermRep::new();
    back.from_binary(&bytes).expect("decoding should succeed");
    assert_eq!(back.operations, ir.operations);
}

#[test]
fn text_encoding_writes_one_line_per_operation() {
    let ir = translated("++[-].");
    let text = ir.to_text().expect("encoding should succeed");
    assert_eq!(text, "INC 2\nLOOP 3\nDEC 1\nPOOL 1\nOUTPUT 1\n");
}

#[test]
fn text_decoding_reads_the_documented_format() {
    let mut ir = IntermRep::new();
    ir.from_text("INC 2\nLOOP 3\nDEC 1\nPOOL 1\nOUTPUT 1\n")
        .expect("decoding should succeed");
    assert_eq!(
        ir.operations,
        vec![
            Operation { token: Token::INC, count: 2, match_addr: 0 },
            Operation { token: Token::LOOP, count: 1, match_addr: 3 },
            Operation { token: Token::DEC, count: 1, match_addr: 0 },
            Operation { token: Token::POOL, count: 1, match_addr: 1 },
            Operation { token: Token::OUTPUT, count: 1, match_addr: 0 },
        ]
    );
}

#[test]
fn text_decoding_ignores_a_third_field() {
    let mut ir = IntermRep::new();
    ir.from_text("INC 3 trailing\n").expect("decoding should succeed");
    assert_eq!(
        ir.operations,
        vec![Operation { token: Token::INC, count: 3, match_addr: 0 }]
    );
}

#[test]
fn text_decoding_accepts_a_missing_final_line_break() {
    let mut ir = IntermRep::new();
    ir.from_text("INC 1\nDEC 2").expect("decoding should succeed");
    assert_eq!(
        ir.operations,
        vec![
            Operation { token: Token::INC, count: 1, match_addr: 0 },
            Operation { token: Token::DEC, count: 2, match_addr: 0 },
        ]
    );
}

#[test]
fn empty_program_is_rejected_on_text_encode() {
    let ir = IntermRep::new();
    assert_eq!(ir.to_text(), Err(Error::EmptyProgram));
}

#[test]
fn unknown_token_name_is_an_invalid_token() {
    let mut ir = IntermRep::new();
    let r = ir.from_text("FOO 1\n");
    assert_eq!(r, Err(Error::DecodeError(DecodeErrorKind::InvalidToken)));
    assert!(ir.operations.is_empty());
}

#[test]
fn missing_number_is_malformed() {
    let mut ir = IntermRep::new();
    let r = ir.from_text("INC\n");
    assert_eq!(r, Err(Error::DecodeError(DecodeErrorKind::MalformedNumber)));
}

#[test]
fn non_numeric_field_is_malformed() {
    let mut ir = IntermRep::new();
    let r = ir.from_text("INC x\n");
    assert_eq!(r, Err(Error::DecodeError(DecodeErrorKind::MalformedNumber)));
}

#[test]
fn oversized_number_is_malformed() {
    let mut ir = IntermRep::new();
    let r = ir.from_text("INC 4294967296\n");
    assert_eq!(r, Err(Error::DecodeError(DecodeErrorKind::MalformedNumber)));
    let mut ir2 = IntermRep::new();
    ir2.from_text("INC 4294967295\n").expect("the largest count fits");
    assert_eq!(ir2.operations[0].count, u32::MAX);
}

#[test]
fn empty_line_is_an_invalid_token() {
    let mut ir = IntermRep::new();
    let r = ir.from_text("INC 1\n\nDEC 1\n");
    assert_eq!(r, Err(Error::DecodeError(DecodeErrorKind::InvalidToken)));
}

#[test]
fn failed_decode_keeps_previous_operations() {
    let mut ir = translated("++");
    let r = ir.from_text("FOO 1\n");
    assert!(r.is_err());
    assert_eq!(ir.operations.len(), 1);
    assert_eq!(ir.operations[0].count, 2);
}

#[test]
fn binary_layout_is_nine_byte_little_endian_records() {
    let ir = translated("+");
    assert_eq!(ir.to_binary(), vec![b'+', 1, 0, 0, 0, 0, 0, 0, 0]);
    let mut ops = IntermRep::new();
    ops.operations.push(Operation { token: Token::LOOP, count: 1, match_addr: 0x01020304 });
    assert_eq!(ops.to_binary(), vec![b'[', 1, 0, 0, 0, 4, 3, 2, 1]);
}

#[test]
fn binary_fragment_is_corrupt() {
    let mut ir = IntermRep::new();
    let r = ir.from_binary(&[1, 2, 3]);
    assert_eq!(r, Err(Error::DecodeError(DecodeErrorKind::Corrupt)));
}

#[test]
fn binary_unknown_tag_is_corrupt() {
    let mut ir = IntermRep::new();
    let r = ir.from_binary(&[0, 1, 0, 0, 0, 0, 0, 0, 0]);
    assert_eq!(r, Err(Error::DecodeError(DecodeErrorKind::Corrupt)));
}

#[test]
fn binary_empty_stream_is_the_empty_program() {
    let mut ir = translated("+");
    ir.from_binary(&[]).expect("decoding should succeed");
    assert!(ir.operations.is_empty());
}

#[test]
fn text_round_trip_preserves_large_counts() {
    let mut ir = IntermRep::new();
    ir.operations.push(Operation { token: Token::RIGHT, count: 123456789, match_addr: 0 });
    ir.operations.push(Operation { token: Token::LOOP, count: 1, match_addr: 2 });
    ir.operations.push(Operation { token: Token::POOL, count: 1, match_addr: 1 });
    let text = ir.to_text().expect("encoding should succeed");
    let mut back = IntermRep::new();
    back.from_text(&text).expect("decoding should succeed");
    assert_eq!(back.operations, ir.operations);
}

#[test]
fn binary_round_trip_preserves_every_field() {
    let mut ir = IntermRep::new();
    ir.operations.push(Operation { token: Token::INPUT, count: 7, match_addr: 9 });
    ir.operations.push(Operation { token: Token::POOL, count: 2, match_addr: u32::MAX });
    let bytes = ir.to_binary();
    let mut back = IntermRep::new();
    back.from_binary(&bytes).expect("decoding should succeed");
    assert_eq!(back.operations, ir.operations);
}

#[test]
fn listing_numbers_each_operation() {
    let ir = translated("+[-].");
    assert_eq!(
        ir.listing(),
        "0:\tINC\t(1)\n1:\tLOOP\t{3}\n2:\tDEC\t(1)\n3:\tPOOL\t{1}\n4:\tOUTPUT\n"
    );
}
