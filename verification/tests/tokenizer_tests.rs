use ascc::errors::LexError;
use ascc::tokenizer::tokenize;
use ascc::tokens::Token;

#[test]
fn int_literal_round_trip_hex() {
    assert_eq!(tokenize(b"@ff"), Ok(vec![Token::Num(255)]));
    assert_eq!(tokenize(b"@0"), Ok(vec![Token::Num(0)]));
    assert_eq!(tokenize(b"@7fffffffffffffff"), Ok(vec![Token::Num(i64::MAX)]));
}

#[test]
fn int_literal_round_trip_decimal() {
    assert_eq!(tokenize(b"255"), Ok(vec![Token::Num(255)]));
    assert_eq!(tokenize(b"-12"), Ok(vec![Token::Num(-12)]));
    assert_eq!(tokenize(b"9223372036854775807"), Ok(vec![Token::Num(i64::MAX)]));
    assert_eq!(tokenize(b"-9223372036854775808"), Ok(vec![Token::Num(i64::MIN)]));
}

#[test]
fn int_literal_out_of_range() {
    assert_eq!(tokenize(b"9223372036854775808"), Err(LexError::BadNumber(0)));
    assert_eq!(tokenize(b"-9223372036854775809"), Err(LexError::BadNumber(0)));
    assert_eq!(tokenize(b"@8000000000000000"), Err(LexError::BadNumber(0)));
}

#[test]
fn byte_literal_round_trip() {
    assert_eq!(tokenize(b"+0a"), Ok(vec![Token::Byte(0x0a)]));
    assert_eq!(tokenize(b"+ff"), Ok(vec![Token::Byte(0xff)]));
    assert_eq!(tokenize(b"+00"), Ok(vec![Token::Byte(0)]));
    assert_eq!(tokenize(b"+AB"), Ok(vec![Token::Byte(0xab)]));
}

#[test]
fn byte_literal_malformed() {
    assert_eq!(tokenize(b"+g1"), Err(LexError::BadNumber(0)));
    assert_eq!(tokenize(b"+1"), Err(LexError::UnexpectedEnd(0)));
}

#[test]
fn var_literal_round_trip() {
    assert_eq!(tokenize(b"$0f"), Ok(vec![Token::Var(15)]));
    assert_eq!(tokenize(b"$ff"), Ok(vec![Token::Var(255)]));
    assert_eq!(tokenize(b"$0"), Ok(vec![Token::Var(0)]));
}

#[test]
fn var_literal_out_of_range() {
    assert_eq!(tokenize(b"$100"), Err(LexError::VarOutOfRange(0)));
    assert_eq!(tokenize(b"$"), Err(LexError::BadNumber(0)));
    // beyond the signed 64-bit range, integer parsing itself gives out
    assert_eq!(tokenize(b"$8000000000000000"), Err(LexError::BadNumber(0)));
    assert_eq!(tokenize(b"$00000000000000000000ff"), Ok(vec![Token::Var(255)]));
}

#[test]
fn float_literal_keeps_numeral() {
    assert_eq!(tokenize(b"#1.5"), Ok(vec![Token::Float(b"1.5".to_vec())]));
    assert_eq!(tokenize(b"#42"), Ok(vec![Token::Float(b"42".to_vec())]));
    assert_eq!(tokenize(b"#.5"), Ok(vec![Token::Float(b".5".to_vec())]));
}

#[test]
fn float_literal_malformed() {
    assert_eq!(tokenize(b"#"), Err(LexError::BadFloat(0)));
    assert_eq!(tokenize(b"#."), Err(LexError::BadFloat(0)));
    assert_eq!(tokenize(b"#1.2.3"), Err(LexError::BadFloat(0)));
}

#[test]
fn string_eight_slots_filled() {
    assert_eq!(tokenize(b"\"12345678\""), Ok(vec![Token::Str(*b"12345678")]));
}

#[test]
fn string_ninth_char_overflows() {
    assert_eq!(tokenize(b"\"123456789\""), Err(LexError::StringOverflow(0)));
}

#[test]
fn string_padded_with_nulls() {
    assert_eq!(tokenize(b"\"ab\""), Ok(vec![Token::Str([97, 98, 0, 0, 0, 0, 0, 0])]));
    assert_eq!(tokenize(b"\"\""), Ok(vec![Token::Str([0; 8])]));
}

#[test]
fn string_unterminated() {
    assert_eq!(tokenize(b"\"abc"), Err(LexError::UnterminatedString(0)));
}

#[test]
fn sprite_array_eight_bytes() {
    assert_eq!(
        tokenize(b"[+01+02+03+04+05+06+07+08]"),
        Ok(vec![Token::Array([1, 2, 3, 4, 5, 6, 7, 8])])
    );
}

#[test]
fn sprite_array_wrong_length_fails() {
    assert_eq!(tokenize(b"[+01+02+03+04+05+06+07]"), Err(LexError::BadArray(0)));
    assert_eq!(
        tokenize(b"[+01+02+03+04+05+06+07+08+09]"),
        Err(LexError::BadArray(0))
    );
}

#[test]
fn identifiers_labels_and_statements() {
    assert_eq!(
        tokenize(b"cpix+0a+0b+ff;"),
        Ok(vec![
            Token::Ident(b"cpix".to_vec()),
            Token::Byte(0x0a),
            Token::Byte(0x0b),
            Token::Byte(0xff),
            Token::EndL,
        ])
    );
    assert_eq!(tokenize(b"!start"), Ok(vec![Token::Label(b"start".to_vec())]));
}

#[test]
fn blocks_nest() {
    assert_eq!(
        tokenize(b"{noop;}"),
        Ok(vec![Token::Block(vec![Token::Ident(b"noop".to_vec()), Token::EndL])])
    );
    assert_eq!(
        tokenize(b"{a{b}}"),
        Ok(vec![Token::Block(vec![
            Token::Ident(b"a".to_vec()),
            Token::Block(vec![Token::Ident(b"b".to_vec())]),
        ])])
    );
}

#[test]
fn block_unterminated() {
    assert_eq!(tokenize(b"{noop;"), Err(LexError::UnexpectedEnd(0)));
}

#[test]
fn comments_and_whitespace_skipped() {
    assert_eq!(
        tokenize(b"noop /a comment/ noop"),
        Ok(vec![Token::Ident(b"noop".to_vec()), Token::Ident(b"noop".to_vec())])
    );
    assert_eq!(tokenize(b"  \t\n"), Ok(vec![]));
    assert_eq!(tokenize(b"/never closed"), Err(LexError::UnexpectedEnd(0)));
}

#[test]
fn unexpected_char_reports_offset() {
    assert_eq!(tokenize(b"%"), Err(LexError::UnexpectedChar(0)));
    assert_eq!(tokenize(b"noop %"), Err(LexError::UnexpectedChar(5)));
    assert_eq!(tokenize(b"{%}"), Err(LexError::UnexpectedChar(1)));
}

#[test]
fn to_bytes_of_literals() {
    assert_eq!(Token::Byte(7).to_bytes(), vec![7]);
    assert_eq!(Token::Var(9).to_bytes(), vec![9]);
    assert_eq!(Token::Num(255).to_bytes(), 255u64.to_le_bytes().to_vec());
    assert_eq!(Token::Num(-1).to_bytes(), (-1i64 as u64).to_le_bytes().to_vec());
    assert_eq!(
        Token::Str(*b"12345678").to_bytes(),
        b"12345678".to_vec()
    );
}
