use arith_lexer::lexer::lex;
use arith_lexer::token::{BadInput, Op, Token};

#[test]
fn digits_make_one_number() {
    assert_eq!(lex("123"), Ok(vec![Token::Number(123)]));
    assert_eq!(lex("0"), Ok(vec![Token::Number(0)]));
    assert_eq!(lex("007"), Ok(vec![Token::Number(7)]));
}

#[test]
fn largest_number_is_exact() {
    assert_eq!(lex("9223372036854775807"), Ok(vec![Token::Number(i64::MAX)]));
}

#[test]
fn too_large_number_saturates() {
    assert_eq!(lex("9223372036854775808"), Ok(vec![Token::Number(i64::MAX)]));
    assert_eq!(lex("99999999999999999999999"), Ok(vec![Token::Number(i64::MAX)]));
}

#[test]
fn sum_without_terminator() {
    assert_eq!(
        lex("12+34"),
        Ok(vec![Token::Number(12), Token::Operation(Op::Add), Token::Number(34)])
    );
}

#[test]
fn semicolon_ends_input() {
    assert_eq!(lex("7;"), Ok(vec![Token::Number(7), Token::EOF]));
    assert_eq!(lex("7;8"), Ok(vec![Token::Number(7), Token::EOF]));
}

#[test]
fn newline_ends_input() {
    assert_eq!(lex("1-2\n3"), Ok(vec![
        Token::Number(1),
        Token::Operation(Op::Sub),
        Token::Number(2),
        Token::EOF,
    ]));
}

#[test]
fn nothing_after_terminator_is_read() {
    assert_eq!(lex("7;&"), Ok(vec![Token::Number(7), Token::EOF]));
}

#[test]
fn disallowed_character_is_rejected() {
    assert_eq!(lex("3&4"), Err(BadInput));
    assert_eq!(lex("x"), Err(BadInput));
    assert_eq!(lex("1.5"), Err(BadInput));
    assert_eq!(lex("2\t3"), Err(BadInput));
    assert_eq!(lex("é"), Err(BadInput));
}

#[test]
fn same_input_same_result() {
    for s in ["12 * (3 + 4);", "3&4", "", "42"] {
        assert_eq!(lex(s), lex(s));
    }
}

#[test]
fn spaces_are_transparent() {
    let expected = Ok(vec![Token::Number(1), Token::Operation(Op::Add), Token::Number(2)]);
    assert_eq!(lex("1 + 2"), expected);
    assert_eq!(lex("1+2"), expected);
    assert_eq!(lex("  1+  2   "), expected);
}

#[test]
fn space_does_not_end_a_number() {
    assert_eq!(lex("1 2"), Ok(vec![Token::Number(12)]));
}

#[test]
fn parentheses_stand_alone() {
    assert_eq!(
        lex("(1)"),
        Ok(vec![Token::LeftParen, Token::Number(1), Token::RightParen])
    );
    assert_eq!(
        lex("1(2)3"),
        Ok(vec![
            Token::Number(1),
            Token::LeftParen,
            Token::Number(2),
            Token::RightParen,
            Token::Number(3),
        ])
    );
}

#[test]
fn every_operator() {
    assert_eq!(
        lex("1+2-3*4/5"),
        Ok(vec![
            Token::Number(1),
            Token::Operation(Op::Add),
            Token::Number(2),
            Token::Operation(Op::Sub),
            Token::Number(3),
            Token::Operation(Op::Mul),
            Token::Number(4),
            Token::Operation(Op::Div),
            Token::Number(5),
        ])
    );
}

#[test]
fn empty_input_gives_no_tokens() {
    assert_eq!(lex(""), Ok(vec![]));
    assert_eq!(lex("   "), Ok(vec![]));
}

#[test]
fn terminator_alone() {
    assert_eq!(lex(";"), Ok(vec![Token::EOF]));
    assert_eq!(lex("\n"), Ok(vec![Token::EOF]));
}

#[test]
fn bad_input_message() {
    assert_eq!(BadInput.message(), "Invalid input. Check again.");
}
