//! The tokenizer itself.
use vstd::prelude::*;
use crate::token::{BadInput, Op, Token};
use crate::laws::lemma_end_marker_is_last;
use crate::scan::{
    digit_value, fold_digit, lemma_rejected_stays, lemma_stopped_stays, numbers_nonnegative,
    push_digit, scan, tokens_of, ScanState,
};

verus! {

/// What a call of `lex` returned, as a value of the model: the tokens, or
/// `None` for `BadInput`.
pub open spec fn outcome(r: Result<Vec<Token>, BadInput>) -> Option<Seq<Token>> {
    match r {
        Ok(tokens) => Some(tokens@),
        Err(_) => None,
    }
}

/// `10 * v + d`, held at `i64::MAX`.
fn append_digit(v: i64, d: i64) -> (r: i64)
    requires
        0 <= v,
        0 <= d <= 9,
    ensures
        r == fold_digit(v, d as int),
        r >= 0,
{
    if v > (i64::MAX - d) / 10 {
        assert(10 * v + d > i64::MAX) by (nonlinear_arith)
            requires v > (i64::MAX - d) / 10, 0 <= d <= 9;
        i64::MAX
    } else {
        assert(10 * v + d <= i64::MAX) by (nonlinear_arith)
            requires v <= (i64::MAX - d) / 10, 0 <= v, 0 <= d <= 9;
        v * 10 + d
    }
}

/// Tokenizes one line of input.
///
/// Spaces are skipped; `;` or a newline adds `Token::EOF` and ends the scan.
/// Input that runs out without a terminator is accepted, with no `EOF`.
/// Consecutive digits, spaces between them included, make one number,
/// which is held at `i64::MAX` where it would exceed it. Any other
/// character before a terminator rejects the whole line with `BadInput`.
pub fn lex(input: &str) -> (r: Result<Vec<Token>, BadInput>)
    ensures
        outcome(r) == tokens_of(input@),
        r matches Ok(tokens) ==> forall|i: int|
            0 <= i < tokens.len() - 1 ==> #[trigger] tokens@[i] != Token::EOF,
{
    let mut result: Vec<Token> = Vec::new();
    for character in it: input.chars()
        invariant
            it.seq() == input@,
            scan(input@.take(it.index() as int)) == ScanState::Running(result@),
            numbers_nonnegative(result@),
    {
        let ghost before = result@;
        let ghost read = input@.take(it.index() as int);
        proof {
            assert(input@.take(it.index() + 1) =~= read.push(character));
            assert(read.push(character).drop_last() =~= read);
        }
        match character {
            ' ' => {},
            ';' | '\n' => {
                result.push(Token::EOF);
                proof {
                    lemma_stopped_stays(read.push(character), input@);
                    lemma_end_marker_is_last(input@);
                }
                return Ok(result);
            },
            '+' => result.push(Token::Operation(Op::Add)),
            '-' => result.push(Token::Operation(Op::Sub)),
            '*' => result.push(Token::Operation(Op::Mul)),
            '/' => result.push(Token::Operation(Op::Div)),
            '(' => result.push(Token::LeftParen),
            ')' => result.push(Token::RightParen),
            '0' ..= '9' => {
                let num: i64 = (character as u32 - '0' as u32) as i64;
                if result.len() == 0 {
                    result.push(Token::Number(num));
                } else {
                    let last = result.pop().unwrap();
                    match last {
                        Token::Number(i) => {
                            result.push(Token::Number(append_digit(i, num)));
                        },
                        _ => {
                            result.push(last);
                            result.push(Token::Number(num));
                        },
                    }
                }
                proof {
                    assert(result@ =~= push_digit(before, digit_value(character)));
                }
            },
            _ => {
                proof {
                    lemma_rejected_stays(read.push(character), input@);
                }
                return Err(BadInput);
            },
        }
    }
    proof {
        assert(input@.take(input@.len() as int) =~= input@);
        lemma_end_marker_is_last(input@);
    }
    Ok(result)
}

} // verus!
