//! The meaning of tokenizing, as spec functions over character sequences.
//!
//! The scan reads the input left to right. `scan(s)` is the state after the
//! prefix `s` has been read, so each character is one `step` on the state
//! that the characters before it left.
use vstd::prelude::*;
use crate::token::{Op, Token};

verus! {

/// Where a scan stands after a prefix of the input.
pub enum ScanState {
    /// Still reading; the tokens built so far.
    Running(Seq<Token>),
    /// A terminator was read; the tokens are final and nothing more is read.
    Stopped(Seq<Token>),
    /// A character outside the accepted set was read.
    Rejected,
}

pub open spec fn is_terminator(c: char) -> bool {
    c == ';' || c == '\n'
}

pub open spec fn is_digit(c: char) -> bool {
    '0' <= c && c <= '9'
}

pub open spec fn digit_value(c: char) -> int {
    c as int - '0' as int
}

/// The operator that a character stands for, if any.
pub open spec fn op_of(c: char) -> Option<Op> {
    if c == '+' {
        Some(Op::Add)
    } else if c == '-' {
        Some(Op::Sub)
    } else if c == '*' {
        Some(Op::Mul)
    } else if c == '/' {
        Some(Op::Div)
    } else {
        None
    }
}

/// Every character that some rule of the scan accepts.
pub open spec fn is_accepted(c: char) -> bool {
    c == ' ' || is_terminator(c) || op_of(c) is Some || c == '(' || c == ')' || is_digit(c)
}

/// `10 * v + d`, held at `i64::MAX` where it would exceed it.
pub open spec fn fold_digit(v: i64, d: int) -> i64 {
    if 10 * v + d > i64::MAX {
        i64::MAX
    } else {
        (10 * v + d) as i64
    }
}

/// Adds a digit to the tokens: it extends a number that ends them, and
/// starts a new number after any other token.
pub open spec fn push_digit(t: Seq<Token>, d: int) -> Seq<Token> {
    if t.len() > 0 && t.last() is Number {
        t.drop_last().push(Token::Number(fold_digit(t.last()->Number_0, d)))
    } else {
        t.push(Token::Number(d as i64))
    }
}

/// The state after reading `c` in state `st`.
pub open spec fn step(st: ScanState, c: char) -> ScanState {
    match st {
        ScanState::Running(t) => {
            if c == ' ' {
                ScanState::Running(t)
            } else if is_terminator(c) {
                ScanState::Stopped(t.push(Token::EOF))
            } else if op_of(c) is Some {
                ScanState::Running(t.push(Token::Operation(op_of(c)->Some_0)))
            } else if c == '(' {
                ScanState::Running(t.push(Token::LeftParen))
            } else if c == ')' {
                ScanState::Running(t.push(Token::RightParen))
            } else if is_digit(c) {
                ScanState::Running(push_digit(t, digit_value(c)))
            } else {
                ScanState::Rejected
            }
        },
        _ => st,
    }
}

/// The state after reading all of `s`.
pub open spec fn scan(s: Seq<char>) -> ScanState
    decreases s.len(),
{
    if s.len() == 0 {
        ScanState::Running(Seq::empty())
    } else {
        step(scan(s.drop_last()), s.last())
    }
}

/// What tokenizing `s` gives: the tokens, or `None` where `s` is rejected.
pub open spec fn tokens_of(s: Seq<char>) -> Option<Seq<Token>> {
    match scan(s) {
        ScanState::Running(t) => Some(t),
        ScanState::Stopped(t) => Some(t),
        ScanState::Rejected => None,
    }
}

/// The value of a sequence of decimal digits, most significant first.
pub open spec fn decimal_value(s: Seq<char>) -> int
    decreases s.len(),
{
    if s.len() == 0 {
        0
    } else {
        10 * decimal_value(s.drop_last()) + digit_value(s.last())
    }
}

/// `s` with every space taken out.
pub open spec fn without_spaces(s: Seq<char>) -> Seq<char>
    decreases s.len(),
{
    if s.len() == 0 {
        s
    } else if s.last() == ' ' {
        without_spaces(s.drop_last())
    } else {
        without_spaces(s.drop_last()).push(s.last())
    }
}

/// No number token that a scan builds is negative.
pub open spec fn numbers_nonnegative(t: Seq<Token>) -> bool {
    forall|i: int| 0 <= i < t.len() && #[trigger] t[i] is Number ==> t[i]->Number_0 >= 0
}

} // verus!

verus! {

/// Once a scan has stopped, reading more leaves it as it is.
pub proof fn lemma_stopped_stays(prefix: Seq<char>, s: Seq<char>)
    requires
        prefix.len() <= s.len(),
        s.take(prefix.len() as int) == prefix,
        scan(prefix) is Stopped,
    ensures
        scan(s) == scan(prefix),
    decreases s.len() - prefix.len(),
{
    if s.len() > prefix.len() {
        assert(s.drop_last().take(prefix.len() as int) =~= prefix);
        lemma_stopped_stays(prefix, s.drop_last());
    } else {
        assert(s =~= prefix);
    }
}

/// Once a scan has rejected its input, reading more leaves it rejected.
pub proof fn lemma_rejected_stays(prefix: Seq<char>, s: Seq<char>)
    requires
        prefix.len() <= s.len(),
        s.take(prefix.len() as int) == prefix,
        scan(prefix) is Rejected,
    ensures
        scan(s) is Rejected,
    decreases s.len() - prefix.len(),
{
    if s.len() > prefix.len() {
        assert(s.drop_last().take(prefix.len() as int) =~= prefix);
        lemma_rejected_stays(prefix, s.drop_last());
    } else {
        assert(s =~= prefix);
    }
}

} // verus!
