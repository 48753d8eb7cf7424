use vstd::prelude::*;

verus! {

/// The four arithmetic operators.
#[derive(Debug, Clone, Copy, PartialEq, Eq, Structural)]
pub enum Op {
    Add,
    Sub,
    Mul,
    Div,
}

/// One lexical unit of the input.
#[derive(Debug, Clone, Copy, PartialEq, Eq, Structural)]
pub enum Token {
    /// The input was closed by a terminator (`;` or a newline).
    EOF,
    Number(i64),
    Operation(Op),
    LeftParen,
    RightParen,
}

/// The input holds a character that no token accepts.
#[derive(Debug, Clone, Copy, PartialEq, Eq, Structural)]
pub struct BadInput;

/// The text shown to a user for `BadInput`.
pub open spec fn bad_input_text() -> Seq<char> {
    seq!['I', 'n', 'v', 'a', 'l', 'i', 'd', ' ', 'i', 'n', 'p', 'u', 't', '.', ' ',
         'C', 'h', 'e', 'c', 'k', ' ', 'a', 'g', 'a', 'i', 'n', '.']
}

impl BadInput {
    /// The message a user sees for rejected input.
    pub fn message(&self) -> (r: String)
        ensures
            r@ == bad_input_text(),
    {
        let r = String::from_str("Invalid input. Check again.");
        proof {
            reveal_strlit("Invalid input. Check again.");
            assert(r@ =~= bad_input_text());
        }
        r
    }
}

} // verus!
