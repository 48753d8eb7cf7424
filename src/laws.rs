//! Properties of tokenizing that hold for every input, proved over the model.
use vstd::prelude::*;
use crate::token::{BadInput, Token};
use crate::scan::{
    decimal_value, digit_value, fold_digit, is_accepted, is_digit, is_terminator,
    lemma_rejected_stays, lemma_stopped_stays, push_digit, scan, tokens_of,
    without_spaces, ScanState,
};
use crate::lexer::outcome;

verus! {

/// `decimal_value(s)` as a number token holds it: exact where it fits in an
/// `i64`, else `i64::MAX`.
pub open spec fn clamped(v: int) -> i64 {
    if v > i64::MAX {
        i64::MAX
    } else {
        v as i64
    }
}

proof fn lemma_digits_scan(s: Seq<char>)
    requires
        s.len() > 0,
        forall|i: int| 0 <= i < s.len() ==> is_digit(#[trigger] s[i]),
    ensures
        decimal_value(s) >= 0,
        scan(s) == ScanState::Running(seq![Token::Number(clamped(decimal_value(s)))]),
    decreases s.len(),
{
    let d = digit_value(s.last());
    assert(is_digit(s[s.len() - 1]));
    assert(0 <= d <= 9);
    if s.len() == 1 {
        assert(s.drop_last() =~= Seq::<char>::empty());
        assert(decimal_value(s.drop_last()) == 0);
        assert(scan(s.drop_last()) == ScanState::Running(Seq::<Token>::empty()));
        assert(seq![Token::Number(d as i64)] =~= Seq::<Token>::empty().push(Token::Number(d as i64)));
    } else {
        let p = s.drop_last();
        assert forall|i: int| 0 <= i < p.len() implies is_digit(#[trigger] p[i]) by {
            assert(p[i] == s[i]);
        }
        lemma_digits_scan(p);
        let v = clamped(decimal_value(p));
        assert(decimal_value(s) == 10 * decimal_value(p) + d);
        assert(fold_digit(v, d) == clamped(decimal_value(s)));
        assert(seq![Token::Number(v)].drop_last() =~= Seq::<Token>::empty());
        assert(Seq::<Token>::empty().push(Token::Number(clamped(decimal_value(s))))
            =~= seq![Token::Number(clamped(decimal_value(s)))]);
    }
}

/// A nonempty run of digits is read as one number: its decimal value,
/// which saturates at `i64::MAX`.
pub proof fn lemma_digits_make_one_number(s: Seq<char>)
    requires
        s.len() > 0,
        forall|i: int| 0 <= i < s.len() ==> is_digit(#[trigger] s[i]),
    ensures
        tokens_of(s) == Some(seq![Token::Number(clamped(decimal_value(s)))]),
        decimal_value(s) <= i64::MAX ==> tokens_of(s) == Some(
            seq![Token::Number(decimal_value(s) as i64)],
        ),
{
    lemma_digits_scan(s);
}

/// Tokenizing is a function of the input alone: two results that `lex`
/// may return for one input are the same.
pub proof fn lemma_lex_is_deterministic(
    s: Seq<char>,
    r1: Result<Vec<Token>, BadInput>,
    r2: Result<Vec<Token>, BadInput>,
)
    requires
        outcome(r1) == tokens_of(s),
        outcome(r2) == tokens_of(s),
    ensures
        r1 is Ok <==> r2 is Ok,
        outcome(r1) == outcome(r2),
{
}

proof fn lemma_scan_without_spaces(s: Seq<char>)
    ensures
        scan(without_spaces(s)) == scan(s),
    decreases s.len(),
{
    if s.len() > 0 {
        let p = s.drop_last();
        lemma_scan_without_spaces(p);
        if s.last() != ' ' {
            assert(without_spaces(p).push(s.last()).drop_last() =~= without_spaces(p));
        }
    }
}

/// Spaces are transparent: taking every space out of the input leaves the
/// tokens, or the rejection, as they were.
pub proof fn lemma_spaces_are_transparent(s: Seq<char>)
    ensures
        tokens_of(without_spaces(s)) == tokens_of(s),
{
    lemma_scan_without_spaces(s);
}

/// The token of a parenthesis character.
pub open spec fn paren_token(c: char) -> Token {
    if c == '(' {
        Token::LeftParen
    } else {
        Token::RightParen
    }
}

/// A parenthesis adds its own token whatever came before it, and a digit
/// after it starts a new number rather than extending an earlier one.
pub proof fn lemma_paren_ends_number(s: Seq<char>, t: Seq<Token>, p: char, d: char)
    requires
        scan(s) == ScanState::Running(t),
        p == '(' || p == ')',
        is_digit(d),
    ensures
        scan(s.push(p)) == ScanState::Running(t.push(paren_token(p))),
        scan(s.push(p).push(d)) == ScanState::Running(
            t.push(paren_token(p)).push(Token::Number(digit_value(d) as i64)),
        ),
{
    assert(s.push(p).drop_last() =~= s);
    assert(s.push(p).push(d).drop_last() =~= s.push(p));
}

/// A terminator ends the scan: it adds the end marker, and what follows it
/// is never read.
pub proof fn lemma_terminator_ends_scan(s: Seq<char>, t: Seq<Token>, c: char, rest: Seq<char>)
    requires
        scan(s) == ScanState::Running(t),
        is_terminator(c),
    ensures
        tokens_of(s.push(c) + rest) == Some(t.push(Token::EOF)),
{
    let prefix = s.push(c);
    assert(prefix.drop_last() =~= s);
    assert((prefix + rest).take(prefix.len() as int) =~= prefix);
    lemma_stopped_stays(prefix, prefix + rest);
}

proof fn lemma_no_terminator_not_stopped(s: Seq<char>)
    requires
        forall|i: int| 0 <= i < s.len() ==> !is_terminator(#[trigger] s[i]),
    ensures
        !(scan(s) is Stopped),
    decreases s.len(),
{
    if s.len() > 0 {
        let p = s.drop_last();
        assert forall|i: int| 0 <= i < p.len() implies !is_terminator(#[trigger] p[i]) by {
            assert(p[i] == s[i]);
        }
        lemma_no_terminator_not_stopped(p);
        assert(!is_terminator(s[s.len() - 1]));
    }
}

/// A character outside the accepted set rejects the whole input, unless a
/// terminator came before it.
pub proof fn lemma_bad_character_rejects(a: Seq<char>, c: char, b: Seq<char>)
    requires
        forall|i: int| 0 <= i < a.len() ==> !is_terminator(#[trigger] a[i]),
        !is_accepted(c),
    ensures
        tokens_of(a.push(c) + b) is None,
{
    lemma_no_terminator_not_stopped(a);
    let prefix = a.push(c);
    assert(prefix.drop_last() =~= a);
    assert((prefix + b).take(prefix.len() as int) =~= prefix);
    lemma_rejected_stays(prefix, prefix + b);
}

proof fn lemma_running_has_no_end_marker(s: Seq<char>)
    ensures
        scan(s) matches ScanState::Running(t) ==> !t.contains(Token::EOF),
        scan(s) matches ScanState::Stopped(t) ==> t.len() > 0 && t.last() == Token::EOF
            && !t.drop_last().contains(Token::EOF),
    decreases s.len(),
{
    if s.len() > 0 {
        let p = s.drop_last();
        lemma_running_has_no_end_marker(p);
        let c = s.last();
        if let ScanState::Running(t) = scan(p) {
            assert(t.push(Token::EOF).drop_last() =~= t);
            if is_digit(c) && t.len() > 0 && t.last() is Number {
                let u = push_digit(t, digit_value(c));
                assert forall|i: int| 0 <= i < u.len() implies u[i] != Token::EOF by {
                    if i < t.len() - 1 {
                        assert(u[i] == t[i]);
                    }
                }
            } else {
                assert forall|x: Token, i: int|
                    0 <= i < t.len() && x != Token::EOF implies #[trigger] t.push(x)[i] != Token::EOF by {
                    assert(t.push(x)[i] == t[i]);
                }
            }
        }
    }
}

/// The end marker, where there is one, is the last token and the only one.
pub proof fn lemma_end_marker_is_last(s: Seq<char>)
    ensures
        tokens_of(s) matches Some(t) ==> forall|i: int|
            0 <= i < t.len() - 1 ==> #[trigger] t[i] != Token::EOF,
{
    lemma_running_has_no_end_marker(s);
    if let ScanState::Stopped(t) = scan(s) {
        assert forall|i: int| 0 <= i < t.len() - 1 implies #[trigger] t[i] != Token::EOF by {
            assert(t.drop_last()[i] == t[i]);
        }
    }
}

} // verus!
