//! Tokens of a postfix expression, the error taxonomy, and the literal
//! grammar that decides which words count as operands.

use vstd::prelude::*;

verus! {

/// The five recognized binary operators.
#[derive(Clone, Copy, PartialEq, Eq, Structural, Debug)]
pub enum Op {
    Addition,
    Subtraction,
    Multiplication,
    Division,
    Modulo,
}

/// A token as the tokenizer hands it out: an operator, or the text of a
/// numeric literal that matched the literal grammar.
#[derive(Debug)]
pub enum ScanTok {
    Operator(Op),
    Number(String),
}

/// A token as the evaluator consumes it: an operand carries the 32-bit
/// pattern of its numeric value. The evaluator never interprets the bits;
/// the caller that owns the arithmetic does.
#[derive(Clone, Copy, PartialEq, Eq, Structural, Debug)]
pub enum Token {
    Operator(Op),
    Operand(u32),
}

/// Why evaluation failed. Every failure is reported as a value; the library
/// never panics on malformed input.
#[derive(Clone, Debug, PartialEq, Eq)]
pub enum EvalError {
    /// A word was neither an operator symbol nor a numeric literal.
    ParseError { token: String },
    /// An operator arrived while fewer than two values were on the stack.
    InsufficientOperands,
    /// After all tokens, the stack did not hold exactly one value.
    UnbalancedExpression,
}

/// The mathematical shadow of a `ScanTok`: what a token is, with the literal
/// text as a sequence of characters.
pub enum SpecTok {
    Operator(Op),
    Number(Seq<char>),
}

impl View for ScanTok {
    type V = SpecTok;

    open spec fn view(&self) -> SpecTok {
        match self {
            ScanTok::Operator(op) => SpecTok::Operator(*op),
            ScanTok::Number(text) => SpecTok::Number(text@),
        }
    }
}

/// The views of a sequence of scanned tokens.
pub open spec fn scan_views(toks: Seq<ScanTok>) -> Seq<SpecTok> {
    toks.map_values(|t: ScanTok| t@)
}

/// The characters the tokenizer treats as word separators.
pub open spec fn is_space_char(c: char) -> bool {
    c == ' ' || c == '\t' || c == '\n' || c == '\r'
}

pub open spec fn is_digit_char(c: char) -> bool {
    '0' <= c && c <= '9'
}

/// One or more characters, all decimal digits.
pub open spec fn is_digit_run(s: Seq<char>) -> bool {
    s.len() > 0 && forall|i: int| 0 <= i < s.len() ==> is_digit_char(#[trigger] s[i])
}

/// `digits` or `digits.digits`.
pub open spec fn is_unsigned_literal(s: Seq<char>) -> bool {
    is_digit_run(s) || exists|k: int|
        0 < k < s.len() && #[trigger] s[k] == '.' && is_digit_run(s.subrange(0, k))
            && is_digit_run(s.subrange(k + 1, s.len() as int))
}

/// An optionally signed decimal literal: the only words accepted as operands.
pub open spec fn is_number_literal(s: Seq<char>) -> bool {
    if s.len() > 0 && (s[0] == '+' || s[0] == '-') {
        is_unsigned_literal(s.subrange(1, s.len() as int))
    } else {
        is_unsigned_literal(s)
    }
}

/// A word consisting of exactly one operator symbol.
pub open spec fn is_op_word(s: Seq<char>) -> bool {
    s.len() == 1 && (s[0] == '+' || s[0] == '-' || s[0] == '*' || s[0] == '/' || s[0] == '%')
}

/// The operator a one-symbol word denotes (meaningful when `is_op_word`).
pub open spec fn op_of(s: Seq<char>) -> Op {
    if s[0] == '+' {
        Op::Addition
    } else if s[0] == '-' {
        Op::Subtraction
    } else if s[0] == '*' {
        Op::Multiplication
    } else if s[0] == '/' {
        Op::Division
    } else {
        Op::Modulo
    }
}

/// A word the tokenizer accepts: an operator symbol or a numeric literal.
pub open spec fn classifiable(w: Seq<char>) -> bool {
    is_op_word(w) || is_number_literal(w)
}

/// How a classifiable word is read: operator symbols win; everything else
/// must be a numeric literal.
pub open spec fn spec_classify(w: Seq<char>) -> SpecTok {
    if is_op_word(w) {
        SpecTok::Operator(op_of(w))
    } else {
        SpecTok::Number(w)
    }
}

impl EvalError {
    /// The characters of the message reported for this error.
    pub open spec fn message_spec(&self) -> Seq<char> {
        match self {
            EvalError::ParseError { token } => "Cannot parse operand \""@ + token@ + "\""@,
            EvalError::InsufficientOperands => "Unsufficient operands before operator"@,
            EvalError::UnbalancedExpression => (
            "Remaining untreated operands. Probably missing operator."@),
        }
    }

    /// The human-readable message, as an interactive shell prints it.
    pub fn message(&self) -> (r: String)
        ensures
            r@ == self.message_spec(),
    {
        match self {
            EvalError::ParseError { token } => {
                let mut m = String::from_str("Cannot parse operand \"");
                m.append(token.as_str());
                m.append("\"");
                m
            },
            EvalError::InsufficientOperands => String::from_str(
                "Unsufficient operands before operator",
            ),
            EvalError::UnbalancedExpression => String::from_str(
                "Remaining untreated operands. Probably missing operator.",
            ),
        }
    }
}

} // verus!
