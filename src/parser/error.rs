use vstd::prelude::*;
use vstd::string::*;
use crate::parser::token::TokenKind;

verus! {

/// Why a parsing primitive failed.
#[derive(Debug, PartialEq, Eq)]
pub enum PError {
    /// The next token has another kind; `at` is its byte offset in the source.
    Expected { expected: TokenKind, found: TokenKind, at: usize },
    /// No token is left where one of kind `expected` was required.
    Exhausted { expected: TokenKind },
    /// The next token does not have the text `text`, or no token is left.
    TextMismatch { text: String },
}

pub open spec fn digit_char(d: nat) -> char {
    if d == 0 {
        '0'
    } else if d == 1 {
        '1'
    } else if d == 2 {
        '2'
    } else if d == 3 {
        '3'
    } else if d == 4 {
        '4'
    } else if d == 5 {
        '5'
    } else if d == 6 {
        '6'
    } else if d == 7 {
        '7'
    } else if d == 8 {
        '8'
    } else {
        '9'
    }
}

/// The decimal digits of `n`, most significant first.
pub open spec fn decimal(n: nat) -> Seq<char>
    decreases n,
{
    if n < 10 {
        seq![digit_char(n)]
    } else {
        decimal(n / 10).push(digit_char(n % 10))
    }
}

/// The human-readable text of an error.
pub open spec fn message_text(e: PError) -> Seq<char> {
    match e {
        PError::Expected { expected, found, at } => "Expected API Token "@ + expected.spec_name()
            + ", found "@ + found.spec_name() + " at "@ + decimal(at as nat),
        PError::Exhausted { expected } => "LoqQuery Token "@ + expected.spec_name()
            + " does not match: input exhausted"@,
        PError::TextMismatch { text } => "LoqQuery Text "@ + text@ + " does not match"@,
    }
}

fn digit_str(d: usize) -> (r: &'static str)
    requires
        d < 10,
    ensures
        r@ == seq![digit_char(d as nat)],
{
    proof {
        reveal_strlit("0");
        reveal_strlit("1");
        reveal_strlit("2");
        reveal_strlit("3");
        reveal_strlit("4");
        reveal_strlit("5");
        reveal_strlit("6");
        reveal_strlit("7");
        reveal_strlit("8");
        reveal_strlit("9");
    }
    if d == 0 {
        "0"
    } else if d == 1 {
        "1"
    } else if d == 2 {
        "2"
    } else if d == 3 {
        "3"
    } else if d == 4 {
        "4"
    } else if d == 5 {
        "5"
    } else if d == 6 {
        "6"
    } else if d == 7 {
        "7"
    } else if d == 8 {
        "8"
    } else {
        "9"
    }
}

/// `n` written in decimal.
pub fn decimal_string(n: usize) -> (r: String)
    ensures
        r@ == decimal(n as nat),
    decreases n,
{
    if n < 10 {
        String::from_str(digit_str(n))
    } else {
        let mut s = decimal_string(n / 10);
        s.append(digit_str(n % 10));
        s
    }
}

impl PError {
    /// The message that describes the failure: what was expected, and what
    /// was found where.
    pub fn message(&self) -> (r: String)
        ensures
            r@ == message_text(*self),
    {
        match self {
            PError::Expected { expected, found, at } => {
                let mut m = String::from_str("Expected API Token ");
                m.append(expected.name());
                m.append(", found ");
                m.append(found.name());
                m.append(" at ");
                let pos = decimal_string(*at);
                m.append(pos.as_str());
                m
            },
            PError::Exhausted { expected } => {
                let mut m = String::from_str("LoqQuery Token ");
                m.append(expected.name());
                m.append(" does not match: input exhausted");
                m
            },
            PError::TextMismatch { text } => {
                let mut m = String::from_str("LoqQuery Text ");
                m.append(text.as_str());
                m.append(" does not match");
                m
            },
        }
    }
}

} // verus!
