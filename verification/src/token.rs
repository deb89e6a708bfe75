use vstd::prelude::*;
use vstd::string::StrSliceExecFns;

verus! {

/// The six operator characters that the lexer isolates as standalone tokens.
pub open spec fn is_op_char(c: char) -> bool {
    c == '+' || c == '-' || c == '*' || c == '/' || c == '(' || c == ')'
}

/// Whitespace that separates tokens.
pub open spec fn is_space_char(c: char) -> bool {
    c == ' ' || c == '\t' || c == '\n' || c == '\r'
}

/// A character that may stand inside a symbol token.
pub open spec fn is_symbol_char(c: char) -> bool {
    !is_op_char(c) && !is_space_char(c)
}

/// Non-empty text made only of symbol characters: the text a symbol
/// token carries.
pub open spec fn is_symbol_text(s: Seq<char>) -> bool {
    s.len() > 0 && (forall|i: int| 0 <= i < s.len() ==> is_symbol_char(s[i]))
}

/// The mathematical model of a token: the text it carries, tagged by kind.
pub enum Tok {
    Symbol(Seq<char>),
    Op(Seq<char>),
}

/// The text a token carries, regardless of its kind.
pub open spec fn tok_text(t: Tok) -> Seq<char> {
    match t {
        Tok::Symbol(s) => s,
        Tok::Op(s) => s,
    }
}

/// A token as the lexer produces it: a symbol token holds a run of
/// symbol characters verbatim, an operator token holds one of the six
/// operator characters.
pub open spec fn wf_tok(t: Tok) -> bool {
    match t {
        Tok::Symbol(s) => is_symbol_text(s),
        Tok::Op(s) => s.len() == 1 && is_op_char(s[0]),
    }
}

/// A token is either a symbol (an operand such as `1` or `x`, kept
/// verbatim) or an operator (one of `+ - * / ( )`).
#[derive(Debug, Clone, PartialEq)]
pub enum Token {
    Symbol(String),
    Op(String),
}

impl View for Token {
    type V = Tok;

    open spec fn view(&self) -> Tok {
        match self {
            Token::Symbol(s) => Tok::Symbol(s@),
            Token::Op(s) => Tok::Op(s@),
        }
    }
}

/// Prefix (nud) binding power of a token: `+` and `-` may open a unary
/// prefix application and bind with right binding power 30; no other
/// token may stand in prefix position.
pub open spec fn spec_nud(t: Tok) -> Option<u8> {
    match t {
        Tok::Op(s) => if s == seq!['+'] || s == seq!['-'] {
            Some(30u8)
        } else {
            None
        },
        Tok::Symbol(_) => None,
    }
}

/// Infix (led) binding powers of a token, as a (left, right) pair:
/// `+` and `-` bind at 10, `*` and `/` at 20; no other token may stand
/// in infix position.
pub open spec fn spec_led(t: Tok) -> Option<(u8, u8)> {
    match t {
        Tok::Op(s) => if s == seq!['+'] || s == seq!['-'] {
            Some((10u8, 10u8))
        } else if s == seq!['*'] || s == seq!['/'] {
            Some((20u8, 20u8))
        } else {
            None
        },
        Tok::Symbol(_) => None,
    }
}

/// Does this string consist of exactly the one character `c`?
fn is_exact_char(s: &String, c: char) -> (r: bool)
    ensures
        r == (s@ == seq![c]),
{
    if s.as_str().unicode_len() == 1 {
        let got = s.as_str().get_char(0);
        proof {
            if got == c {
                assert(s@ =~= seq![c]);
            }
        }
        got == c
    } else {
        proof {
            assert(seq![c].len() == 1);
        }
        false
    }
}

impl Token {
    /// True iff this token is the opening parenthesis operator.
    pub fn is_left_paren(&self) -> (r: bool)
        ensures
            r == (self@ == Tok::Op(seq!['('])),
    {
        match self {
            Token::Op(s) => is_exact_char(s, '('),
            Token::Symbol(_) => false,
        }
    }

    /// True iff this token is the closing parenthesis operator.
    pub fn is_right_paren(&self) -> (r: bool)
        ensures
            r == (self@ == Tok::Op(seq![')'])),
    {
        match self {
            Token::Op(s) => is_exact_char(s, ')'),
            Token::Symbol(_) => false,
        }
    }

    /// Prefix binding power: `Some(right binding power)` when this token
    /// may open a unary prefix application.
    pub fn nud(&self) -> (r: Option<u8>)
        ensures
            r == spec_nud(self@),
    {
        match self {
            Token::Op(s) => {
                if is_exact_char(s, '+') || is_exact_char(s, '-') {
                    Some(30)
                } else {
                    None
                }
            }
            Token::Symbol(_) => None,
        }
    }

    /// Infix binding powers: `Some((left, right))` when this token may
    /// stand between two operands.
    pub fn led(&self) -> (r: Option<(u8, u8)>)
        ensures
            r == spec_led(self@),
    {
        match self {
            Token::Op(s) => {
                if is_exact_char(s, '+') || is_exact_char(s, '-') {
                    Some((10, 10))
                } else if is_exact_char(s, '*') || is_exact_char(s, '/') {
                    Some((20, 20))
                } else {
                    None
                }
            }
            Token::Symbol(_) => None,
        }
    }
}

} // verus!
