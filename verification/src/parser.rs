use vstd::prelude::*;
use vstd::pervasive::unreached;
use crate::ast::{
    children_view, expr_view, lemma_children_view, lemma_wf_children, wf_model, Expr, ExprModel,
};
use crate::lexer::{lemma_tokenize_wf, spec_tokenize, Lexer};
use crate::token::{spec_led, spec_nud, wf_tok, Tok, Token};

verus! {

/// Why a parse failed.
#[derive(Debug, Clone, Copy, PartialEq, Eq, Structural)]
pub enum ParseError {
    /// The token sequence was exhausted where a token was required.
    UnexpectedEndOfInput,
    /// A `(` was not closed by a matching `)`.
    UnmatchedParenthesis,
    /// An operator with no prefix binding power stood in leading position.
    UnexpectedPrefixOperator,
    /// A token with no infix binding powers stood in infix position.
    UnexpectedToken,
}

/// One step of the binding-power parse: consume an initial operand (a
/// symbol, a parenthesized group, or a unary prefix application), then
/// absorb infix operators through `spec_parse_loop`. On success the
/// result carries the parsed tree and the tokens that remain.
pub open spec fn spec_parse_bp(ts: Seq<Tok>, rbp: u8) -> Result<(ExprModel, Seq<Tok>), ParseError>
    decreases ts.len(), 1int,
{
    if ts.len() == 0 {
        Err(ParseError::UnexpectedEndOfInput)
    } else {
        let t = ts[0];
        let rest0 = ts.drop_first();
        match t {
            Tok::Symbol(_) => spec_parse_loop(ExprModel::Atom(t), rest0, rbp),
            Tok::Op(o) => {
                if o == seq!['('] {
                    match spec_parse_bp(rest0, 0) {
                        Ok(sub) => if sub.1.len() <= ts.len() {
                            if sub.1.len() > 0 && sub.1[0] == Tok::Op(seq![')']) {
                                spec_parse_loop(sub.0, sub.1.drop_first(), rbp)
                            } else {
                                Err(ParseError::UnmatchedParenthesis)
                            }
                        } else {
                            // never reached: a successful sub-parse consumes
                            // at least one token (lemma_parse_bp_consumes)
                            Err(ParseError::UnmatchedParenthesis)
                        },
                        Err(e) => Err(e),
                    }
                } else {
                    match spec_nud(t) {
                        Some(nrbp) => match spec_parse_bp(rest0, nrbp) {
                            Ok(sub) => if sub.1.len() <= ts.len() {
                                spec_parse_loop(ExprModel::Apply(t, seq![sub.0]), sub.1, rbp)
                            } else {
                                // never reached, as above
                                Err(ParseError::UnexpectedEndOfInput)
                            },
                            Err(e) => Err(e),
                        },
                        None => Err(ParseError::UnexpectedPrefixOperator),
                    }
                }
            },
        }
    }
}

/// The infix loop of the binding-power parse: with `left` already parsed,
/// stop when the tokens are exhausted, a `)` follows, or the next
/// operator's left binding power does not exceed `rbp` (a tie defers the
/// operator to the enclosing call, which is what makes equal-precedence
/// chains left-associative); otherwise consume the operator, parse its
/// right operand with the operator's right binding power, and continue
/// with the binary application as `left`.
pub open spec fn spec_parse_loop(left: ExprModel, ts: Seq<Tok>, rbp: u8) -> Result<
    (ExprModel, Seq<Tok>),
    ParseError,
>
    decreases ts.len(), 0int,
{
    if ts.len() == 0 {
        Ok((left, ts))
    } else if ts[0] == Tok::Op(seq![')']) {
        Ok((left, ts))
    } else {
        match spec_led(ts[0]) {
            Some(bp) => if bp.0 <= rbp {
                Ok((left, ts))
            } else {
                match spec_parse_bp(ts.drop_first(), bp.1) {
                    Ok(sub) => if sub.1.len() < ts.len() {
                        spec_parse_loop(ExprModel::Apply(ts[0], seq![left, sub.0]), sub.1, rbp)
                    } else {
                        // never reached: a successful sub-parse consumes
                        // at least one token (lemma_parse_bp_consumes)
                        Err(ParseError::UnexpectedToken)
                    },
                    Err(e) => Err(e),
                }
            },
            None => Err(ParseError::UnexpectedToken),
        }
    }
}

/// A successful step consumes at least one token.
pub proof fn lemma_parse_bp_consumes(ts: Seq<Tok>, rbp: u8)
    ensures
        spec_parse_bp(ts, rbp) matches Ok(r) ==> r.1.len() < ts.len(),
    decreases ts.len(), 1int,
{
    if ts.len() > 0 {
        let t = ts[0];
        let rest0 = ts.drop_first();
        match t {
            Tok::Symbol(_) => {
                lemma_parse_loop_consumes(ExprModel::Atom(t), rest0, rbp);
            },
            Tok::Op(o) => {
                if o == seq!['('] {
                    lemma_parse_bp_consumes(rest0, 0);
                    match spec_parse_bp(rest0, 0) {
                        Ok(sub) => {
                            if sub.1.len() > 0 && sub.1[0] == Tok::Op(seq![')']) {
                                lemma_parse_loop_consumes(sub.0, sub.1.drop_first(), rbp);
                            }
                        },
                        Err(_) => {},
                    }
                } else {
                    match spec_nud(t) {
                        Some(nrbp) => {
                            lemma_parse_bp_consumes(rest0, nrbp);
                            match spec_parse_bp(rest0, nrbp) {
                                Ok(sub) => {
                                    lemma_parse_loop_consumes(
                                        ExprModel::Apply(t, seq![sub.0]),
                                        sub.1,
                                        rbp,
                                    );
                                },
                                Err(_) => {},
                            }
                        },
                        None => {},
                    }
                }
            },
        }
    }
}

/// The infix loop never adds tokens back.
pub proof fn lemma_parse_loop_consumes(left: ExprModel, ts: Seq<Tok>, rbp: u8)
    ensures
        spec_parse_loop(left, ts, rbp) matches Ok(r) ==> r.1.len() <= ts.len(),
    decreases ts.len(), 0int,
{
    if ts.len() > 0 && !(ts[0] == Tok::Op(seq![')'])) {
        match spec_led(ts[0]) {
            Some(bp) => {
                if !(bp.0 <= rbp) {
                    lemma_parse_bp_consumes(ts.drop_first(), bp.1);
                    match spec_parse_bp(ts.drop_first(), bp.1) {
                        Ok(sub) => {
                            lemma_parse_loop_consumes(
                                ExprModel::Apply(ts[0], seq![left, sub.0]),
                                sub.1,
                                rbp,
                            );
                        },
                        Err(_) => {},
                    }
                }
            },
            None => {},
        }
    }
}

/// From well-formed tokens the parse builds a well-formed tree, and the
/// remaining tokens are still well formed.
pub proof fn lemma_parse_bp_wf(ts: Seq<Tok>, rbp: u8)
    requires
        forall|i: int| 0 <= i < ts.len() ==> wf_tok(#[trigger] ts[i]),
    ensures
        spec_parse_bp(ts, rbp) matches Ok(r) ==> wf_model(r.0) && (forall|i: int|
            0 <= i < r.1.len() ==> wf_tok(#[trigger] r.1[i])),
    decreases ts.len(), 1int,
{
    if ts.len() > 0 {
        let t = ts[0];
        let rest0 = ts.drop_first();
        assert forall|i: int| 0 <= i < rest0.len() implies wf_tok(#[trigger] rest0[i]) by {
            assert(rest0[i] == ts[i + 1]);
        }
        match t {
            Tok::Symbol(_) => {
                lemma_parse_loop_wf(ExprModel::Atom(t), rest0, rbp);
            },
            Tok::Op(o) => {
                if o == seq!['('] {
                    lemma_parse_bp_consumes(rest0, 0);
                    lemma_parse_bp_wf(rest0, 0);
                    match spec_parse_bp(rest0, 0) {
                        Ok(sub) => {
                            if sub.1.len() > 0 && sub.1[0] == Tok::Op(seq![')']) {
                                let rest1 = sub.1.drop_first();
                                assert forall|i: int| 0 <= i < rest1.len() implies wf_tok(
                                    #[trigger] rest1[i],
                                ) by {
                                    assert(rest1[i] == sub.1[i + 1]);
                                }
                                lemma_parse_loop_wf(sub.0, rest1, rbp);
                            }
                        },
                        Err(_) => {},
                    }
                } else {
                    match spec_nud(t) {
                        Some(nrbp) => {
                            lemma_parse_bp_consumes(rest0, nrbp);
                            lemma_parse_bp_wf(rest0, nrbp);
                            match spec_parse_bp(rest0, nrbp) {
                                Ok(sub) => {
                                    let u = ExprModel::Apply(t, seq![sub.0]);
                                    lemma_wf_children(seq![sub.0], 0);
                                    assert(wf_model(u));
                                    lemma_parse_loop_wf(u, sub.1, rbp);
                                },
                                Err(_) => {},
                            }
                        },
                        None => {},
                    }
                }
            },
        }
    }
}

/// `lemma_parse_bp_wf` for the infix loop.
pub proof fn lemma_parse_loop_wf(left: ExprModel, ts: Seq<Tok>, rbp: u8)
    requires
        wf_model(left),
        forall|i: int| 0 <= i < ts.len() ==> wf_tok(#[trigger] ts[i]),
    ensures
        spec_parse_loop(left, ts, rbp) matches Ok(r) ==> wf_model(r.0) && (forall|i: int|
            0 <= i < r.1.len() ==> wf_tok(#[trigger] r.1[i])),
    decreases ts.len(), 0int,
{
    if ts.len() > 0 && !(ts[0] == Tok::Op(seq![')'])) {
        match spec_led(ts[0]) {
            Some(bp) => {
                if !(bp.0 <= rbp) {
                    let rest0 = ts.drop_first();
                    assert forall|i: int| 0 <= i < rest0.len() implies wf_tok(
                        #[trigger] rest0[i],
                    ) by {
                        assert(rest0[i] == ts[i + 1]);
                    }
                    lemma_parse_bp_consumes(rest0, bp.1);
                    lemma_parse_bp_wf(rest0, bp.1);
                    match spec_parse_bp(rest0, bp.1) {
                        Ok(sub) => {
                            let u = ExprModel::Apply(ts[0], seq![left, sub.0]);
                            lemma_wf_children(seq![left, sub.0], 0);
                            assert(wf_model(u));
                            lemma_parse_loop_wf(u, sub.1, rbp);
                        },
                        Err(_) => {},
                    }
                }
            },
            None => {},
        }
    }
}

/// The parse of an input text: tokenize, then run the binding-power
/// parse with minimum binding power 0. Tokens that remain after the
/// outermost parse stops (a stray `)` and whatever follows it) are
/// ignored, as the outermost call never consumes a closing parenthesis.
pub open spec fn spec_parse(input: Seq<char>) -> Result<ExprModel, ParseError> {
    match spec_parse_bp(spec_tokenize(input), 0) {
        Ok(r) => Ok(r.0),
        Err(e) => Err(e),
    }
}

/// Parse one expression from the front of the queue, absorbing infix
/// operators whose left binding power is at least `rbp`.
fn parse_bp(lexer: &mut Lexer, rbp: u8) -> (r: Result<Expr, ParseError>)
    ensures
        match r {
            Ok(e) => spec_parse_bp(old(lexer)@, rbp) == Ok::<(ExprModel, Seq<Tok>), ParseError>(
                (e@, final(lexer)@),
            ),
            Err(er) => spec_parse_bp(old(lexer)@, rbp) == Err::<
                (ExprModel, Seq<Tok>),
                ParseError,
            >(er),
        },
    decreases old(lexer)@.len(),
{
    let ghost ts0 = lexer@;
    let first = lexer.pop();
    let tok = match first {
        None => {
            return Err(ParseError::UnexpectedEndOfInput);
        },
        Some(tok) => tok,
    };
    let mut left: Expr;
    match &tok {
        Token::Symbol(_) => {
            left = Expr::Atom(tok);
            proof {
                assert(spec_parse_loop(left@, lexer@, rbp) == spec_parse_bp(ts0, rbp));
            }
        },
        Token::Op(_) => {
            if tok.is_left_paren() {
                let inner: Expr = match parse_bp(lexer, 0) {
                    Ok(e) => e,
                    Err(er) => {
                        return Err(er);
                    },
                };
                proof {
                    lemma_parse_bp_consumes(ts0.drop_first(), 0);
                }
                match lexer.pop() {
                    Some(closing) => {
                        if closing.is_right_paren() {
                            left = inner;
                            proof {
                                assert(spec_parse_loop(left@, lexer@, rbp) == spec_parse_bp(
                                    ts0,
                                    rbp,
                                ));
                            }
                        } else {
                            return Err(ParseError::UnmatchedParenthesis);
                        }
                    },
                    None => {
                        return Err(ParseError::UnmatchedParenthesis);
                    },
                }
            } else {
                match tok.nud() {
                    None => {
                        return Err(ParseError::UnexpectedPrefixOperator);
                    },
                    Some(nrbp) => {
                        let operand: Expr = match parse_bp(lexer, nrbp) {
                            Ok(e) => e,
                            Err(er) => {
                                return Err(er);
                            },
                        };
                        proof {
                            lemma_parse_bp_consumes(ts0.drop_first(), nrbp);
                        }
                        let ghost gtok = tok@;
                        let ghost gop = operand@;
                        let mut cs: Vec<Expr> = Vec::new();
                        cs.push(operand);
                        let ghost gcs = cs;
                        left = Expr::Cons(tok, cs);
                        proof {
                            lemma_children_view(gcs, 0);
                            assert(children_view(gcs, 0) =~= seq![gop]);
                            assert(left@ == ExprModel::Apply(gtok, seq![gop]));
                            assert(spec_parse_loop(left@, lexer@, rbp) == spec_parse_bp(
                                ts0,
                                rbp,
                            ));
                        }
                    },
                }
            }
        },
    }
    loop
        invariant
            spec_parse_loop(left@, lexer@, rbp) == spec_parse_bp(ts0, rbp),
            lexer@.len() < ts0.len(),
            ts0 == old(lexer)@,
        ensures
            spec_parse_loop(left@, lexer@, rbp) == Ok::<(ExprModel, Seq<Tok>), ParseError>(
                (left@, lexer@),
            ),
        decreases lexer@.len(),
    {
        let (lbp, nrbp): (u8, u8);
        match lexer.peek() {
            None => {
                break;
            },
            Some(t) => {
                if t.is_right_paren() {
                    break;
                }
                match t.led() {
                    None => {
                        return Err(ParseError::UnexpectedToken);
                    },
                    Some(bp) => {
                        lbp = bp.0;
                        nrbp = bp.1;
                    },
                }
            },
        }
        if lbp <= rbp {
            break;
        }
        let ghost before = lexer@;
        let op = match lexer.pop() {
            Some(op_tok) => op_tok,
            None => unreached(),
        };
        let right: Expr = match parse_bp(lexer, nrbp) {
            Ok(e) => e,
            Err(er) => {
                return Err(er);
            },
        };
        proof {
            lemma_parse_bp_consumes(before.drop_first(), nrbp);
        }
        let ghost gop_tok = op@;
        let ghost gleft = left@;
        let ghost gright = right@;
        let ghost vleft = left;
        let ghost vright = right;
        let mut cs: Vec<Expr> = Vec::new();
        cs.push(left);
        cs.push(right);
        let ghost gcs = cs;
        left = Expr::Cons(op, cs);
        proof {
            lemma_children_view(gcs, 0);
            assert(gcs@ =~= seq![vleft, vright]);
            assert(children_view(gcs, 0)[0] == expr_view(gcs@[0]));
            assert(children_view(gcs, 0)[1] == expr_view(gcs@[1]));
            assert(children_view(gcs, 0) =~= seq![gleft, gright]);
            assert(left@ == ExprModel::Apply(gop_tok, seq![gleft, gright]));
            assert(spec_parse_loop(gleft, before, rbp) == spec_parse_loop(left@, lexer@, rbp));
        }
    }
    Ok(left)
}

/// Parse `input` into an expression tree: the result is exactly what the
/// binding-power parse of the token sequence of `input` yields, and a
/// returned tree is well formed.
pub fn parse(input: &str) -> (r: Result<Expr, ParseError>)
    ensures
        match r {
            Ok(e) => spec_parse(input@) == Ok::<ExprModel, ParseError>(e@) && wf_model(e@),
            Err(er) => spec_parse(input@) == Err::<ExprModel, ParseError>(er),
        },
{
    let mut lexer = Lexer::new(input);
    let r = parse_bp(&mut lexer, 0);
    proof {
        lemma_tokenize_wf(input@);
        lemma_parse_bp_wf(spec_tokenize(input@), 0);
    }
    r
}

} // verus!
