use vstd::prelude::*;
use vstd::string::StringExecFns;
use crate::token::{Tok, Token, is_symbol_text, spec_led, spec_nud, tok_text};

verus! {

/// An expression tree in the shape of an S-expression: a leaf holds one
/// symbol token, an interior node holds one operator token applied to an
/// ordered sequence of one (unary prefix) or two (binary) children.
#[derive(Debug, PartialEq)]
pub enum Expr {
    Atom(Token),
    Cons(Token, Vec<Expr>),
}

/// The mathematical model of an expression tree.
pub enum ExprModel {
    Atom(Tok),
    Apply(Tok, Seq<ExprModel>),
}

/// The model of an expression tree.
pub open spec fn expr_view(e: Expr) -> ExprModel
    decreases e, 0int,
{
    match e {
        Expr::Atom(t) => ExprModel::Atom(t@),
        Expr::Cons(t, cs) => ExprModel::Apply(t@, children_view(cs, 0)),
    }
}

/// The models of the children `cs[i..]`.
pub open spec fn children_view(cs: Vec<Expr>, i: int) -> Seq<ExprModel>
    decreases cs, cs@.len() - i + 1int,
{
    if i < 0 || i >= cs@.len() {
        Seq::empty()
    } else {
        seq![expr_view(cs@[i])] + children_view(cs, i + 1)
    }
}

impl View for Expr {
    type V = ExprModel;

    open spec fn view(&self) -> ExprModel {
        expr_view(*self)
    }
}

pub proof fn lemma_children_view(cs: Vec<Expr>, i: int)
    requires
        0 <= i <= cs@.len(),
    ensures
        children_view(cs, i).len() == cs@.len() - i,
        forall|k: int|
            i <= k < cs@.len() ==> children_view(cs, i)[k - i] == expr_view(cs@[k]),
    decreases cs@.len() - i,
{
    if i < cs@.len() {
        lemma_children_view(cs, i + 1);
    }
}

/// A well-formed tree: an atom holds a symbol token carrying non-empty
/// symbol text, and an application holds an operator token with exactly
/// one child when the operator has a prefix binding power, or exactly two
/// children when it has infix binding powers.
pub open spec fn wf_model(m: ExprModel) -> bool
    decreases m, 0int,
{
    match m {
        ExprModel::Atom(t) => t is Symbol && is_symbol_text(tok_text(t)),
        ExprModel::Apply(t, cs) => {
            &&& (cs.len() == 1 && spec_nud(t) is Some) || (cs.len() == 2 && spec_led(t) is Some)
            &&& wf_children(cs, 0)
        },
    }
}

/// Well-formedness of the children `cs[i..]`.
pub open spec fn wf_children(cs: Seq<ExprModel>, i: int) -> bool
    decreases cs, cs.len() - i + 1int,
{
    if i < 0 || i >= cs.len() {
        true
    } else {
        wf_model(cs[i]) && wf_children(cs, i + 1)
    }
}

pub proof fn lemma_wf_children(cs: Seq<ExprModel>, i: int)
    requires
        0 <= i <= cs.len(),
    ensures
        wf_children(cs, i) <==> (forall|k: int| i <= k < cs.len() ==> wf_model(#[trigger] cs[k])),
    decreases cs.len() - i,
{
    if i < cs.len() {
        lemma_wf_children(cs, i + 1);
    }
}

/// A tree built of atoms and unary prefix applications only, with no
/// binary node.
pub open spec fn prefix_only(m: ExprModel) -> bool
    decreases m, 0int,
{
    match m {
        ExprModel::Atom(_) => true,
        ExprModel::Apply(_, cs) => cs.len() == 1 && prefix_only_children(cs, 0),
    }
}

/// `prefix_only` over the children `cs[i..]`.
pub open spec fn prefix_only_children(cs: Seq<ExprModel>, i: int) -> bool
    decreases cs, cs.len() - i + 1int,
{
    if i < 0 || i >= cs.len() {
        true
    } else {
        prefix_only(cs[i]) && prefix_only_children(cs, i + 1)
    }
}

/// The text of a rendered tree: an atom renders as its symbol text; an
/// application renders as `(`, the operator text, each child's rendering
/// preceded by a single space, and `)`.
pub open spec fn spec_render(m: ExprModel) -> Seq<char>
    decreases m, 0int,
{
    match m {
        ExprModel::Atom(t) => tok_text(t),
        ExprModel::Apply(t, cs) => seq!['('] + tok_text(t) + render_children(cs, 0) + seq![')'],
    }
}

/// The renderings of the children `cs[i..]`, each preceded by a space.
pub open spec fn render_children(cs: Seq<ExprModel>, i: int) -> Seq<char>
    decreases cs, cs.len() - i + 1int,
{
    if i < 0 || i >= cs.len() {
        Seq::empty()
    } else {
        seq![' '] + spec_render(cs[i]) + render_children(cs, i + 1)
    }
}

impl Expr {
    /// Render this tree as fully parenthesized prefix text.
    pub fn render(&self) -> (r: String)
        ensures
            r@ == spec_render(self@),
        decreases *self,
    {
        match self {
            Expr::Atom(t) => match t {
                Token::Symbol(s) => s.clone(),
                Token::Op(s) => s.clone(),
            },
            Expr::Cons(t, cs) => {
                let ghost cv = children_view(*cs, 0);
                let mut out = String::new();
                out.append("(");
                match t {
                    Token::Symbol(s) => out.append(s.as_str()),
                    Token::Op(s) => out.append(s.as_str()),
                }
                proof {
                    reveal_strlit("(");
                    lemma_children_view(*cs, 0);
                    assert(out@ + render_children(cv, 0) + seq![')'] =~= spec_render(self@));
                }
                let mut k: usize = 0;
                while k < cs.len()
                    invariant
                        k <= cs@.len(),
                        cv == children_view(*cs, 0),
                        cv.len() == cs@.len(),
                        forall|j: int| 0 <= j < cs@.len() ==> cv[j] == expr_view(cs@[j]),
                        out@ + render_children(cv, k as int) + seq![')'] == spec_render(
                            expr_view(*self),
                        ),
                        self is Cons,
                        *cs == self->Cons_1,
                    decreases cs@.len() - k,
                {
                    let ghost pre = out@;
                    out.append(" ");
                    proof {
                        assert(*cs == self->Cons_1);
                        assert(decreases_to!(*self => self->Cons_1));
                        assert(decreases_to!(*cs => cs@));
                        assert(decreases_to!(cs@ => cs@[k as int]));
                        assert(decreases_to!(*self => cs@[k as int]));
                    }
                    let child = cs[k].render();
                    out.append(child.as_str());
                    proof {
                        reveal_strlit(" ");
                        assert(render_children(cv, k as int) == seq![' '] + spec_render(
                            cv[k as int],
                        ) + render_children(cv, k as int + 1));
                        assert(out@ + render_children(cv, k as int + 1) + seq![')'] =~= pre
                            + render_children(cv, k as int) + seq![')']);
                    }
                    k = k + 1;
                }
                let ghost pre = out@;
                out.append(")");
                proof {
                    reveal_strlit(")");
                    assert(render_children(cv, cs@.len() as int) =~= Seq::<char>::empty());
                    assert(out@ =~= pre + render_children(cv, cs@.len() as int) + seq![')']);
                }
                out
            },
        }
    }
}

} // verus!
