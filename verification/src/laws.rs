use vstd::prelude::*;
use crate::ast::{
    prefix_only, prefix_only_children, render_children, spec_render, wf_children, wf_model,
    ExprModel,
};
use crate::lexer::{lemma_symbol_len_exact, lemma_tokenize_wf, spec_tokenize};
use crate::parser::{
    lemma_parse_bp_wf, spec_parse, spec_parse_bp, spec_parse_loop, ParseError,
};
use crate::token::{is_op_char, is_symbol_char, spec_nud, tok_text, Tok};

verus! {

/// The token sequence that tokenizing a rendered tree yields.
pub open spec fn render_toks(m: ExprModel) -> Seq<Tok>
    decreases m, 0int,
{
    match m {
        ExprModel::Atom(t) => seq![t],
        ExprModel::Apply(t, cs) => seq![Tok::Op(seq!['(']), t] + render_children_toks(cs, 0)
            + seq![Tok::Op(seq![')'])],
    }
}

/// The token sequences of the rendered children `cs[i..]`.
pub open spec fn render_children_toks(cs: Seq<ExprModel>, i: int) -> Seq<Tok>
    decreases cs, cs.len() - i + 1int,
{
    if i < 0 || i >= cs.len() {
        Seq::empty()
    } else {
        render_toks(cs[i]) + render_children_toks(cs, i + 1)
    }
}

/// Tokenizing a rendered well-formed tree, followed by any text that does
/// not begin with a symbol character, yields the tree's tokens followed
/// by the tokens of the rest of the text.
pub proof fn lemma_tokenize_render(m: ExprModel, rest: Seq<char>)
    requires
        wf_model(m),
        rest.len() == 0 || !is_symbol_char(rest[0]),
    ensures
        spec_tokenize(spec_render(m) + rest) == render_toks(m) + spec_tokenize(rest),
    decreases m, 0int,
{
    match m {
        ExprModel::Atom(t) => {
            let s = tok_text(t);
            let full = s + rest;
            assert(full[0] == s[0]);
            assert(is_symbol_char(full[0]));
            assert forall|i: int| 0 <= i < s.len() implies is_symbol_char(full[i]) by {
                assert(full[i] == s[i]);
            }
            if s.len() < full.len() {
                assert(full[s.len() as int] == rest[0]);
            }
            lemma_symbol_len_exact(full, s.len() as int);
            assert(full.take(s.len() as int) =~= s);
            assert(full.skip(s.len() as int) =~= rest);
            assert(spec_tokenize(full) == seq![Tok::Symbol(s)] + spec_tokenize(rest));
            assert(seq![Tok::Symbol(s)] =~= render_toks(m));
            assert(spec_tokenize(spec_render(m) + rest) == render_toks(m) + spec_tokenize(rest));
        },
        ExprModel::Apply(t, cs) => {
            let o = tok_text(t);
            assert(o.len() == 1 && is_op_char(o[0]));
            assert(o =~= seq![o[0]]);
            let rc = render_children(cs, 0);
            let full = spec_render(m) + rest;
            let tail1 = o + rc + seq![')'] + rest;
            assert(full =~= seq!['('] + tail1);
            assert(full[0] == '(');
            assert(full.drop_first() =~= tail1);
            assert(spec_tokenize(full) == seq![Tok::Op(seq!['('])] + spec_tokenize(tail1));
            let tail2 = rc + (seq![')'] + rest);
            assert(tail1[0] == o[0]);
            assert(tail1.drop_first() =~= tail2);
            assert(spec_tokenize(tail1) == seq![Tok::Op(seq![tail1[0]])] + spec_tokenize(tail2));
            assert(Tok::Op(seq![tail1[0]]) == t);
            let close = seq![')'] + rest;
            assert(close[0] == ')');
            assert(!is_symbol_char(close[0]));
            lemma_tokenize_render_children(cs, 0, close);
            assert(close.drop_first() =~= rest);
            assert(spec_tokenize(close) == seq![Tok::Op(seq![')'])] + spec_tokenize(rest));
            assert(spec_tokenize(full) =~= render_toks(m) + spec_tokenize(rest));
        },
    }
}

/// `lemma_tokenize_render` over the children `cs[i..]`.
pub proof fn lemma_tokenize_render_children(cs: Seq<ExprModel>, i: int, rest: Seq<char>)
    requires
        0 <= i <= cs.len(),
        wf_children(cs, i),
        rest.len() == 0 || !is_symbol_char(rest[0]),
    ensures
        spec_tokenize(render_children(cs, i) + rest) == render_children_toks(cs, i)
            + spec_tokenize(rest),
    decreases cs, cs.len() - i + 1int,
{
    if i >= cs.len() {
        assert(render_children(cs, i) + rest =~= rest);
        assert(render_children_toks(cs, i) + spec_tokenize(rest) =~= spec_tokenize(rest));
    } else {
        let tail = render_children(cs, i + 1);
        let suffix = tail + rest;
        if i + 1 < cs.len() {
            assert(tail == seq![' '] + spec_render(cs[i + 1]) + render_children(cs, i + 2));
            assert(tail[0] == ' ');
            assert(suffix[0] == ' ');
            assert(!is_symbol_char(suffix[0]));
        } else {
            assert(tail =~= Seq::<char>::empty());
            assert(suffix =~= rest);
        }
        let full = render_children(cs, i) + rest;
        assert(full =~= seq![' '] + (spec_render(cs[i]) + suffix));
        assert(full[0] == ' ');
        assert(full.drop_first() =~= spec_render(cs[i]) + suffix);
        assert(spec_tokenize(full) == spec_tokenize(spec_render(cs[i]) + suffix));
        lemma_tokenize_render(cs[i], suffix);
        lemma_tokenize_render_children(cs, i + 1, rest);
        assert(suffix =~= render_children(cs, i + 1) + rest);
        assert(spec_tokenize(full) =~= render_children_toks(cs, i) + spec_tokenize(rest));
    }
}

/// Parsing the tokens of a rendered tree that holds no binary
/// application, followed by any remaining tokens, parses exactly the tree
/// back and continues the infix loop on the remaining tokens.
pub proof fn lemma_parse_render_toks(m: ExprModel, rest: Seq<Tok>, rbp: u8)
    requires
        wf_model(m),
        prefix_only(m),
    ensures
        spec_parse_bp(render_toks(m) + rest, rbp) == spec_parse_loop(m, rest, rbp),
    decreases m,
{
    match m {
        ExprModel::Atom(t) => {
            let ts = render_toks(m) + rest;
            assert(ts[0] == t);
            assert(t is Symbol);
            assert(ts.drop_first() =~= rest);
            assert(spec_parse_bp(ts, rbp) == spec_parse_loop(m, rest, rbp));
        },
        ExprModel::Apply(t, cs) => {
            let c = cs[0];
            assert(cs.len() == 1);
            assert(wf_children(cs, 0));
            assert(wf_model(c));
            assert(prefix_only_children(cs, 0));
            assert(prefix_only(c));
            let o = tok_text(t);
            assert(t is Op && (o == seq!['+'] || o == seq!['-']));
            assert(o != seq!['(']) by {
                if o == seq!['('] {
                    assert(o[0] == '(');
                }
            }
            let lp = Tok::Op(seq!['(']);
            let rp = Tok::Op(seq![')']);
            assert(render_children_toks(cs, 1) =~= Seq::<Tok>::empty());
            assert(render_children_toks(cs, 0) =~= render_toks(c));
            let ts = render_toks(m) + rest;
            let rest0 = ts.drop_first();
            assert(ts[0] == lp);
            assert(rest0 =~= seq![t] + render_toks(c) + seq![rp] + rest);
            let rest1 = rest0.drop_first();
            assert(rest0[0] == t);
            assert(rest1 =~= render_toks(c) + (seq![rp] + rest));
            assert(decreases_to!(m => cs));
            assert(decreases_to!(cs => cs[0]));
            lemma_parse_render_toks(c, seq![rp] + rest, 30u8);
            let after = seq![rp] + rest;
            assert(after[0] == rp);
            assert(spec_parse_loop(c, after, 30u8) == Ok::<(ExprModel, Seq<Tok>), ParseError>(
                (c, after),
            ));
            assert(spec_parse_bp(rest1, 30u8) == Ok::<(ExprModel, Seq<Tok>), ParseError>(
                (c, after),
            ));
            assert(spec_nud(t) == Some(30u8));
            assert(after.len() <= rest0.len());
            assert(ExprModel::Apply(t, seq![c]) == m) by {
                assert(seq![c] =~= cs);
            }
            assert(spec_parse_loop(m, after, 0u8) == Ok::<(ExprModel, Seq<Tok>), ParseError>(
                (m, after),
            ));
            assert(spec_parse_bp(rest0, 0u8) == Ok::<(ExprModel, Seq<Tok>), ParseError>(
                (m, after),
            ));
            assert(after.len() <= ts.len());
            assert(after.drop_first() =~= rest);
            assert(spec_parse_bp(ts, rbp) == spec_parse_loop(m, rest, rbp));
        },
    }
}

/// Round trip: when a parse succeeds with a tree of atoms and unary
/// prefix applications only, rendering that tree and parsing the
/// rendered text yields the structurally identical tree, so the rendered
/// form is a stable normal form for such trees. (Parsing and rendering
/// have no other inputs, so the rendered form is also deterministic.)
/// A tree with a binary application renders in prefix notation, which
/// the infix grammar does not accept, and is therefore outside this law.
pub proof fn lemma_render_parse_round_trip(input: Seq<char>, m: ExprModel)
    requires
        spec_parse(input) == Ok::<ExprModel, ParseError>(m),
        prefix_only(m),
    ensures
        spec_parse(spec_render(m)) == Ok::<ExprModel, ParseError>(m),
{
    lemma_tokenize_wf(input);
    lemma_parse_bp_wf(spec_tokenize(input), 0u8);
    assert(wf_model(m));
    lemma_tokenize_render(m, Seq::empty());
    assert(spec_render(m) + Seq::<char>::empty() =~= spec_render(m));
    assert(spec_tokenize(Seq::<char>::empty()) =~= Seq::<Tok>::empty());
    assert(spec_tokenize(spec_render(m)) == render_toks(m));
    lemma_parse_render_toks(m, Seq::empty(), 0u8);
    assert(render_toks(m) + Seq::<Tok>::empty() =~= render_toks(m));
    assert(spec_parse_loop(m, Seq::<Tok>::empty(), 0u8) == Ok::<
        (ExprModel, Seq<Tok>),
        ParseError,
    >((m, Seq::<Tok>::empty())));
    assert(spec_parse_bp(render_toks(m), 0u8) == Ok::<(ExprModel, Seq<Tok>), ParseError>(
        (m, Seq::<Tok>::empty()),
    ));
}

} // verus!
