use vstd::prelude::*;
use vstd::string::StrSliceExecFns;
use crate::token::{Tok, Token, is_op_char, is_space_char, is_symbol_char, wf_tok};

verus! {

/// Length of the maximal leading run of symbol characters of `s`.
pub open spec fn symbol_len(s: Seq<char>) -> int
    decreases s.len(),
{
    if s.len() == 0 || !is_symbol_char(s[0]) {
        0
    } else {
        1 + symbol_len(s.drop_first())
    }
}

pub proof fn lemma_symbol_len_bounds(s: Seq<char>)
    ensures
        0 <= symbol_len(s) <= s.len(),
        s.len() > 0 && is_symbol_char(s[0]) ==> symbol_len(s) >= 1,
    decreases s.len(),
{
    if !(s.len() == 0 || !is_symbol_char(s[0])) {
        lemma_symbol_len_bounds(s.drop_first());
    }
}

/// The maximal run is exact: if the first `k` characters are symbol
/// characters and the text ends there or a non-symbol character follows,
/// the run has length `k`.
pub proof fn lemma_symbol_len_exact(s: Seq<char>, k: int)
    requires
        0 <= k <= s.len(),
        forall|i: int| 0 <= i < k ==> is_symbol_char(s[i]),
        k == s.len() || !is_symbol_char(s[k]),
    ensures
        symbol_len(s) == k,
    decreases k,
{
    if k == 0 {
    } else {
        assert(is_symbol_char(s[0]));
        assert forall|i: int| 0 <= i < k - 1 implies is_symbol_char(s.drop_first()[i]) by {
            assert(s.drop_first()[i] == s[i + 1]);
        }
        if k < s.len() {
            assert(s.drop_first()[k - 1] == s[k]);
        }
        lemma_symbol_len_exact(s.drop_first(), k - 1);
    }
}

/// Every character of the maximal leading run is a symbol character.
pub proof fn lemma_symbol_run(s: Seq<char>)
    ensures
        forall|i: int| 0 <= i < symbol_len(s) ==> is_symbol_char(s[i]),
    decreases s.len(),
{
    if s.len() == 0 || !is_symbol_char(s[0]) {
    } else {
        lemma_symbol_len_bounds(s);
        lemma_symbol_run(s.drop_first());
        assert forall|i: int| 0 <= i < symbol_len(s) implies is_symbol_char(s[i]) by {
            if i > 0 {
                assert(s.drop_first()[i - 1] == s[i]);
            }
        }
    }
}

/// The token sequence of an input text: each operator character becomes a
/// standalone operator token, each maximal run of other non-whitespace
/// characters becomes one symbol token, and whitespace only separates.
pub open spec fn spec_tokenize(s: Seq<char>) -> Seq<Tok>
    decreases s.len(),
    via spec_tokenize_via
{
    if s.len() == 0 {
        Seq::empty()
    } else if is_space_char(s[0]) {
        spec_tokenize(s.drop_first())
    } else if is_op_char(s[0]) {
        seq![Tok::Op(seq![s[0]])] + spec_tokenize(s.drop_first())
    } else {
        seq![Tok::Symbol(s.take(symbol_len(s)))] + spec_tokenize(s.skip(symbol_len(s)))
    }
}

#[via_fn]
proof fn spec_tokenize_via(s: Seq<char>) {
    if s.len() > 0 && !is_space_char(s[0]) && !is_op_char(s[0]) {
        lemma_symbol_len_bounds(s);
    }
}

/// Every token the lexer produces is well formed.
pub proof fn lemma_tokenize_wf(s: Seq<char>)
    ensures
        forall|i: int| 0 <= i < spec_tokenize(s).len() ==> wf_tok(#[trigger] spec_tokenize(s)[i]),
    decreases s.len(),
{
    if s.len() == 0 {
    } else if is_space_char(s[0]) {
        lemma_tokenize_wf(s.drop_first());
    } else if is_op_char(s[0]) {
        lemma_tokenize_wf(s.drop_first());
        assert(wf_tok(Tok::Op(seq![s[0]])));
        assert forall|i: int| 0 <= i < spec_tokenize(s).len() implies wf_tok(
            #[trigger] spec_tokenize(s)[i],
        ) by {
            if i > 0 {
                assert(spec_tokenize(s)[i] == spec_tokenize(s.drop_first())[i - 1]);
            }
        }
    } else {
        lemma_symbol_len_bounds(s);
        lemma_symbol_run(s);
        lemma_tokenize_wf(s.skip(symbol_len(s)));
        let head = s.take(symbol_len(s));
        assert forall|i: int| 0 <= i < head.len() implies is_symbol_char(head[i]) by {
            assert(head[i] == s[i]);
        }
        assert(wf_tok(Tok::Symbol(head)));
        assert forall|i: int| 0 <= i < spec_tokenize(s).len() implies wf_tok(
            #[trigger] spec_tokenize(s)[i],
        ) by {
            if i > 0 {
                assert(spec_tokenize(s)[i] == spec_tokenize(s.skip(symbol_len(s)))[i - 1]);
            }
        }
    }
}

/// The models of a sequence of lexer tokens.
pub open spec fn toks_of(v: Seq<Token>) -> Seq<Tok> {
    Seq::new(v.len(), |i: int| v[i]@)
}

/// Is `c` one of the six operator characters?
fn op_char(c: char) -> (r: bool)
    ensures
        r == is_op_char(c),
{
    c == '+' || c == '-' || c == '*' || c == '/' || c == '(' || c == ')'
}

/// Is `c` whitespace that separates tokens?
fn space_char(c: char) -> (r: bool)
    ensures
        r == is_space_char(c),
{
    c == ' ' || c == '\t' || c == '\n' || c == '\r'
}

/// May `c` stand inside a symbol token?
fn symbol_char(c: char) -> (r: bool)
    ensures
        r == is_symbol_char(c),
{
    !op_char(c) && !space_char(c)
}

/// The token queue the parser consumes. Tokens are stored in reverse of
/// the original left-to-right order, so that the front of the queue is
/// the back of the vector and popping needs no shifting; the view is in
/// original order.
pub struct Lexer {
    tokens: Vec<Token>,
}

impl View for Lexer {
    type V = Seq<Tok>;

    closed spec fn view(&self) -> Seq<Tok> {
        Seq::new(self.tokens@.len(), |i: int| self.tokens@[self.tokens@.len() - 1 - i]@)
    }
}

impl Lexer {
    /// Tokenize `input` into a fresh queue.
    pub fn new(input: &str) -> (lexer: Lexer)
        ensures
            lexer@ == spec_tokenize(input@),
    {
        let n: usize = input.unicode_len();
        let mut fwd: Vec<Token> = Vec::new();
        let mut i: usize = 0;
        proof {
            assert(input@.skip(0) =~= input@);
            assert(toks_of(fwd@) + spec_tokenize(input@) =~= spec_tokenize(input@));
        }
        while i < n
            invariant
                i <= n,
                n == input@.len(),
                spec_tokenize(input@) == toks_of(fwd@) + spec_tokenize(input@.skip(i as int)),
            decreases n - i,
        {
            let ghost pre = input@.skip(i as int);
            assert(pre.len() > 0 && pre[0] == input@[i as int]);
            let c = input.get_char(i);
            if space_char(c) {
                proof {
                    assert(pre.drop_first() =~= input@.skip(i as int + 1));
                }
                i = i + 1;
            } else if op_char(c) {
                let txt = input.substring_char(i, i + 1).to_owned();
                let ghost old_fwd = fwd@;
                fwd.push(Token::Op(txt));
                proof {
                    assert(txt@ =~= seq![c]);
                    assert(pre.drop_first() =~= input@.skip(i as int + 1));
                    assert(toks_of(fwd@) =~= toks_of(old_fwd) + seq![Tok::Op(seq![c])]);
                    assert(toks_of(fwd@) + spec_tokenize(input@.skip(i as int + 1))
                        =~= toks_of(old_fwd) + spec_tokenize(pre));
                }
                i = i + 1;
            } else {
                let mut j: usize = i + 1;
                while j < n && symbol_char(input.get_char(j))
                    invariant
                        i < j <= n,
                        n == input@.len(),
                        forall|k: int| i <= k < j ==> is_symbol_char(input@[k]),
                    decreases n - j,
                {
                    j = j + 1;
                }
                let txt = input.substring_char(i, j).to_owned();
                let ghost old_fwd = fwd@;
                fwd.push(Token::Symbol(txt));
                proof {
                    assert forall|k: int| 0 <= k < j - i implies is_symbol_char(pre[k]) by {
                        assert(pre[k] == input@[i + k]);
                    }
                    if j < n {
                        assert(pre[j - i] == input@[j as int]);
                    }
                    lemma_symbol_len_exact(pre, j - i);
                    assert(txt@ =~= pre.take(j - i));
                    assert(pre.skip(j - i) =~= input@.skip(j as int));
                    assert(toks_of(fwd@) =~= toks_of(old_fwd) + seq![Tok::Symbol(txt@)]);
                    assert(toks_of(fwd@) + spec_tokenize(input@.skip(j as int))
                        =~= toks_of(old_fwd) + spec_tokenize(pre));
                }
                i = j;
            }
        }
        proof {
            assert(input@.skip(n as int) =~= Seq::<char>::empty());
            assert(spec_tokenize(input@) =~= toks_of(fwd@));
        }
        let ghost orig = fwd@;
        let mut tokens: Vec<Token> = Vec::new();
        loop
            invariant
                fwd@.len() + tokens@.len() == orig.len(),
                fwd@ =~= orig.take(fwd@.len() as int),
                forall|k: int|
                    0 <= k < tokens@.len() ==> tokens@[k] == orig[orig.len() - 1 - k],
            ensures
                fwd@.len() == 0,
                tokens@.len() == orig.len(),
                forall|k: int|
                    0 <= k < tokens@.len() ==> tokens@[k] == orig[orig.len() - 1 - k],
            decreases fwd@.len(),
        {
            let ghost old_fwd = fwd@;
            match fwd.pop() {
                Some(t) => {
                    proof {
                        assert(t == orig[old_fwd.len() - 1]);
                    }
                    tokens.push(t);
                    proof {
                        assert(fwd@ =~= orig.take(fwd@.len() as int));
                    }
                }
                None => {
                    break;
                }
            }
        }
        let lexer = Lexer { tokens };
        proof {
            assert(lexer@ =~= toks_of(orig));
        }
        lexer
    }

    /// Remove and return the front token of the original left-to-right
    /// order, or `None` when the queue is exhausted.
    pub fn pop(&mut self) -> (r: Option<Token>)
        ensures
            match r {
                Some(t) => old(self)@.len() > 0 && t@ == old(self)@[0] && final(self)@ == old(
                    self,
                )@.drop_first(),
                None => old(self)@.len() == 0 && final(self)@ == old(self)@,
            },
    {
        let r = self.tokens.pop();
        proof {
            if old(self)@.len() > 0 {
                assert(self@ =~= old(self)@.drop_first());
            } else {
                assert(self@ =~= old(self)@);
            }
        }
        r
    }

    /// Inspect the front token without consuming it, or `None` when the
    /// queue is exhausted.
    pub fn peek(&self) -> (r: Option<&Token>)
        ensures
            match r {
                Some(t) => self@.len() > 0 && t@ == self@[0],
                None => self@.len() == 0,
            },
    {
        if self.tokens.len() == 0 {
            None
        } else {
            Some(&self.tokens[self.tokens.len() - 1])
        }
    }
}

} // verus!
