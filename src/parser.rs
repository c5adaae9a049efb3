use vstd::prelude::*;

use crate::ast::{
    node_wf, nodes_wf, program_value, view_node, view_nodes, MultipleOperator, Node, NodeView,
    OperatorKind, Program,
};
use crate::chars::{alphabetic, numeric};
use crate::lexer::{
    alpha_end, law_number_run, lemma_alpha_end_exact, lemma_alpha_end_range, lemma_lex_step_advances,
    lemma_numeric_end_exact, lemma_numeric_end_range, lemma_skip_ws_range, lex_step, lookahead_token,
    number_end, numeric_end, skip_ws, word_token, Lexer,
};
use crate::number::{decimal_text, literal_value, Number};
use crate::tokens::{Token, TokenView};

verus! {

/// Why a source text could not be parsed.
#[derive(Debug, Clone, Copy, PartialEq, Eq)]
pub enum ParseError {
    /// A token that no node starts with reached node dispatch.
    UnexpectedToken,
    /// An operator was not followed by `(`.
    MissingLeftParen,
    /// The input ended before the `)` that closes an argument list.
    UnterminatedArgumentList,
    /// A number literal does not read as a number.
    InvalidNumberLiteral,
}

/// The tokens of `s` from position `i` on, up to the end of input.
pub open spec fn tokens_from(s: Seq<char>, i: int) -> Seq<TokenView>
    decreases s.len() - i,
{
    let (t, p) = lex_step(s, i);
    if t is Eof || p <= i || p > s.len() {
        seq![]
    } else {
        seq![t] + tokens_from(s, p)
    }
}

/// The tokens of a whole source text.
pub open spec fn tokens_of(s: Seq<char>) -> Seq<TokenView> {
    tokens_from(s, 0)
}

/// Parses one node from the front of `toks`, giving the node and the tokens after it.
pub open spec fn parse_node_spec(toks: Seq<TokenView>) -> Result<
    (NodeView, Seq<TokenView>),
    ParseError,
>
    decreases toks.len(), 0nat,
{
    if toks.len() == 0 {
        Err(ParseError::UnexpectedToken)
    } else {
        match toks[0] {
            TokenView::Number(t) => match literal_value(t) {
                Some((m, s)) => Ok((NodeView::Num(m, s), toks.drop_first())),
                None => Err(ParseError::InvalidNumberLiteral),
            },
            TokenView::Plus => if toks.len() > 1 && toks[1] is LParen {
                parse_args_spec(toks.subrange(2, toks.len() as int), seq![])
            } else {
                Err(ParseError::MissingLeftParen)
            },
            _ => Err(ParseError::UnexpectedToken),
        }
    }
}

/// Parses the arguments of an addition after its `(`, with `acc` already read, through
/// the closing `)`.
pub open spec fn parse_args_spec(toks: Seq<TokenView>, acc: Seq<NodeView>) -> Result<
    (NodeView, Seq<TokenView>),
    ParseError,
>
    decreases toks.len(), 1nat,
{
    if toks.len() == 0 {
        Err(ParseError::UnterminatedArgumentList)
    } else if toks[0] is RParen {
        Ok((NodeView::Apply(OperatorKind::Addition, acc), toks.drop_first()))
    } else {
        match parse_node_spec(toks) {
            Ok((n, rest)) => if rest.len() < toks.len() {
                parse_args_spec(rest, acc.push(n))
            } else {
                Err(ParseError::UnexpectedToken)
            },
            Err(e) => Err(e),
        }
    }
}

/// Parses top-level nodes until the tokens run out, with `acc` already read.
pub open spec fn parse_nodes_spec(toks: Seq<TokenView>, acc: Seq<NodeView>) -> Result<
    Seq<NodeView>,
    ParseError,
>
    decreases toks.len(),
{
    if toks.len() == 0 {
        Ok(acc)
    } else {
        match parse_node_spec(toks) {
            Ok((n, rest)) => if rest.len() < toks.len() {
                parse_nodes_spec(rest, acc.push(n))
            } else {
                Err(ParseError::UnexpectedToken)
            },
            Err(e) => Err(e),
        }
    }
}

/// The program that a source text parses to.
pub open spec fn parse_source(s: Seq<char>) -> Result<Seq<NodeView>, ParseError> {
    parse_nodes_spec(tokens_of(s), seq![])
}

/// Parsing a node consumes at least one token.
pub proof fn lemma_parse_node_consumes(toks: Seq<TokenView>)
    ensures
        parse_node_spec(toks) matches Ok((n, rest)) ==> rest.len() < toks.len(),
    decreases toks.len(), 0nat,
{
    if toks.len() > 0 && toks[0] is Plus && toks.len() > 1 && toks[1] is LParen {
        lemma_parse_args_consumes(toks.subrange(2, toks.len() as int), seq![]);
    }
}

pub proof fn lemma_parse_args_consumes(toks: Seq<TokenView>, acc: Seq<NodeView>)
    ensures
        parse_args_spec(toks, acc) matches Ok((n, rest)) ==> rest.len() < toks.len(),
    decreases toks.len(), 1nat,
{
    if toks.len() > 0 && !(toks[0] is RParen) {
        lemma_parse_node_consumes(toks);
        if let Ok((n, rest)) = parse_node_spec(toks) {
            if rest.len() < toks.len() {
                lemma_parse_args_consumes(rest, acc.push(n));
            }
        }
    }
}

proof fn lemma_node_without_rparen(toks: Seq<TokenView>)
    requires
        forall|k: int| 0 <= k < toks.len() ==> !(#[trigger] toks[k] is RParen),
    ensures
        parse_node_spec(toks) matches Ok((n, rest)) ==> toks[0] is Number && rest
            == toks.drop_first(),
    decreases toks.len(), 0nat,
{
    if toks.len() > 1 && toks[0] is Plus && toks[1] is LParen {
        let args = toks.subrange(2, toks.len() as int);
        assert forall|k: int| 0 <= k < args.len() implies !(#[trigger] args[k] is RParen) by {
            assert(args[k] == toks[k + 2]);
        }
        lemma_args_without_rparen(args, seq![]);
    }
}

proof fn lemma_args_without_rparen(toks: Seq<TokenView>, acc: Seq<NodeView>)
    requires
        forall|k: int| 0 <= k < toks.len() ==> !(#[trigger] toks[k] is RParen),
    ensures
        parse_args_spec(toks, acc) is Err,
    decreases toks.len(), 1nat,
{
    if toks.len() > 0 {
        lemma_node_without_rparen(toks);
        if let Ok((n, rest)) = parse_node_spec(toks) {
            assert forall|k: int| 0 <= k < rest.len() implies !(#[trigger] rest[k] is RParen) by {
                assert(rest[k] == toks[k + 1]);
            }
            lemma_args_without_rparen(rest, acc.push(n));
        }
    }
}

/// A program that starts with an operator call and has no closing parenthesis anywhere
/// fails to parse: no truncated result is returned.
pub proof fn law_unclosed_call_fails(s: Seq<char>)
    requires
        tokens_of(s).len() > 0,
        tokens_of(s)[0] is Plus,
        forall|k: int| 0 <= k < tokens_of(s).len() ==> !(#[trigger] tokens_of(s)[k] is RParen),
    ensures
        parse_source(s) is Err,
{
    let toks = tokens_of(s);
    lemma_node_without_rparen(toks);
}

/// Parsing a number literal and evaluating the program gives the text of the number
/// that the literal denotes.
pub proof fn law_literal_round_trip(int_part: Seq<char>, frac_part: Option<Seq<char>>)
    requires
        int_part.len() > 0,
        !alphabetic(int_part[0]),
        forall|k: int| 0 <= k < int_part.len() ==> numeric(#[trigger] int_part[k]),
        frac_part matches Some(f) ==> forall|k: int|
            0 <= k < f.len() ==> numeric(#[trigger] f[k]),
    ensures
        ({
            let t = match frac_part {
                Some(f) => int_part + seq!['.'] + f,
                None => int_part,
            };
            match literal_value(t) {
                Some((m, sc)) => parse_source(t) == Ok::<Seq<NodeView>, ParseError>(
                    seq![NodeView::Num(m, sc)],
                ) && program_value(seq![NodeView::Num(m, sc)]) == decimal_text(m, sc),
                None => parse_source(t) == Err::<Seq<NodeView>, ParseError>(
                    ParseError::InvalidNumberLiteral,
                ),
            }
        }),
{
    let t = match frac_part {
        Some(f) => int_part + seq!['.'] + f,
        None => int_part,
    };
    law_number_run(int_part, frac_part);
    lemma_lex_step_advances(t, 0);
    lemma_lex_step_advances(t, t.len() as int);
    assert(tokens_from(t, t.len() as int) =~= seq![]);
    assert(tokens_of(t) =~= seq![TokenView::Number(t)]);
    let toks = tokens_of(t);
    assert(toks.drop_first() =~= seq![]);
    if let Some((m, sc)) = literal_value(t) {
        let one = seq![NodeView::Num(m, sc)];
        assert(parse_node_spec(toks) == Ok::<(NodeView, Seq<TokenView>), ParseError>(
            (NodeView::Num(m, sc), seq![]),
        ));
        assert(seq![].push(NodeView::Num(m, sc)) =~= one);
        assert(parse_nodes_spec(seq![], one) == Ok::<Seq<NodeView>, ParseError>(one));
        assert(one.last() == NodeView::Num(m, sc));
        assert(program_value(one) == decimal_text(m, sc));
    }
}

proof fn lemma_skip_ws_shift(a: Seq<char>, r: Seq<char>, i: int)
    requires
        a.len() <= i <= a.len() + r.len(),
    ensures
        skip_ws(a + r, i) == skip_ws(r, i - a.len()) + a.len(),
    decreases a.len() + r.len() - i,
{
    if i < a.len() + r.len() {
        assert((a + r)[i] == r[i - a.len()]);
        lemma_skip_ws_shift(a, r, i + 1);
    }
}

proof fn lemma_alpha_end_shift(a: Seq<char>, r: Seq<char>, i: int)
    requires
        a.len() <= i <= a.len() + r.len(),
    ensures
        alpha_end(a + r, i) == alpha_end(r, i - a.len()) + a.len(),
    decreases a.len() + r.len() - i,
{
    if i < a.len() + r.len() {
        assert((a + r)[i] == r[i - a.len()]);
        lemma_alpha_end_shift(a, r, i + 1);
    }
}

proof fn lemma_numeric_end_shift(a: Seq<char>, r: Seq<char>, i: int)
    requires
        a.len() <= i <= a.len() + r.len(),
    ensures
        numeric_end(a + r, i) == numeric_end(r, i - a.len()) + a.len(),
    decreases a.len() + r.len() - i,
{
    if i < a.len() + r.len() {
        assert((a + r)[i] == r[i - a.len()]);
        lemma_numeric_end_shift(a, r, i + 1);
    }
}

/// Lexing past a prefix reads only what follows it.
proof fn lemma_lex_step_shift(a: Seq<char>, r: Seq<char>, i: int)
    requires
        a.len() <= i <= a.len() + r.len(),
    ensures
        lex_step(a + r, i) == (lex_step(r, i - a.len()).0, lex_step(r, i - a.len()).1 + a.len()),
{
    let s = a + r;
    let n = a.len() as int;
    lemma_skip_ws_shift(a, r, i);
    lemma_skip_ws_range(r, i - n);
    let p = skip_ws(s, i);
    if p < s.len() {
        assert(s[p] == r[p - n]);
        if p + 1 < s.len() {
            assert(s[p + 1] == r[p + 1 - n]);
        }
        lemma_alpha_end_shift(a, r, p);
        lemma_alpha_end_range(r, p - n);
        lemma_numeric_end_shift(a, r, p);
        lemma_numeric_end_range(r, p - n);
        let e = numeric_end(s, p);
        if e < s.len() {
            assert(s[e] == r[e - n]);
            lemma_numeric_end_shift(a, r, e + 1);
            lemma_numeric_end_range(r, numeric_end(r, p - n) + 1);
        }
        let ea = alpha_end(s, p);
        assert(s.subrange(p, ea) =~= r.subrange(p - n, ea - n));
        let en = number_end(s, p);
        assert(s.subrange(p, en) =~= r.subrange(p - n, en - n));
    }
}

proof fn lemma_tokens_shift(a: Seq<char>, r: Seq<char>, i: int)
    requires
        a.len() <= i <= a.len() + r.len(),
    ensures
        tokens_from(a + r, i) == tokens_from(r, i - a.len()),
    decreases a.len() + r.len() - i,
{
    lemma_lex_step_shift(a, r, i);
    lemma_lex_step_advances(r, i - a.len());
    let (t, p) = lex_step(a + r, i);
    if !(t is Eof) && p > i && p <= a.len() + r.len() {
        lemma_tokens_shift(a, r, p);
    }
}

/// Where the input starts with `a` and lexing reads exactly `a` as the token `t`, the
/// tokens are `t` followed by those of the rest.
proof fn lemma_tokens_after(a: Seq<char>, r: Seq<char>, t: TokenView)
    requires
        a.len() > 0,
        !(t is Eof),
        lex_step(a + r, 0) == (t, a.len() as int),
    ensures
        tokens_of(a + r) == seq![t] + tokens_of(r),
{
    lemma_tokens_shift(a, r, a.len() as int);
}

/// An operator that may take `=`: followed by `=` it is the two-character token, and
/// otherwise the one-character token; either way the rest lexes on its own.
pub proof fn law_lookahead_operator(c: char, r: Seq<char>)
    requires
        lookahead_token(c, None) is Some,
    ensures
        tokens_of(seq![c, '='] + r) == seq![lookahead_token(c, Some('='))->0] + tokens_of(r),
        (r.len() == 0 || r[0] != '=') ==> tokens_of(seq![c] + r) == seq![
            lookahead_token(c, None)->0,
        ] + tokens_of(r),
{
    let a2 = seq![c, '='];
    lemma_skip_ws_range(a2 + r, 0);
    assert((a2 + r)[0] == c && (a2 + r)[1] == '=');
    lemma_tokens_after(a2, r, lookahead_token(c, Some('='))->0);
    if r.len() == 0 || r[0] != '=' {
        let a1 = seq![c];
        assert((a1 + r)[0] == c);
        if r.len() > 0 {
            assert((a1 + r)[1] == r[0]);
        }
        lemma_tokens_after(a1, r, lookahead_token(c, None)->0);
    }
}

/// A maximal run of letters lexes as one word token, and the rest lexes on its own.
pub proof fn law_word_then_rest(w: Seq<char>, r: Seq<char>)
    requires
        w.len() > 0,
        forall|k: int| 0 <= k < w.len() ==> alphabetic(#[trigger] w[k]),
        r.len() == 0 || !alphabetic(r[0]),
    ensures
        tokens_of(w + r) == seq![word_token(w)] + tokens_of(r),
{
    let s = w + r;
    assert forall|k: int| 0 <= k < w.len() implies alphabetic(#[trigger] s[k]) by {
        assert(s[k] == w[k]);
    }
    if r.len() > 0 {
        assert(s[w.len() as int] == r[0]);
    }
    assert(s[0] == w[0]);
    lemma_alpha_end_exact(s, 0, w.len() as int);
    assert(s.subrange(0, w.len() as int) =~= w);
    lemma_tokens_after(w, r, word_token(w));
}

/// A maximal number literal lexes as one number token holding exactly its text, and the
/// rest lexes on its own.
pub proof fn law_number_then_rest(int_part: Seq<char>, frac_part: Option<Seq<char>>, r: Seq<char>)
    requires
        int_part.len() > 0,
        !alphabetic(int_part[0]),
        forall|k: int| 0 <= k < int_part.len() ==> numeric(#[trigger] int_part[k]),
        frac_part matches Some(f) ==> forall|k: int|
            0 <= k < f.len() ==> numeric(#[trigger] f[k]),
        r.len() == 0 || !numeric(r[0]),
        frac_part is None && r.len() > 0 ==> r[0] != '.',
    ensures
        ({
            let t = match frac_part {
                Some(f) => int_part + seq!['.'] + f,
                None => int_part,
            };
            tokens_of(t + r) == seq![TokenView::Number(t)] + tokens_of(r)
        }),
{
    let t = match frac_part {
        Some(f) => int_part + seq!['.'] + f,
        None => int_part,
    };
    let s = t + r;
    let n = int_part.len() as int;
    assert(s[0] == int_part[0]);
    assert forall|k: int| 0 <= k < n implies numeric(#[trigger] s[k]) by {
        assert(s[k] == int_part[k]);
    }
    if r.len() > 0 {
        assert(s[t.len() as int] == r[0]);
    }
    if let Some(f) = frac_part {
        assert(s[n] == '.');
        lemma_numeric_end_exact(s, 0, n);
        assert forall|k: int| n + 1 <= k < t.len() implies numeric(#[trigger] s[k]) by {
            assert(s[k] == f[k - n - 1]);
        }
        lemma_numeric_end_exact(s, n + 1, t.len() as int);
    } else {
        lemma_numeric_end_exact(s, 0, n);
    }
    assert(s.subrange(0, t.len() as int) =~= t);
    lemma_tokens_after(t, r, TokenView::Number(t));
}

/// A recursive-descent parser with one token of lookahead.
pub struct Parser {
    lexer: Lexer,
    cur: Token,
}

impl Parser {
    /// The tokens not yet consumed, the current one first.
    pub closed spec fn pending(&self) -> Seq<TokenView> {
        if self.cur@ is Eof {
            seq![]
        } else {
            seq![self.cur@] + tokens_from(self.lexer.input(), self.lexer.position())
        }
    }

    pub closed spec fn wf(&self) -> bool {
        &&& self.lexer.wf()
        &&& self.cur@ is Eof ==> self.lexer.position() == self.lexer.input().len()
        &&& !(self.cur@ is Eof) ==> self.lexer.position() <= self.lexer.input().len()
    }

    proof fn lemma_pending_head(&self)
        requires
            self.wf(),
        ensures
            self.cur@ is Eof <==> self.pending().len() == 0,
            !(self.cur@ is Eof) ==> self.pending()[0] == self.cur@,
    {
    }

    pub fn new(input: &str) -> (r: Parser)
        ensures
            r.wf(),
            r.pending() == tokens_of(input@),
    {
        let mut parser = Parser { lexer: Lexer::new(input), cur: Token::EOF };
        proof {
            lemma_lex_step_advances(input@, 0);
        }
        parser.cur = parser.lexer.next_token();
        parser
    }

    /// The current token.
    pub fn cur(&self) -> (r: &Token)
        requires
            self.wf(),
        ensures
            self.pending().len() == 0 ==> r@ is Eof,
            self.pending().len() > 0 ==> r@ == self.pending()[0],
    {
        &self.cur
    }

    /// Moves to the next token; at the end of input the current token stays `EOF`.
    pub fn next_token(&mut self)
        requires
            old(self).wf(),
        ensures
            final(self).wf(),
            final(self).pending() == if old(self).pending().len() == 0 {
                old(self).pending()
            } else {
                old(self).pending().drop_first()
            },
    {
        let ghost s = self.lexer.input();
        let ghost i = self.lexer.position();
        proof {
            self.lexer.lemma_position_bounds();
            lemma_lex_step_advances(s, i);
        }
        self.cur = self.lexer.next_token();
        proof {
            let ghost old_pending = if old(self).cur@ is Eof {
                seq![]
            } else {
                seq![old(self).cur@] + tokens_from(s, i)
            };
            if !(old(self).cur@ is Eof) {
                assert(old_pending.drop_first() =~= tokens_from(s, i));
            }
            self.lexer.lemma_position_bounds();
            lemma_lex_step_advances(s, self.lexer.position());
        }
    }

    /// Parses the whole input into a program.
    pub fn parse_program(&mut self) -> (r: Result<Program, ParseError>)
        requires
            old(self).wf(),
        ensures
            final(self).wf(),
            r is Ok ==> final(self).pending().len() == 0,
            match parse_nodes_spec(old(self).pending(), seq![]) {
                Ok(nodes) => r matches Ok(p) && p.wf() && p@ == nodes,
                Err(e) => r == Err::<Program, ParseError>(e),
            },
    {
        let mut nodes: Vec<Node> = Vec::new();
        let ghost start = self.pending();
        while !matches!(self.cur, Token::EOF)
            invariant
                self.wf(),
                start == old(self).pending(),
                nodes_wf(nodes@),
                parse_nodes_spec(start, seq![]) == parse_nodes_spec(
                    self.pending(),
                    view_nodes(nodes@),
                ),
            decreases self.pending().len(),
        {
            proof {
                self.lemma_pending_head();
                lemma_parse_node_consumes(self.pending());
            }
            let node = match self.parse_node() {
                Ok(n) => n,
                Err(e) => {
                    return Err(e);
                },
            };
            let ghost prev = nodes@;
            nodes.push(node);
            proof {
                assert(nodes@.drop_last() =~= prev);
            }
        }
        Ok(Program { nodes })
    }

    /// Parses the node that starts at the current token.
    fn parse_node(&mut self) -> (r: Result<Node, ParseError>)
        requires
            old(self).wf(),
        ensures
            final(self).wf(),
            match parse_node_spec(old(self).pending()) {
                Ok((n, rest)) => r matches Ok(x) && node_wf(x) && view_node(x) == n
                    && final(self).pending() == rest,
                Err(e) => r matches Err(x) && x == e,
            },
        decreases old(self).pending().len(), 1nat,
    {
        match &self.cur {
            Token::NUMBER { .. } => self.parse_number(),
            Token::PLUS => self.parse_operator(),
            _ => Err(ParseError::UnexpectedToken),
        }
    }

    /// Parses `+ ( node* )`, starting at the `+`.
    fn parse_operator(&mut self) -> (r: Result<Node, ParseError>)
        requires
            old(self).wf(),
            old(self).cur@ is Plus,
        ensures
            final(self).wf(),
            match parse_node_spec(old(self).pending()) {
                Ok((n, rest)) => r matches Ok(x) && node_wf(x) && view_node(x) == n
                    && final(self).pending() == rest,
                Err(e) => r matches Err(x) && x == e,
            },
        decreases old(self).pending().len(), 0nat,
    {
        let ghost toks = self.pending();
        proof {
            self.lemma_pending_head();
        }
        self.next_token();
        proof {
            self.lemma_pending_head();
        }
        if !matches!(self.cur, Token::LPAREN) {
            assert(!(toks.len() > 1 && toks[1] is LParen));
            return Err(ParseError::MissingLeftParen);
        }
        assert(toks.len() > 1 && toks[1] is LParen);
        self.next_token();
        proof {
            assert(self.pending() =~= toks.subrange(2, toks.len() as int));
        }
        let mut operator = MultipleOperator::new_addition_operator();
        let ghost args = self.pending();
        assert(parse_node_spec(toks) == parse_args_spec(args, seq![]));
        assert(view_nodes(operator.nodes@) =~= seq![]);
        while !matches!(self.cur, Token::RPAREN)
            invariant
                self.wf(),
                toks == old(self).pending(),
                parse_node_spec(toks) == parse_args_spec(args, seq![]),
                self.pending().len() <= args.len() < toks.len(),
                operator.operator == OperatorKind::Addition,
                nodes_wf(operator.nodes@),
                parse_args_spec(args, seq![]) == parse_args_spec(
                    self.pending(),
                    view_nodes(operator.nodes@),
                ),
            decreases self.pending().len(),
        {
            proof {
                self.lemma_pending_head();
            }
            if matches!(self.cur, Token::EOF) {
                return Err(ParseError::UnterminatedArgumentList);
            }
            proof {
                assert(self.pending().len() > 0 && !(self.pending()[0] is RParen));
                lemma_parse_node_consumes(self.pending());
            }
            let node = match self.parse_node() {
                Ok(n) => n,
                Err(e) => return Err(e),
            };
            let ghost prev = operator.nodes@;
            operator.nodes.push(node);
            proof {
                assert(operator.nodes@.drop_last() =~= prev);
            }
        }
        proof {
            self.lemma_pending_head();
        }
        self.next_token();
        Ok(Node::Operator(operator))
    }

    /// Parses the number literal at the current token.
    fn parse_number(&mut self) -> (r: Result<Node, ParseError>)
        requires
            old(self).wf(),
            old(self).cur@ is Number,
        ensures
            final(self).wf(),
            match parse_node_spec(old(self).pending()) {
                Ok((n, rest)) => r matches Ok(x) && node_wf(x) && view_node(x) == n
                    && final(self).pending() == rest,
                Err(e) => r matches Err(x) && x == e,
            },
    {
        let parsed = match &self.cur {
            Token::NUMBER { value } => Number::from_literal(value.as_str()),
            _ => None,
        };
        match parsed {
            Some(x) => {
                self.next_token();
                Ok(Node::Number(x))
            },
            None => Err(ParseError::InvalidNumberLiteral),
        }
    }
}

} // verus!
