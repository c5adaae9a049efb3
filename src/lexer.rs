use vstd::prelude::*;

use crate::chars::{
    alphabetic, char_is_alphabetic, char_is_numeric, is_whitespace, numeric, push_char,
};
use crate::tokens::{keyword_of, let_word, Token, TokenView};

verus! {

/// The first position at or after `i` that holds no whitespace.
pub open spec fn skip_ws(s: Seq<char>, i: int) -> int
    decreases s.len() - i,
{
    if 0 <= i < s.len() && is_whitespace(s[i]) {
        skip_ws(s, i + 1)
    } else {
        i
    }
}

/// The end of the run of alphabetic characters that starts at `i`.
pub open spec fn alpha_end(s: Seq<char>, i: int) -> int
    decreases s.len() - i,
{
    if 0 <= i < s.len() && alphabetic(s[i]) {
        alpha_end(s, i + 1)
    } else {
        i
    }
}

/// The end of the run of numeric characters that starts at `i`.
pub open spec fn numeric_end(s: Seq<char>, i: int) -> int
    decreases s.len() - i,
{
    if 0 <= i < s.len() && numeric(s[i]) {
        numeric_end(s, i + 1)
    } else {
        i
    }
}

/// The end of a number literal at `i`: digits, then optionally a point and more digits.
pub open spec fn number_end(s: Seq<char>, i: int) -> int {
    let e = numeric_end(s, i);
    if e < s.len() && s[e] == '.' {
        numeric_end(s, e + 1)
    } else {
        e
    }
}

/// The token of an operator that may take a following `=`, given the next character.
pub open spec fn lookahead_token(c: char, next: Option<char>) -> Option<TokenView> {
    let eq = next == Some('=');
    if c == '<' {
        Some(if eq { TokenView::Se } else { TokenView::St })
    } else if c == '>' {
        Some(if eq { TokenView::Ge } else { TokenView::Gt })
    } else if c == '=' {
        Some(if eq { TokenView::Eq } else { TokenView::Assign })
    } else if c == '!' {
        Some(if eq { TokenView::Neq } else { TokenView::Not })
    } else {
        None
    }
}

/// The token of a character that stands alone.
pub open spec fn single_token(c: char) -> Option<TokenView> {
    if c == '+' {
        Some(TokenView::Plus)
    } else if c == '-' {
        Some(TokenView::Minus)
    } else if c == '/' {
        Some(TokenView::Divide)
    } else if c == '*' {
        Some(TokenView::Asterisk)
    } else if c == ';' {
        Some(TokenView::Semicolon)
    } else if c == '(' {
        Some(TokenView::LParen)
    } else if c == ')' {
        Some(TokenView::RParen)
    } else {
        None
    }
}

/// The token that a word of letters stands for.
pub open spec fn word_token(w: Seq<char>) -> TokenView {
    match keyword_of(w) {
        Some(k) => k,
        None => TokenView::Identifier(w),
    }
}

/// The token that starts at or after position `i` of `s`, and the position after it.
pub open spec fn lex_step(s: Seq<char>, i: int) -> (TokenView, int) {
    let p = skip_ws(s, i);
    if p >= s.len() {
        (TokenView::Eof, s.len() as int)
    } else {
        let c = s[p];
        let next = if p + 1 < s.len() { Some(s[p + 1]) } else { None };
        if lookahead_token(c, next) is Some {
            let t = lookahead_token(c, next)->0;
            (t, if next == Some('=') { p + 2 } else { p + 1 })
        } else if single_token(c) is Some {
            (single_token(c)->0, p + 1)
        } else if alphabetic(c) {
            let e = alpha_end(s, p);
            (word_token(s.subrange(p, e)), e)
        } else if numeric(c) {
            let e = number_end(s, p);
            (TokenView::Number(s.subrange(p, e)), e)
        } else {
            (TokenView::Undefined, p + 1)
        }
    }
}

pub proof fn lemma_skip_ws_range(s: Seq<char>, i: int)
    requires
        0 <= i <= s.len(),
    ensures
        i <= skip_ws(s, i) <= s.len(),
        forall|k: int| i <= k < skip_ws(s, i) ==> is_whitespace(#[trigger] s[k]),
    decreases s.len() - i,
{
    if i < s.len() && is_whitespace(s[i]) {
        lemma_skip_ws_range(s, i + 1);
    }
}

pub proof fn lemma_alpha_end_range(s: Seq<char>, i: int)
    requires
        0 <= i <= s.len(),
    ensures
        i <= alpha_end(s, i) <= s.len(),
        forall|k: int| i <= k < alpha_end(s, i) ==> alphabetic(#[trigger] s[k]),
    decreases s.len() - i,
{
    if i < s.len() && alphabetic(s[i]) {
        lemma_alpha_end_range(s, i + 1);
    }
}

pub proof fn lemma_numeric_end_range(s: Seq<char>, i: int)
    requires
        0 <= i <= s.len(),
    ensures
        i <= numeric_end(s, i) <= s.len(),
        forall|k: int| i <= k < numeric_end(s, i) ==> numeric(#[trigger] s[k]),
    decreases s.len() - i,
{
    if i < s.len() && numeric(s[i]) {
        lemma_numeric_end_range(s, i + 1);
    }
}

/// A step of the lexer moves forward, and stays still only at the end of input.
pub proof fn lemma_lex_step_advances(s: Seq<char>, i: int)
    requires
        0 <= i <= s.len(),
    ensures
        i <= lex_step(s, i).1 <= s.len(),
        lex_step(s, i).0 is Eof <==> skip_ws(s, i) == s.len(),
        lex_step(s, i).0 is Eof ==> lex_step(s, i).1 == s.len(),
        !(lex_step(s, i).0 is Eof) ==> i < lex_step(s, i).1,
{
    lemma_skip_ws_range(s, i);
    let p = skip_ws(s, i);
    if p < s.len() {
        lemma_alpha_end_range(s, p);
        lemma_alpha_end_range(s, p + 1);
        lemma_numeric_end_range(s, p);
        lemma_numeric_end_range(s, p + 1);
        let e = numeric_end(s, p);
        if e < s.len() {
            lemma_numeric_end_range(s, e + 1);
        }
    }
}

proof fn lemma_skip_ws_all(s: Seq<char>, i: int)
    requires
        0 <= i <= s.len(),
        forall|k: int| i <= k < s.len() ==> is_whitespace(#[trigger] s[k]),
    ensures
        skip_ws(s, i) == s.len(),
    decreases s.len() - i,
{
    if i < s.len() {
        lemma_skip_ws_all(s, i + 1);
    }
}

pub proof fn lemma_alpha_end_exact(s: Seq<char>, i: int, j: int)
    requires
        0 <= i <= j <= s.len(),
        forall|k: int| i <= k < j ==> alphabetic(#[trigger] s[k]),
        j == s.len() || !alphabetic(s[j]),
    ensures
        alpha_end(s, i) == j,
    decreases j - i,
{
    if i < j {
        lemma_alpha_end_exact(s, i + 1, j);
    }
}

pub proof fn lemma_numeric_end_exact(s: Seq<char>, i: int, j: int)
    requires
        0 <= i <= j <= s.len(),
        forall|k: int| i <= k < j ==> numeric(#[trigger] s[k]),
        j == s.len() || !numeric(s[j]),
    ensures
        numeric_end(s, i) == j,
    decreases j - i,
{
    if i < j {
        lemma_numeric_end_exact(s, i + 1, j);
    }
}

/// Input of whitespace alone lexes to `EOF` at once.
pub proof fn law_whitespace_only_is_eof(s: Seq<char>)
    requires
        forall|k: int| 0 <= k < s.len() ==> is_whitespace(#[trigger] s[k]),
    ensures
        lex_step(s, 0).0 == TokenView::Eof,
{
    lemma_skip_ws_all(s, 0);
}

/// Once the lexer has returned `EOF`, it returns `EOF` again.
pub proof fn law_eof_repeats(s: Seq<char>, i: int)
    requires
        0 <= i <= s.len(),
        lex_step(s, i).0 is Eof,
    ensures
        lex_step(s, lex_step(s, i).1) == (TokenView::Eof, s.len() as int),
{
}

/// A run of letters lexes as one token: `LET` for the word `let`, otherwise an
/// identifier that holds the run.
pub proof fn law_word_run(s: Seq<char>)
    requires
        s.len() > 0,
        forall|k: int| 0 <= k < s.len() ==> alphabetic(#[trigger] s[k]),
    ensures
        lex_step(s, 0) == (if s == let_word() {
            (TokenView::Let, s.len() as int)
        } else {
            (TokenView::Identifier(s), s.len() as int)
        }),
{
    assert(alphabetic(s[0]));
    lemma_alpha_end_exact(s, 0, s.len() as int);
    assert(s.subrange(0, s.len() as int) =~= s);
}

/// A numeric run, optionally followed by one point and a second numeric run, lexes as
/// one number token that holds exactly that text. It needs the first character not to
/// be alphabetic too: letters are tried before numerals.
pub proof fn law_number_run(int_part: Seq<char>, frac_part: Option<Seq<char>>)
    requires
        int_part.len() > 0,
        !alphabetic(int_part[0]),
        forall|k: int| 0 <= k < int_part.len() ==> numeric(#[trigger] int_part[k]),
        frac_part matches Some(f) ==> forall|k: int|
            0 <= k < f.len() ==> numeric(#[trigger] f[k]),
    ensures
        ({
            let s = match frac_part {
                Some(f) => int_part + seq!['.'] + f,
                None => int_part,
            };
            lex_step(s, 0) == (TokenView::Number(s), s.len() as int)
        }),
{
    let s = match frac_part {
        Some(f) => int_part + seq!['.'] + f,
        None => int_part,
    };
    let n = int_part.len() as int;
    assert(s[0] == int_part[0]);
    assert forall|k: int| 0 <= k < n implies numeric(#[trigger] s[k]) by {
        assert(s[k] == int_part[k]);
    }
    lemma_numeric_end_exact(s, 0, n);
    if let Some(f) = frac_part {
        assert(s[n] == '.');
        assert forall|k: int| n + 1 <= k < s.len() implies numeric(#[trigger] s[k]) by {
            assert(s[k] == f[k - n - 1]);
        }
        lemma_numeric_end_exact(s, n + 1, s.len() as int);
    }
    assert(s.subrange(0, s.len() as int) =~= s);
}

/// A lexer over a character sequence, with one character of lookahead.
pub struct Lexer {
    chars: Vec<char>,
    pos: usize,
}

impl Lexer {
    /// The input that the lexer reads.
    pub closed spec fn input(&self) -> Seq<char> {
        self.chars@
    }

    /// The position of the current character.
    pub closed spec fn position(&self) -> int {
        self.pos as int
    }

    pub closed spec fn wf(&self) -> bool {
        self.pos <= self.chars.len()
    }

    pub proof fn lemma_position_bounds(&self)
        requires
            self.wf(),
        ensures
            0 <= self.position() <= self.input().len(),
    {
    }

    pub fn new(input: &str) -> (r: Lexer)
        ensures
            r.wf(),
            r.input() == input@,
            r.position() == 0,
    {
        let n = input.unicode_len();
        let mut chars: Vec<char> = Vec::new();
        let mut i: usize = 0;
        while i < n
            invariant
                n == input@.len(),
                i <= n,
                chars@ == input@.subrange(0, i as int),
            decreases n - i,
        {
            chars.push(input.get_char(i));
            i = i + 1;
            assert(chars@ =~= input@.subrange(0, i as int));
        }
        assert(chars@ =~= input@);
        Lexer { chars, pos: 0 }
    }

    /// The current character, if any is left.
    pub fn cur(&self) -> (r: Option<char>)
        requires
            self.wf(),
        ensures
            r == (if self.position() < self.input().len() {
                Some(self.input()[self.position()])
            } else {
                None
            }),
    {
        if self.pos < self.chars.len() {
            Some(self.chars[self.pos])
        } else {
            None
        }
    }

    /// The character after the current one, if any.
    pub fn peek(&self) -> (r: Option<char>)
        requires
            self.wf(),
        ensures
            r == (if self.position() + 1 < self.input().len() {
                Some(self.input()[self.position() + 1])
            } else {
                None
            }),
    {
        if self.pos < self.chars.len() && self.pos + 1 < self.chars.len() {
            Some(self.chars[self.pos + 1])
        } else {
            None
        }
    }

    fn next_char(&mut self)
        requires
            old(self).wf(),
        ensures
            final(self).wf(),
            final(self).input() == old(self).input(),
            final(self).position() == if old(self).position() < old(self).input().len() {
                old(self).position() + 1
            } else {
                old(self).position()
            },
    {
        if self.pos < self.chars.len() {
            self.pos = self.pos + 1;
        }
    }

    fn eat_ws(&mut self)
        requires
            old(self).wf(),
        ensures
            final(self).wf(),
            final(self).input() == old(self).input(),
            final(self).position() == skip_ws(old(self).input(), old(self).position()),
    {
        loop
            invariant
                self.wf(),
                self.input() == old(self).input(),
                skip_ws(self.input(), self.position()) == skip_ws(
                    old(self).input(),
                    old(self).position(),
                ),
            ensures
                self.wf(),
                self.input() == old(self).input(),
                self.position() == skip_ws(old(self).input(), old(self).position()),
            decreases self.input().len() - self.position(),
        {
            match self.cur() {
                Some(' ') | Some('\n') | Some('\t') => self.next_char(),
                _ => break,
            }
        }
    }

    /// Reads an operator that may take a following `=`; on `=` it moves onto it.
    fn get_token_with_peek(&mut self) -> (r: Option<Token>)
        requires
            old(self).wf(),
        ensures
            final(self).wf(),
            final(self).input() == old(self).input(),
            old(self).position() >= old(self).input().len() ==> r is None && final(self).position()
                == old(self).position(),
            old(self).position() < old(self).input().len() ==> ({
                let s = old(self).input();
                let p = old(self).position();
                let next = if p + 1 < s.len() { Some(s[p + 1]) } else { None };
                &&& r is Some <==> lookahead_token(s[p], next) is Some
                &&& r matches Some(t) ==> Some(t@) == lookahead_token(s[p], next)
                &&& final(self).position() == if r is Some && next == Some('=') {
                    p + 1
                } else {
                    p
                }
            }),
    {
        let next = self.peek();
        let token = match self.cur() {
            Some('<') => match next {
                Some('=') => {
                    self.next_char();
                    Some(Token::SE)
                },
                _ => Some(Token::ST),
            },
            Some('>') => match next {
                Some('=') => {
                    self.next_char();
                    Some(Token::GE)
                },
                _ => Some(Token::GT),
            },
            Some('=') => match next {
                Some('=') => {
                    self.next_char();
                    Some(Token::EQ)
                },
                _ => Some(Token::ASSIGN),
            },
            Some('!') => match next {
                Some('=') => {
                    self.next_char();
                    Some(Token::NEQ)
                },
                _ => Some(Token::NOT),
            },
            _ => None,
        };
        token
    }

    /// Reads a character that stands alone as a token, or the end of input.
    fn get_token_without_peek(&self) -> (r: Option<Token>)
        requires
            self.wf(),
        ensures
            ({
                let s = self.input();
                let p = self.position();
                if p >= s.len() {
                    r == Some(Token::EOF)
                } else {
                    &&& r is Some <==> single_token(s[p]) is Some
                    &&& r matches Some(t) ==> Some(t@) == single_token(s[p])
                }
            }),
    {
        let token = match self.cur() {
            Some('+') => Token::PLUS,
            Some('-') => Token::MINUS,
            Some('/') => Token::DIVIDE,
            Some('*') => Token::ASTERISK,
            Some(';') => Token::SEMICOLON,
            Some('(') => Token::LPAREN,
            Some(')') => Token::RPAREN,
            None => Token::EOF,
            _ => return None,
        };
        Some(token)
    }

    /// Reads the run of alphabetic characters at the current position.
    fn read_word(&mut self) -> (r: String)
        requires
            old(self).wf(),
        ensures
            final(self).wf(),
            final(self).input() == old(self).input(),
            final(self).position() == alpha_end(old(self).input(), old(self).position()),
            r@ == old(self).input().subrange(old(self).position(), final(self).position()),
    {
        let ghost s = self.input();
        let ghost first = self.position();
        proof {
            lemma_alpha_end_range(s, first);
        }
        let mut value = String::new();
        while self.pos < self.chars.len()
            invariant
                self.wf(),
                self.input() == s,
                first <= self.position() <= alpha_end(s, first),
                alpha_end(s, self.position()) == alpha_end(s, first),
                value@ == s.subrange(first, self.position()),
            ensures
                self.wf(),
                self.input() == s,
                self.position() == alpha_end(s, first),
                value@ == s.subrange(first, self.position()),
            decreases s.len() - self.position(),
        {
            let c = self.chars[self.pos];
            if !char_is_alphabetic(c) {
                break;
            }
            proof {
                lemma_alpha_end_range(s, self.position() + 1);
            }
            push_char(&mut value, c);
            self.next_char();
            assert(value@ =~= s.subrange(first, self.position()));
        }
        value
    }

    /// Appends the run of numeric characters at the current position to `value`.
    fn read_digits(&mut self, value: &mut String)
        requires
            old(self).wf(),
        ensures
            final(self).wf(),
            final(self).input() == old(self).input(),
            final(self).position() == numeric_end(old(self).input(), old(self).position()),
            final(value)@ == old(value)@ + old(self).input().subrange(
                old(self).position(),
                final(self).position(),
            ),
    {
        let ghost s = self.input();
        let ghost first = self.position();
        proof {
            lemma_numeric_end_range(s, first);
        }
        while self.pos < self.chars.len()
            invariant
                self.wf(),
                self.input() == s,
                first <= self.position() <= numeric_end(s, first),
                numeric_end(s, self.position()) == numeric_end(s, first),
                value@ == old(value)@ + s.subrange(first, self.position()),
            ensures
                self.wf(),
                self.input() == s,
                self.position() == numeric_end(s, first),
                value@ == old(value)@ + s.subrange(first, self.position()),
            decreases s.len() - self.position(),
        {
            let c = self.chars[self.pos];
            if !char_is_numeric(c) {
                break;
            }
            proof {
                lemma_numeric_end_range(s, self.position() + 1);
            }
            push_char(value, c);
            self.next_char();
            assert(value@ =~= old(value)@ + s.subrange(first, self.position()));
        }
    }

    /// Reads a number literal: digits, then optionally a point and more digits.
    fn read_number(&mut self) -> (r: String)
        requires
            old(self).wf(),
        ensures
            final(self).wf(),
            final(self).input() == old(self).input(),
            final(self).position() == number_end(old(self).input(), old(self).position()),
            r@ == old(self).input().subrange(old(self).position(), final(self).position()),
    {
        let ghost s = self.input();
        let ghost first = self.position();
        let mut value = String::new();
        self.read_digits(&mut value);
        proof {
            lemma_numeric_end_range(s, first);
        }
        if self.cur() == Some('.') {
            push_char(&mut value, '.');
            self.next_char();
            self.read_digits(&mut value);
            proof {
                lemma_numeric_end_range(s, numeric_end(s, first) + 1);
            }
        }
        assert(value@ =~= s.subrange(first, self.position()));
        value
    }

    /// Reads a word or a number literal.
    fn get_token_from_value(&mut self) -> (r: Option<Token>)
        requires
            old(self).wf(),
        ensures
            final(self).wf(),
            final(self).input() == old(self).input(),
            old(self).position() >= old(self).input().len() ==> r is None && final(self).position()
                == old(self).position(),
            old(self).position() < old(self).input().len() ==> ({
                let s = old(self).input();
                let p = old(self).position();
                if alphabetic(s[p]) {
                    let e = alpha_end(s, p);
                    r matches Some(t) && t@ == word_token(s.subrange(p, e))
                        && final(self).position() == e
                } else if numeric(s[p]) {
                    let e = number_end(s, p);
                    r matches Some(t) && t@ == TokenView::Number(s.subrange(p, e))
                        && final(self).position() == e
                } else {
                    r is None && final(self).position() == p
                }
            }),
    {
        if self.pos >= self.chars.len() {
            return None;
        }
        let c = self.chars[self.pos];
        if char_is_alphabetic(c) {
            let value = self.read_word();
            match Token::get_keyword(value.as_str()) {
                Some(token) => Some(token),
                None => Some(Token::IDENTIFIER { value }),
            }
        } else if char_is_numeric(c) {
            let value = self.read_number();
            Some(Token::NUMBER { value })
        } else {
            None
        }
    }

    /// Returns the next token and moves past it; at the end of input it keeps returning `EOF`.
    pub fn next_token(&mut self) -> (r: Token)
        requires
            old(self).wf(),
        ensures
            final(self).wf(),
            final(self).input() == old(self).input(),
            (r@, final(self).position()) == lex_step(old(self).input(), old(self).position()),
    {
        let ghost s = self.input();
        proof {
            lemma_skip_ws_range(s, self.position());
        }
        self.eat_ws();
        if self.pos >= self.chars.len() {
            return Token::EOF;
        }
        if let Some(token) = self.get_token_with_peek() {
            self.next_char();
            token
        } else if let Some(token) = self.get_token_without_peek() {
            self.next_char();
            token
        } else if let Some(token) = self.get_token_from_value() {
            token
        } else {
            self.next_char();
            Token::UNDEFINED
        }
    }
}

} // verus!
