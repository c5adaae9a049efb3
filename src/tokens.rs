use vstd::prelude::*;

verus! {

/// One lexical unit of the language.
#[derive(PartialEq, Debug)]
pub enum Token {
    PLUS,
    MINUS,
    ASTERISK,
    DIVIDE,
    ASSIGN,
    SEMICOLON,
    LPAREN,
    RPAREN,
    NOT,
    EQ,
    NEQ,
    ST,
    SE,
    GT,
    GE,
    IDENTIFIER { value: String },
    NUMBER { value: String },
    LET,
    EOF,
    UNDEFINED,
}

/// The mathematical model of a token: payloads are character sequences.
pub enum TokenView {
    Plus,
    Minus,
    Asterisk,
    Divide,
    Assign,
    Semicolon,
    LParen,
    RParen,
    Not,
    Eq,
    Neq,
    St,
    Se,
    Gt,
    Ge,
    Identifier(Seq<char>),
    Number(Seq<char>),
    Let,
    Eof,
    Undefined,
}

impl View for Token {
    type V = TokenView;

    open spec fn view(&self) -> TokenView {
        match self {
            Token::PLUS => TokenView::Plus,
            Token::MINUS => TokenView::Minus,
            Token::ASTERISK => TokenView::Asterisk,
            Token::DIVIDE => TokenView::Divide,
            Token::ASSIGN => TokenView::Assign,
            Token::SEMICOLON => TokenView::Semicolon,
            Token::LPAREN => TokenView::LParen,
            Token::RPAREN => TokenView::RParen,
            Token::NOT => TokenView::Not,
            Token::EQ => TokenView::Eq,
            Token::NEQ => TokenView::Neq,
            Token::ST => TokenView::St,
            Token::SE => TokenView::Se,
            Token::GT => TokenView::Gt,
            Token::GE => TokenView::Ge,
            Token::IDENTIFIER { value } => TokenView::Identifier(value@),
            Token::NUMBER { value } => TokenView::Number(value@),
            Token::LET => TokenView::Let,
            Token::EOF => TokenView::Eof,
            Token::UNDEFINED => TokenView::Undefined,
        }
    }
}

/// The canonical text of a token; payload tokens render what they captured.
pub open spec fn token_text(t: TokenView) -> Seq<char> {
    match t {
        TokenView::Plus => "+"@,
        TokenView::Minus => "-"@,
        TokenView::Divide => "/"@,
        TokenView::Asterisk => "*"@,
        TokenView::Assign => "="@,
        TokenView::Semicolon => ";"@,
        TokenView::LParen => "("@,
        TokenView::RParen => ")"@,
        TokenView::Not => "!"@,
        TokenView::Eq => "=="@,
        TokenView::Neq => "!="@,
        TokenView::St => "<"@,
        TokenView::Se => "<="@,
        TokenView::Gt => ">"@,
        TokenView::Ge => ">="@,
        TokenView::Identifier(v) => v,
        TokenView::Number(v) => v,
        TokenView::Let => "let"@,
        TokenView::Eof => ""@,
        TokenView::Undefined => ""@,
    }
}

/// The reserved word `let`.
pub open spec fn let_word() -> Seq<char> {
    seq!['l', 'e', 't']
}

/// The keyword token that a word stands for, if it is reserved.
pub open spec fn keyword_of(word: Seq<char>) -> Option<TokenView> {
    if word == let_word() {
        Some(TokenView::Let)
    } else {
        None
    }
}

impl Token {
    /// The canonical text of the token.
    pub fn value(&self) -> (r: String)
        ensures
            r@ == token_text(self@),
    {
        match self {
            Token::PLUS => "+".to_owned(),
            Token::MINUS => "-".to_owned(),
            Token::DIVIDE => "/".to_owned(),
            Token::ASTERISK => "*".to_owned(),
            Token::ASSIGN => "=".to_owned(),
            Token::SEMICOLON => ";".to_owned(),
            Token::LPAREN => "(".to_owned(),
            Token::RPAREN => ")".to_owned(),
            Token::NOT => "!".to_owned(),
            Token::EQ => "==".to_owned(),
            Token::NEQ => "!=".to_owned(),
            Token::ST => "<".to_owned(),
            Token::SE => "<=".to_owned(),
            Token::GT => ">".to_owned(),
            Token::GE => ">=".to_owned(),
            Token::IDENTIFIER { value } => value.clone(),
            Token::NUMBER { value } => value.clone(),
            Token::LET => "let".to_owned(),
            Token::EOF => "".to_owned(),
            Token::UNDEFINED => "".to_owned(),
        }
    }

    /// The keyword token that a word stands for, if the word is reserved.
    pub fn get_keyword(value: &str) -> (r: Option<Token>)
        ensures
            r is Some <==> keyword_of(value@) is Some,
            r matches Some(t) ==> Some(t@) == keyword_of(value@),
    {
        let n = value.unicode_len();
        if n == 3 && value.get_char(0) == 'l' && value.get_char(1) == 'e' && value.get_char(2)
            == 't' {
            assert(value@ =~= let_word());
            Some(Token::LET)
        } else {
            proof {
                if value@ == let_word() {
                    assert(value@[0] == 'l' && value@[1] == 'e' && value@[2] == 't');
                }
            }
            None
        }
    }
}

} // verus!
