use exprcalc::{Lexer, Token};

fn number(text: &str) -> Token {
    Token::NUMBER { value: text.to_string() }
}

fn identifier(text: &str) -> Token {
    Token::IDENTIFIER { value: text.to_string() }
}

#[test]
fn new_lexer() {
    let lexer = Lexer::new("");
    assert_eq!(lexer.cur(), None);
    assert_eq!(lexer.peek(), None);

    let lexer = Lexer::new("h");
    assert_eq!(lexer.cur(), Some('h'));
    assert_eq!(lexer.peek(), None);

    let lexer = Lexer::new("hallo");
    assert_eq!(lexer.cur(), Some('h'));
    assert_eq!(lexer.peek(), Some('a'));
}

#[test]
fn next_token() {
    let mut lexer = Lexer::new("");
    let token = lexer.next_token();
    assert_eq!(token, Token::EOF);

    let mut lexer = Lexer::new("  let 30.5 15 hallo + != !   >= -    /\t*\n += (   ) 60 helo");
    let mut token = lexer.next_token();
    assert_eq!(Token::LET, token);
    token = lexer.next_token();
    assert_eq!(token, number("30.5"));
    token = lexer.next_token();
    assert_eq!(token, number("15"));
    token = lexer.next_token();
    assert_eq!(token, identifier("hallo"));
    token = lexer.next_token();
    assert_eq!(token, Token::PLUS);
    token = lexer.next_token();
    assert_eq!(token, Token::NEQ);
    token = lexer.next_token();
    assert_eq!(token, Token::NOT);
    token = lexer.next_token();
    assert_eq!(token, Token::GE);
    token = lexer.next_token();
    assert_eq!(token, Token::MINUS);
    token = lexer.next_token();
    assert_eq!(token, Token::DIVIDE);
    token = lexer.next_token();
    assert_eq!(token, Token::ASTERISK);
    token = lexer.next_token();
    assert_eq!(token, Token::PLUS);
    token = lexer.next_token();
    assert_eq!(token, Token::ASSIGN);
    token = lexer.next_token();
    assert_eq!(token, Token::LPAREN);
    token = lexer.next_token();
    assert_eq!(token, Token::RPAREN);
    token = lexer.next_token();
    assert_eq!(token, number("60"));
    token = lexer.next_token();
    assert_eq!(token, identifier("helo"));
    token = lexer.next_token();
    assert_eq!(token, Token::EOF);
}

#[test]
fn whitespace_only_input_is_eof() {
    for input in ["", " ", "\n", "\t", "  \n\t \n"] {
        let mut lexer = Lexer::new(input);
        assert_eq!(lexer.next_token(), Token::EOF);
        assert_eq!(lexer.next_token(), Token::EOF);
    }
}

#[test]
fn lookahead_operators() {
    let mut lexer = Lexer::new("< <= > >= = == ! !=");
    let expected = [
        Token::ST,
        Token::SE,
        Token::GT,
        Token::GE,
        Token::ASSIGN,
        Token::EQ,
        Token::NOT,
        Token::NEQ,
        Token::EOF,
    ];
    for t in expected {
        assert_eq!(lexer.next_token(), t);
    }
}

#[test]
fn lookahead_operators_without_spaces() {
    let mut lexer = Lexer::new("<=<>==!");
    assert_eq!(lexer.next_token(), Token::SE);
    assert_eq!(lexer.next_token(), Token::ST);
    assert_eq!(lexer.next_token(), Token::GE);
    assert_eq!(lexer.next_token(), Token::ASSIGN);
    assert_eq!(lexer.next_token(), Token::NOT);
    assert_eq!(lexer.next_token(), Token::EOF);
}

#[test]
fn keyword_and_identifiers() {
    assert_eq!(Lexer::new("let").next_token(), Token::LET);
    assert_eq!(Lexer::new("lets").next_token(), identifier("lets"));
    assert_eq!(Lexer::new("Let").next_token(), identifier("Let"));
    assert_eq!(Lexer::new("le").next_token(), identifier("le"));
    assert_eq!(Lexer::new("äbc").next_token(), identifier("äbc"));
    let mut lexer = Lexer::new("abc1");
    assert_eq!(lexer.next_token(), identifier("abc"));
    assert_eq!(lexer.next_token(), number("1"));
}

#[test]
fn number_runs() {
    assert_eq!(Lexer::new("30.5").next_token(), number("30.5"));
    assert_eq!(Lexer::new("15").next_token(), number("15"));
    assert_eq!(Lexer::new("30.").next_token(), number("30."));
    let mut lexer = Lexer::new("1.2.3");
    assert_eq!(lexer.next_token(), number("1.2"));
    assert_eq!(lexer.next_token(), Token::UNDEFINED);
    assert_eq!(lexer.next_token(), number("3"));
    assert_eq!(lexer.next_token(), Token::EOF);
}

#[test]
fn unknown_character_is_undefined_and_skipped() {
    let mut lexer = Lexer::new("#+");
    assert_eq!(lexer.next_token(), Token::UNDEFINED);
    assert_eq!(lexer.next_token(), Token::PLUS);
    assert_eq!(lexer.next_token(), Token::EOF);
}

#[test]
fn token_values() {
    assert_eq!(Token::SE.value(), "<=");
    assert_eq!(Token::NEQ.value(), "!=");
    assert_eq!(Token::LET.value(), "let");
    assert_eq!(Token::EOF.value(), "");
    assert_eq!(number("30.5").value(), "30.5");
    assert_eq!(identifier("abc").value(), "abc");
    assert_eq!(Token::get_keyword("let"), Some(Token::LET));
    assert_eq!(Token::get_keyword("lex"), None);
}

#[test]
fn tokens_after_a_run_are_those_of_the_rest() {
    let mut lexer = Lexer::new("<=abc>1");
    assert_eq!(lexer.next_token(), Token::SE);
    assert_eq!(lexer.next_token(), identifier("abc"));
    assert_eq!(lexer.next_token(), Token::GT);
    assert_eq!(lexer.next_token(), number("1"));
    assert_eq!(lexer.next_token(), Token::EOF);

    let mut lexer = Lexer::new("letx+30.5y");
    assert_eq!(lexer.next_token(), identifier("letx"));
    assert_eq!(lexer.next_token(), Token::PLUS);
    assert_eq!(lexer.next_token(), number("30.5"));
    assert_eq!(lexer.next_token(), identifier("y"));
    assert_eq!(lexer.next_token(), Token::EOF);
}
