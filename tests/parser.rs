use exprcalc::{MultipleOperator, Number, ParseError, Parser, Program, Token};

fn eval(source: &str) -> Result<String, ParseError> {
    let mut parser = Parser::new(source);
    parser.parse_program().map(|p| p.value())
}

#[test]
fn mod_next_token() {
    let mut parser = Parser::new("+ -  * /");
    assert_eq!(*parser.cur(), Token::PLUS);
    parser.next_token();
    assert_eq!(*parser.cur(), Token::MINUS);
    parser.next_token();
    assert_eq!(*parser.cur(), Token::ASTERISK);
    parser.next_token();
    assert_eq!(*parser.cur(), Token::DIVIDE);
    parser.next_token();
    assert_eq!(*parser.cur(), Token::EOF);
    parser.next_token();
    assert_eq!(*parser.cur(), Token::EOF);
}

#[test]
fn parse_program() {
    let mut parser = Parser::new("50.1");
    let prog = parser.parse_program().unwrap();
    let number = Number::new(501, 1);
    assert_eq!(prog.value(), number.value());

    let mut parser = Parser::new("+(50 40 20 )");
    let prog = parser.parse_program().unwrap();
    assert_eq!(prog.value(), "110");

    let mut parser = Parser::new("+( 10 20 30.5)");
    let prog = parser.parse_program().unwrap();
    assert_eq!(prog.value(), "60.5");
}

#[test]
fn addition_without_spaces() {
    assert_eq!(eval("+(50 40 20)"), Ok("110".to_string()));
}

#[test]
fn number_literal_round_trip() {
    assert_eq!(eval("50.1"), Ok("50.1".to_string()));
    assert_eq!(eval("30."), Ok("30".to_string()));
    assert_eq!(eval("2.50"), Ok("2.5".to_string()));
    assert_eq!(eval("0.05"), Ok("0.05".to_string()));
    assert_eq!(eval("007"), Ok("7".to_string()));
}

#[test]
fn nested_addition() {
    assert_eq!(eval("+(1 +(2 3) +() 0.25)"), Ok("6.25".to_string()));
    assert_eq!(eval("+()"), Ok("0".to_string()));
    assert_eq!(eval("+(0.1 0.2)"), Ok("0.3".to_string()));
}

#[test]
fn last_top_level_node_wins() {
    assert_eq!(eval("1 +(2 3) 4"), Ok("4".to_string()));
    assert_eq!(eval("4 +(2 3)"), Ok("5".to_string()));
}

#[test]
fn empty_program_is_zero() {
    assert_eq!(eval(""), Ok("0".to_string()));
    assert_eq!(eval("  \n"), Ok("0".to_string()));
    let prog = Program { nodes: Vec::new() };
    assert_eq!(prog.value(), "0");
}

#[test]
fn unterminated_argument_list() {
    assert_eq!(eval("+(50 40"), Err(ParseError::UnterminatedArgumentList));
    assert_eq!(eval("+("), Err(ParseError::UnterminatedArgumentList));
    assert_eq!(eval("+(1 +(2)"), Err(ParseError::UnterminatedArgumentList));
}

#[test]
fn missing_left_paren() {
    assert_eq!(eval("+ 1 2"), Err(ParseError::MissingLeftParen));
    assert_eq!(eval("+"), Err(ParseError::MissingLeftParen));
}

#[test]
fn unexpected_token() {
    assert_eq!(eval("- 1"), Err(ParseError::UnexpectedToken));
    assert_eq!(eval("let"), Err(ParseError::UnexpectedToken));
    assert_eq!(eval("+(1 #)"), Err(ParseError::UnexpectedToken));
}

#[test]
fn invalid_number_literal() {
    assert_eq!(eval("٣"), Err(ParseError::InvalidNumberLiteral));
    assert_eq!(eval("+(1 ٣)"), Err(ParseError::InvalidNumberLiteral));
}

#[test]
fn long_literals_are_exact() {
    let big = "1000000000000000000000000000000000000000";
    assert_eq!(eval(big), Ok(big.to_string()));
    let small = "0.000000000000000000000000000000000000001";
    assert_eq!(eval(small), Ok(small.to_string()));
}

#[test]
fn large_sums_are_exact() {
    let big = "300000000000000000000000000000000000000";
    let source = format!("+({} {})", big, big);
    assert_eq!(eval(&source), Ok("600000000000000000000000000000000000000".to_string()));
    assert_eq!(eval("+(99999999999999999999.99 0.01)"), Ok("100000000000000000000".to_string()));
}

#[test]
fn number_values() {
    assert_eq!(Number::new(501, 1).value(), "50.1");
    assert_eq!(Number::new(110, 0).value(), "110");
    assert_eq!(Number::new(1200, 2).value(), "12");
    assert_eq!(Number::new(7, 3).value(), "0.007");
    assert_eq!(Number::new(0, 5).value(), "0");
    assert_eq!(Number::from_literal("60.50"), Some(Number::new(6050, 2)));
    assert_eq!(Number::from_literal("30."), Some(Number::new(30, 0)));
    assert_eq!(Number::from_literal("1.2.3"), None);
    assert_eq!(Number::from_literal(".5"), None);
    assert_eq!(Number::from_literal(""), None);
    assert_eq!(Number::new(5, 1).add(&Number::new(25, 2)), Number::new(75, 2));
    assert_eq!(
        Number::new(u128::MAX, 0).add(&Number::new(1, 0)).value(),
        "340282366920938463463374607431768211456"
    );
}

#[test]
fn addition_operator_node() {
    let op = MultipleOperator::new_addition_operator();
    assert!(op.nodes.is_empty());
    assert_eq!(op.evaluate().value(), "0");
}

#[test]
fn program_text_concatenates_values() {
    let mut parser = Parser::new("1 +(2 3) 4.50");
    let prog = parser.parse_program().unwrap();
    assert_eq!(prog.to_text(), "154.5");
    assert_eq!(prog.nodes.len(), 3);
    assert_eq!(prog.nodes[1].value(), "5");
    let empty = Program { nodes: Vec::new() };
    assert_eq!(empty.to_text(), "");
}

#[test]
fn operator_value() {
    let mut parser = Parser::new("+(1.5 2.5)");
    let prog = parser.parse_program().unwrap();
    match &prog.nodes[0] {
        exprcalc::Node::Operator(op) => {
            assert_eq!(op.operator, exprcalc::OperatorKind::Addition);
            assert_eq!(op.nodes.len(), 2);
            assert_eq!(op.value(), "4");
        }
        exprcalc::Node::Number(_) => panic!("expected an operator node"),
    }
}
