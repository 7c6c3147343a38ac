use pratt_calc::expr::Expression;
use pratt_calc::lexer::{Lexer, Token};
use pratt_calc::parser::{infix_binding_power, parse_expression, ParseError};

fn rendered(s: &str) -> String {
    Expression::from_str(s.to_string()).ok().expect("parses").render()
}

fn error_of(s: &str) -> Option<ParseError> {
    Expression::from_str(s.to_string()).err()
}

fn atom(s: &str) -> Box<Expression> {
    Box::new(Expression::Atom(s.to_string()))
}

#[test]
fn lexer_drops_whitespace_and_classifies() {
    let mut lexer = Lexer::new("1 2 +\tab\n".to_string());
    assert_eq!(lexer.next(), Token::Atom('1'));
    assert_eq!(lexer.next(), Token::Atom('2'));
    assert_eq!(lexer.next(), Token::Op('+'));
    assert_eq!(lexer.next(), Token::Atom('a'));
    assert_eq!(lexer.next(), Token::Atom('b'));
    assert_eq!(lexer.next(), Token::Eof);
    assert_eq!(lexer.next(), Token::Eof);
    assert_eq!(lexer.peek(), Token::Eof);
}

#[test]
fn lexer_peek_does_not_advance() {
    let mut lexer = Lexer::new("x√".to_string());
    assert_eq!(lexer.peek(), Token::Atom('x'));
    assert_eq!(lexer.peek(), Token::Atom('x'));
    assert_eq!(lexer.next(), Token::Atom('x'));
    assert_eq!(lexer.peek(), Token::Op('√'));
    assert_eq!(lexer.next(), Token::Op('√'));
    assert_eq!(lexer.peek(), Token::Eof);
}

#[test]
fn lexer_of_empty_line() {
    let mut lexer = Lexer::new("  \r\n".to_string());
    assert_eq!(lexer.peek(), Token::Eof);
    assert_eq!(lexer.next(), Token::Eof);
}

#[test]
fn render_of_constructed_tree() {
    let e = Expression::Operation('+', atom("1"), atom("2"));
    assert_eq!(e.render(), "(+ 1 2)");
    let nested = Expression::Operation('*', Box::new(e), atom("x"));
    assert_eq!(nested.render(), "(* (+ 1 2) x)");
    assert_eq!(Expression::Atom("foo".to_string()).render(), "foo");
}

#[test]
fn subtraction_is_left_associative() {
    assert_eq!(rendered("1-2-3"), "(- (- 1 2) 3)");
}

#[test]
fn power_is_right_associative() {
    assert_eq!(rendered("2^3^2"), "(^ 2 (^ 3 2))");
}

#[test]
fn product_binds_tighter_than_sum() {
    assert_eq!(rendered("1+2*3"), "(+ 1 (* 2 3))");
    assert_eq!(rendered("(1+2)*3"), "(* (+ 1 2) 3)");
}

#[test]
fn assignment_is_detected() {
    let e = Expression::from_str("x=5".to_string()).ok().unwrap();
    let (name, rhs) = e.is_asign().expect("assignment");
    assert_eq!(name, "x");
    assert_eq!(rhs.render(), "5");
    let f = Expression::from_str("x+1".to_string()).ok().unwrap();
    assert_eq!(f.render(), "(+ x 1)");
    assert!(f.is_asign().is_none());
    assert!(Expression::Atom("x".to_string()).is_asign().is_none());
}

#[test]
fn assignment_is_right_associative() {
    assert_eq!(rendered("a=b=3"), "(= a (= b 3))");
    assert_eq!(rendered("x=1+2"), "(= x (+ 1 2))");
}

#[test]
fn atoms_are_glued() {
    assert_eq!(rendered("foo+1"), "(+ foo 1)");
    assert_eq!(rendered("1 2"), "12");
    assert_eq!(rendered(" f o o "), "foo");
}

#[test]
fn root_operator_parses() {
    assert_eq!(rendered("8√3"), "(√ 8 3)");
    assert_eq!(rendered("2√2^3"), "(√ 2 (^ 2 3))");
}

#[test]
fn decimal_point_is_an_operator() {
    assert_eq!(rendered("3.5"), "(. 3 5)");
    assert_eq!(rendered("2*3.5"), "(* 2 (. 3 5))");
    assert_eq!(rendered("1.2.3"), "(. (. 1 2) 3)");
}

#[test]
fn parentheses_nest() {
    assert_eq!(rendered("((1))"), "1");
    assert_eq!(rendered("2*(3-(4/5))"), "(* 2 (- 3 (/ 4 5)))");
}

#[test]
fn trailing_tokens_after_close_are_left() {
    assert_eq!(rendered("1)2"), "1");
}

#[test]
fn unexpected_tokens_are_errors() {
    assert_eq!(error_of(""), Some(ParseError::UnexpectedToken(Token::Eof)));
    assert_eq!(error_of(")"), Some(ParseError::UnexpectedToken(Token::Op(')'))));
    assert_eq!(error_of("1+"), Some(ParseError::UnexpectedToken(Token::Eof)));
    assert_eq!(error_of("(1)2"), Some(ParseError::UnexpectedToken(Token::Atom('2'))));
    assert_eq!(error_of("*2"), Some(ParseError::UnexpectedToken(Token::Op('*'))));
}

#[test]
fn missing_close_paren_is_an_error() {
    assert_eq!(error_of("(1+2"), Some(ParseError::MissingCloseParen));
    assert_eq!(error_of("("), Some(ParseError::UnexpectedToken(Token::Eof)));
}

#[test]
fn unknown_operator_is_an_error() {
    assert_eq!(error_of("1#2"), Some(ParseError::UnknownOperator('#')));
    assert_eq!(error_of("2(3)"), Some(ParseError::UnknownOperator('(')));
}

#[test]
fn binding_power_table() {
    assert_eq!(infix_binding_power('='), Some((2, 1)));
    assert_eq!(infix_binding_power('+'), Some((10, 11)));
    assert_eq!(infix_binding_power('-'), Some((10, 11)));
    assert_eq!(infix_binding_power('*'), Some((20, 21)));
    assert_eq!(infix_binding_power('/'), Some((20, 21)));
    assert_eq!(infix_binding_power('^'), Some((31, 30)));
    assert_eq!(infix_binding_power('√'), Some((31, 30)));
    assert_eq!(infix_binding_power('.'), Some((40, 41)));
    assert_eq!(infix_binding_power('%'), None);
}

#[test]
fn parse_with_raised_minimum_stops_early() {
    let mut lexer = Lexer::new("1+2*3".to_string());
    let e = parse_expression(&mut lexer, 15).ok().unwrap();
    assert_eq!(e.render(), "1");
    assert_eq!(lexer.next(), Token::Op('+'));
}

#[test]
fn parsed_tree_keeps_token_order() {
    assert_eq!(rendered("a*(b+c)-d"), "(- (* a (+ b c)) d)");
    assert_eq!(rendered("((x))=(y)^2"), "(= x (^ y 2))");
}

#[test]
fn grouping_follows_binding_powers() {
    assert_eq!(rendered("a*b+c"), "(+ (* a b) c)");
    assert_eq!(rendered("a+b-c"), "(- (+ a b) c)");
    assert_eq!(rendered("a/b*c"), "(* (/ a b) c)");
    assert_eq!(rendered("a^b*c"), "(* (^ a b) c)");
    assert_eq!(rendered("a=b+c"), "(= a (+ b c))");
    assert_eq!(rendered("a.b^c"), "(^ (. a b) c)");
}

#[test]
fn different_trees_render_differently() {
    assert_ne!(rendered("(1+2)+3"), rendered("1+(2+3)"));
    assert_eq!(rendered("(1+2)+3"), rendered("1+2+3"));
}
