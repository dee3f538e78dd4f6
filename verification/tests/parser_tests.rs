use tinylang::frontend::ast::{Expression, Program, Statement};
use tinylang::frontend::parser::{ParseError, Parser};

fn parse(source: &str) -> Result<Program, ParseError> {
    let mut parser = Parser::new(source)?;
    parser.produce_ast()
}

#[test]
fn precedence_builds_multiplication_under_addition() {
    let program = parse("2 + 3 * 4").unwrap();
    assert_eq!(program.body.len(), 1);
    match &program.body[0] {
        Statement::Expression(Expression::BinaryExpression { left, operator, right }) => {
            assert_eq!(*operator, '+');
            assert!(matches!(**left, Expression::NumericLiteral(2)));
            match &**right {
                Expression::BinaryExpression { left, operator, right } => {
                    assert_eq!(*operator, '*');
                    assert!(matches!(**left, Expression::NumericLiteral(3)));
                    assert!(matches!(**right, Expression::NumericLiteral(4)));
                },
                other => panic!("expected a product, got {:?}", other),
            }
        },
        other => panic!("expected a sum, got {:?}", other),
    }
}

#[test]
fn subtraction_is_left_associative() {
    let program = parse("10 - 3 - 2").unwrap();
    match &program.body[0] {
        Statement::Expression(Expression::BinaryExpression { left, operator, right }) => {
            assert_eq!(*operator, '-');
            assert!(matches!(**right, Expression::NumericLiteral(2)));
            match &**left {
                Expression::BinaryExpression { left, operator, right } => {
                    assert_eq!(*operator, '-');
                    assert!(matches!(**left, Expression::NumericLiteral(10)));
                    assert!(matches!(**right, Expression::NumericLiteral(3)));
                },
                other => panic!("expected a difference, got {:?}", other),
            }
        },
        other => panic!("expected a difference, got {:?}", other),
    }
}

#[test]
fn parsing_twice_yields_structurally_identical_programs() {
    let source = "let a = 1; a + 2 * (3 - 1)";
    let first = parse(source).unwrap();
    let second = parse(source).unwrap();
    assert_eq!(first, second);
}

#[test]
fn declaration_without_initializer_parses() {
    let program = parse("let x;").unwrap();
    match &program.body[0] {
        Statement::VariableDeclaration { constant, identifier, value } => {
            assert!(!constant);
            assert_eq!(identifier, "x");
            assert!(value.is_none());
        },
        other => panic!("expected a declaration, got {:?}", other),
    }
}

#[test]
fn constant_declaration_keeps_its_flag() {
    let program = parse("const x = 2;").unwrap();
    match &program.body[0] {
        Statement::VariableDeclaration { constant, identifier, value } => {
            assert!(constant);
            assert_eq!(identifier, "x");
            assert!(matches!(value, Some(Expression::NumericLiteral(2))));
        },
        other => panic!("expected a declaration, got {:?}", other),
    }
}

#[test]
fn missing_close_paren_is_fatal() {
    let error = parse("(1 + 2").unwrap_err();
    assert!(matches!(error, ParseError::ExpectedCloseParen(_)));
}

#[test]
fn uninitialized_constant_is_fatal() {
    let error = parse("const q;").unwrap_err();
    assert!(matches!(error, ParseError::ConstantWithoutValue));
}

#[test]
fn declaration_without_identifier_is_fatal() {
    let error = parse("let;").unwrap_err();
    assert!(matches!(error, ParseError::ExpectedIdentifier(_)));
}

#[test]
fn declaration_without_terminator_or_equals_is_fatal() {
    let error = parse("let v 3").unwrap_err();
    assert!(matches!(error, ParseError::ExpectedSemicolonOrEquals(_)));
}

#[test]
fn unexpected_primary_token_is_fatal() {
    let error = parse("1 + ;").unwrap_err();
    assert!(matches!(error, ParseError::UnexpectedToken(_)));
}

#[test]
fn unsupported_character_surfaces_through_the_parser() {
    let error = parse("1 @ 2").unwrap_err();
    assert!(matches!(error, ParseError::UnsupportedCharacter('@')));
}

#[test]
fn oversized_literal_is_refused() {
    let error = parse("99999999999999999999999999").unwrap_err();
    assert!(matches!(error, ParseError::NumberTooLarge(_)));
}
