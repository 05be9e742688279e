use treelox::parser::ParseErrorKind;
use treelox::pipeline::{evaluate, parse, parse_expression, run, ProgramError};

fn parse_error_kind(source: &str) -> (ParseErrorKind, String) {
    match parse(source) {
        Err(ProgramError::Parse(e)) => (e.kind, e.lexeme),
        _ => panic!("expected a parse error"),
    }
}

#[test]
fn unmatched_open_paren_is_a_parse_error() {
    let (kind, _) = parse_error_kind("(1 + 2;");
    assert_eq!(kind, ParseErrorKind::MissingRightParen);
}

#[test]
fn stray_close_paren_is_a_parse_error() {
    let (kind, lexeme) = parse_error_kind(") 1;");
    assert_eq!(kind, ParseErrorKind::UnexpectedToken);
    assert_eq!(lexeme, ")");
}

#[test]
fn missing_semicolon_is_a_parse_error() {
    let (kind, _) = parse_error_kind("print 1");
    assert_eq!(kind, ParseErrorKind::MissingSemicolon);
}

#[test]
fn missing_close_brace_is_a_parse_error() {
    let (kind, _) = parse_error_kind("{ print 1;");
    assert_eq!(kind, ParseErrorKind::MissingRightBrace);
}

#[test]
fn assignment_to_non_identifier_is_a_parse_error() {
    let (kind, _) = parse_error_kind("1 = 2;");
    assert_eq!(kind, ParseErrorKind::CannotAssignToNonIdentifier);
}

#[test]
fn declaration_needs_an_identifier() {
    let (kind, _) = parse_error_kind("var 1 = 2;");
    assert_eq!(kind, ParseErrorKind::ExpectedIdentifier);
}

#[test]
fn condition_must_be_parenthesized() {
    let (kind, _) = parse_error_kind("if true print 1;");
    assert_eq!(kind, ParseErrorKind::ExpectedParenthesizedCondition);
}

#[test]
fn lexical_error_stops_the_run_pipeline() {
    let (output, error) = run("print @;");
    assert!(output.is_empty());
    assert!(matches!(error, Some(ProgramError::Lex(_))));
}

#[test]
fn binary_expression_renders_prefix_form() {
    let expr = parse_expression("1 + 2").expect("expression should parse");
    assert_eq!(expr.render(), "(+ 1.0 2.0)");
}

#[test]
fn grouping_renders_under_group() {
    let expr = parse_expression("(1)").expect("expression should parse");
    assert_eq!(expr.render(), "(group 1.0)");
}

#[test]
fn unary_renders_operator_first() {
    let expr = parse_expression("!true").expect("expression should parse");
    assert_eq!(expr.render(), "(! true)");
}

#[test]
fn string_literal_renders_its_decoded_text() {
    let expr = parse_expression("\"hi\"").expect("expression should parse");
    assert_eq!(expr.render(), "hi");
}

#[test]
fn precedence_groups_multiplication_tighter() {
    let expr = parse_expression("1 + 2 * 3").expect("expression should parse");
    assert_eq!(expr.render(), "(+ 1.0 (* 2.0 3.0))");
}

#[test]
fn evaluate_mode_prints_canonical_number() {
    let token = evaluate("1 + 2").expect("evaluation should succeed");
    assert_eq!(token.print_text(), "3");
}

#[test]
fn evaluate_mode_double_negation() {
    let token = evaluate("--5").expect("evaluation should succeed");
    assert_eq!(token.print_text(), "5");
    let plain = evaluate("5").expect("evaluation should succeed");
    assert_eq!(token.print_text(), plain.print_text());
}

#[test]
fn evaluate_mode_concatenates_strings_unquoted() {
    let token = evaluate("\"a\" + \"b\"").expect("evaluation should succeed");
    assert_eq!(token.print_text(), "ab");
}

#[test]
fn evaluate_mode_comparison_yields_keyword() {
    let token = evaluate("2 >= 3").expect("evaluation should succeed");
    assert_eq!(token.print_text(), "false");
}

#[test]
fn evaluate_mode_propagates_type_errors() {
    assert!(matches!(
        evaluate("-\"a\""),
        Err(ProgramError::Runtime(_))
    ));
}
