use treelox::eval::Stateless;
use treelox::lexer::tokenize;
use treelox::parser::Parser;
use treelox::pipeline;
use treelox::runner::State;
use treelox::token::{Token, TokenType};

fn parse_program(source: &str) -> Vec<treelox::ast::Expr> {
    pipeline::parse(source).expect("program should parse")
}

#[test]
fn parser_drives_token_vector_to_statements() {
    let (tokens, errors) = tokenize("print 1; print 2;");
    assert!(errors.is_empty());
    let mut parser = Parser::new(tokens);
    let statements = parser.parse().expect("program should parse");
    assert_eq!(statements.len(), 2);
}

#[test]
fn state_runs_statements_and_collects_output() {
    let statements = parse_program("var x = 40; x = x + 2; print x;");
    let mut state = State::new();
    state.run(&statements).expect("program should run");
    let printed: Vec<String> = state.output.clone();
    assert_eq!(printed, vec!["42"]);
}

#[test]
fn stateless_evaluator_refuses_statement_forms() {
    let expr = pipeline::parse_expression("var x = 1").expect("declaration should parse");
    let mut stateless = Stateless;
    assert!(stateless.evaluate(&expr).is_err());
}

#[test]
fn stateless_evaluator_passes_identifiers_through() {
    let expr = pipeline::parse_expression("abc").expect("expression should parse");
    let mut stateless = Stateless;
    let token = stateless.evaluate(&expr).expect("evaluation should succeed");
    assert_eq!(token.token_type, TokenType::IDENTIFIER);
    assert_eq!(token.lexeme, "abc");
}

#[test]
fn get_token_combines_lookbehind_operators() {
    let t = Token::get_token('=', '!', 7);
    assert_eq!(t.token_type, TokenType::BANG_EQUAL);
    assert_eq!(t.lexeme, "!=");
    assert_eq!(t.literal, "null");
    assert_eq!(t.line_num, 7);
    let lone = Token::get_token('=', ' ', 7);
    assert_eq!(lone.token_type, TokenType::EQUAL);
    assert_eq!(lone.lexeme, "=");
}

#[test]
fn check_if_reserved_reclassifies_keywords() {
    let mut t = Token::new(
        TokenType::IDENTIFIER,
        String::from("while"),
        String::from("null"),
        1,
    );
    t.check_if_reserved();
    assert_eq!(t.token_type, TokenType::WHILE);
    let mut other = Token::new(
        TokenType::IDENTIFIER,
        String::from("whileloop"),
        String::from("null"),
        1,
    );
    other.check_if_reserved();
    assert_eq!(other.token_type, TokenType::IDENTIFIER);
}

#[test]
fn declaration_statement_renders() {
    let statements = parse_program("var x = 1;");
    assert_eq!(statements[0].render(), "declare x = 1.0");
}

#[test]
fn while_statement_renders() {
    let statements = parse_program("while (true) print 1;");
    assert_eq!(
        statements[0].render(),
        "while condition: (group true)\nstatement(s):\nprint 1.0\nend block"
    );
}

#[test]
fn if_else_statement_renders() {
    let statements = parse_program("if (true) print 1; else print 2;");
    assert_eq!(
        statements[0].render(),
        "if condition: (group true)\nstatement(s):\nprint 1.0\nend block\nelse\nstatement(s):\nprint 2.0\nend if"
    );
}

#[test]
fn block_renders_its_statements() {
    let statements = parse_program("{ print 1; }");
    assert_eq!(statements[0].render(), "scoped \n{\nprint 1.0\n}");
}

#[test]
fn logical_expression_renders_infix() {
    let expr = pipeline::parse_expression("1 or 2").expect("expression should parse");
    assert_eq!(expr.render(), "1.0 or 2.0");
}

#[test]
fn assignment_statement_renders() {
    let statements = parse_program("var x = 0; x = 1;");
    assert_eq!(statements[1].render(), "assign x with 1.0");
}
