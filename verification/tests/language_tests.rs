use treelox::eval::RuntimeErrorKind;
use treelox::pipeline::{run, ProgramError};

fn run_ok(source: &str) -> Vec<String> {
    let (output, error) = run(source);
    assert!(error.is_none(), "program was expected to succeed");
    output
}

fn run_runtime_error(source: &str) -> (Vec<String>, RuntimeErrorKind) {
    let (output, error) = run(source);
    match error {
        Some(ProgramError::Runtime(e)) => (output, e.kind),
        _ => panic!("program was expected to fail at run time"),
    }
}

#[test]
fn scope_shadowing_prints_inner_then_outer() {
    let output = run_ok("var x = 1; { var x = 2; print x; } print x;");
    assert_eq!(output, vec!["2", "1"]);
}

#[test]
fn assignment_targets_declaring_scope() {
    let output = run_ok("var x = 1; { x = 2; } print x;");
    assert_eq!(output, vec!["2"]);
}

#[test]
fn short_circuit_and_skips_right_side() {
    let output = run_ok("var a = false and (1/0); print a;");
    assert_eq!(output, vec!["false"]);
}

#[test]
fn short_circuit_or_skips_right_side() {
    let output = run_ok("var b = true or (1/0); print b;");
    assert_eq!(output, vec!["true"]);
}

#[test]
fn else_if_chain_picks_first_true_branch() {
    let output = run_ok("if (false) print \"a\"; else if (true) print \"b\"; else print \"c\";");
    assert_eq!(output, vec!["b"]);
}

#[test]
fn trailing_else_runs_when_no_condition_holds() {
    let output = run_ok("if (false) print \"a\"; else if (false) print \"b\"; else print \"c\";");
    assert_eq!(output, vec!["c"]);
}

#[test]
fn while_loop_counts() {
    let output = run_ok("var i = 0; while (i < 3) { print i; i = i + 1; }");
    assert_eq!(output, vec!["0", "1", "2"]);
}

#[test]
fn equality_is_type_sensitive() {
    let output = run_ok("print 1 == \"1\"; print 1 == 1;");
    assert_eq!(output, vec!["false", "true"]);
}

#[test]
fn inequality_compares_kind_and_text() {
    let output = run_ok("print 1 != 2; print \"a\" != \"a\";");
    assert_eq!(output, vec!["true", "false"]);
}

#[test]
fn arithmetic_prints_canonical_values() {
    let output = run_ok("print 1 + 2; print 7 / 2; print 2 * 3.5; print 5 - 8;");
    assert_eq!(output, vec!["3", "3.5", "7", "-3"]);
}

#[test]
fn fractions_add_exactly() {
    let output = run_ok("print 0.1 + 0.2;");
    assert_eq!(output, vec!["0.3"]);
}

#[test]
fn division_by_zero_is_not_an_error() {
    let output = run_ok("print 1 / 0; print -1 / 0; print 0 / 0;");
    assert_eq!(output, vec!["inf", "-inf", "NaN"]);
}

#[test]
fn division_carries_twenty_digits_of_precision() {
    let output = run_ok("print 1 / 3;");
    assert_eq!(output, vec!["0.33333333333333333333"]);
}

#[test]
fn comparisons_on_numbers() {
    let output = run_ok("print 2 > 1; print 1 >= 2; print 1.5 < 1.50; print 1.5 <= 1.50;");
    assert_eq!(output, vec!["true", "false", "false", "true"]);
}

#[test]
fn string_concatenation_prints_joined_text() {
    let output = run_ok("print \"foo\" + \"bar\";");
    assert_eq!(output, vec!["foobar"]);
}

#[test]
fn double_negation_restores_the_value() {
    let output = run_ok("print --5; print -5;");
    assert_eq!(output, vec!["5", "-5"]);
}

#[test]
fn bang_negates_truthiness() {
    let output = run_ok("print !true; print !nil; print !0;");
    assert_eq!(output, vec!["false", "true", "false"]);
}

#[test]
fn nested_blocks_see_outer_variables() {
    let output = run_ok("{ var y = 5; { print y; } }");
    assert_eq!(output, vec!["5"]);
}

#[test]
fn redeclaration_in_same_frame_overwrites() {
    let output = run_ok("var x = 1; var x = 2; print x;");
    assert_eq!(output, vec!["2"]);
}

#[test]
fn undeclared_variable_reference_fails() {
    let (output, kind) = run_runtime_error("print x;");
    assert!(output.is_empty());
    assert_eq!(kind, RuntimeErrorKind::UndeclaredVariable);
}

#[test]
fn undeclared_variable_assignment_fails() {
    let (_, kind) = run_runtime_error("x = 1;");
    assert_eq!(kind, RuntimeErrorKind::UndeclaredVariable);
}

#[test]
fn mixed_plus_operands_fail() {
    let (_, kind) = run_runtime_error("print 1 + \"a\";");
    assert_eq!(kind, RuntimeErrorKind::OperandsMustBeTwoNumbersOrTwoStrings);
}

#[test]
fn minus_on_strings_fails() {
    let (_, kind) = run_runtime_error("print \"a\" - \"b\";");
    assert_eq!(kind, RuntimeErrorKind::OperandsMustBeNumbers);
}

#[test]
fn negating_a_string_fails() {
    let (_, kind) = run_runtime_error("print -\"a\";");
    assert_eq!(kind, RuntimeErrorKind::OperandMustBeNumber);
}

#[test]
fn uninitialized_variable_is_falsy() {
    let output = run_ok("var x; if (x) print 1; else print 2;");
    assert_eq!(output, vec!["2"]);
}

#[test]
fn uninitialized_variable_equals_nil() {
    let output = run_ok("var x; print x == nil;");
    assert_eq!(output, vec!["true"]);
}

#[test]
fn uninitialized_variable_prints_nil() {
    let output = run_ok("var x; print x;");
    assert_eq!(output, vec!["nil"]);
}

#[test]
fn for_statement_parses_but_does_not_run() {
    let (output, kind) = run_runtime_error("for (var i = 0; i < 3; i = i + 1) print i;");
    assert!(output.is_empty());
    assert_eq!(kind, RuntimeErrorKind::UnsupportedConstruct);
}

#[test]
fn output_before_a_failure_is_kept() {
    let (output, kind) = run_runtime_error("print 1; print y;");
    assert_eq!(output, vec!["1"]);
    assert_eq!(kind, RuntimeErrorKind::UndeclaredVariable);
}

#[test]
fn falsy_number_condition_never_occurs_from_literals() {
    // a number's decoded literal always carries a fraction, so it is truthy
    let output = run_ok("if (0) print \"t\"; else print \"f\";");
    assert_eq!(output, vec!["t"]);
}
