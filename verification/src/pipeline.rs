//! The whole front-end as single calls: text to tokens, text to tree, text
//! to a value, text to a program's printed output.  Each stage's failure is
//! returned as a value; mapping failures to process exit codes is the
//! embedder's business.
use vstd::prelude::*;
use vstd::string::*;

use crate::ast::Expr;
use crate::eval::RuntimeError;
use crate::eval::Stateless;
use crate::eval::spec_eval_pure;
use crate::lexer::LexError;
use crate::lexer::lemma_spec_lex_ends_eof;
use crate::lexer::spec_lex;
use crate::lexer::views_of;
use crate::parser::ParseError;
use crate::parser::Parser;
use crate::parser::assign_shape;
use crate::parser::block_sigs;
use crate::parser::expr_sigs;
use crate::parser::lemma_sigs_views;
use crate::parser::literal_start;
use crate::parser::unit_shapes;
use crate::parser::view_sigs;
use crate::parser::wf_expr;
use crate::parser::wf_exprs;
use crate::runner::State;
use crate::token::Token;
use crate::token::TokenType;

verus! {

/// What stopped a program, by pipeline stage.
#[derive(Debug)]
pub enum ProgramError {
    Lex(Vec<LexError>),
    Parse(ParseError),
    Runtime(RuntimeError),
}

/// A token stream of exactly one value literal, a semicolon and the
/// end-of-input token: the simplest complete program, on which the parse
/// is owed success.
pub open spec fn single_literal_statement(ts: Seq<crate::token::TokenView>) -> bool {
    ts.len() == 3 && literal_start(ts[0]) && ts[1].token_type == TokenType::SEMICOLON
}

/// Scans a program text; the lexical diagnostics come back beside the
/// best-effort token sequence.
pub fn tokenize(source: &str) -> (r: (Vec<Token>, Vec<LexError>))
    ensures
        views_of(r.0@) == spec_lex(source@, 0, 1).0,
        r.1@ == spec_lex(source@, 0, 1).1,
{
    crate::lexer::tokenize(source)
}

/// Scans and parses a whole program into its statement list.  Any lexical
/// diagnostic stops the parse and is carried out whole; a syntax error
/// aborts at its first occurrence.  On success the statements are
/// well-formed, carry the grammar's shapes, and their token shapes are
/// exactly a leading stretch of the lexed tokens, ending where a stopping
/// token stands.
pub fn parse(source: &str) -> (r: Result<Vec<Expr>, ProgramError>)
    ensures
        r is Ok ==> wf_exprs(r->Ok_0@) && unit_shapes(r->Ok_0@),
        r is Err ==> r->Err_0 is Lex || r->Err_0 is Parse,
        (spec_lex(source@, 0, 1).1.len() > 0) <==> (r is Err && r->Err_0 is Lex),
        r is Err && r->Err_0 is Lex ==> r->Err_0->Lex_0@ == spec_lex(source@, 0, 1).1,
        r is Ok ==> (exists|k: int|
            0 <= k < spec_lex(source@, 0, 1).0.len() && #[trigger] view_sigs(
                spec_lex(source@, 0, 1).0,
                0,
                k,
            ) == block_sigs(r->Ok_0@) && (spec_lex(source@, 0, 1).0[k].token_type == TokenType::EOF
                || spec_lex(source@, 0, 1).0[k].token_type == TokenType::RIGHT_BRACE)),
        (single_literal_statement(spec_lex(source@, 0, 1).0) && spec_lex(source@, 0, 1).1.len()
            == 0) ==> r is Ok && r->Ok_0@.len() == 1,
        r is Err && r->Err_0 is Parse ==> (exists|k: int|
            0 <= k < spec_lex(source@, 0, 1).0.len() && r->Err_0->Parse_0.lexeme@ == #[trigger] spec_lex(
                source@,
                0,
                1,
            ).0[k].lexeme && r->Err_0->Parse_0.line == spec_lex(source@, 0, 1).0[k].line_num),
{
    let scanned = crate::lexer::tokenize(source);
    let tokens = scanned.0;
    let lex_errors = scanned.1;
    if lex_errors.len() > 0 {
        return Err(ProgramError::Lex(lex_errors));
    }
    proof {
        lemma_spec_lex_ends_eof(source@, 0, 1);
        assert(views_of(tokens@).len() == tokens@.len());
        assert(views_of(tokens@)[tokens@.len() - 1] == tokens@[tokens@.len() - 1]@);
    }
    let mut parser = Parser::new(tokens);
    match parser.parse() {
        Ok(expressions) => {
            proof {
                let ghost k = parser.pos();
                lemma_sigs_views(parser.tokens@, 0, k);
                assert(views_of(parser.tokens@)[k] == parser.tokens@[k]@);
                assert(view_sigs(spec_lex(source@, 0, 1).0, 0, k) == block_sigs(expressions@));
            }
            Ok(expressions)
        },
        Err(e) => {
            proof {
                let ghost k = parser.pos();
                assert(views_of(parser.tokens@)[k] == parser.tokens@[k]@);
                assert(e.lexeme@ == spec_lex(source@, 0, 1).0[k].lexeme);
            }
            Err(ProgramError::Parse(e))
        },
    }
}

/// Scans and parses a single expression, as the parse mode reads its
/// input: lexical diagnostics are not consulted, exactly as many tokens as
/// one expression needs are consumed.  On success the expression is
/// well-formed, carries the grammar's shapes, and its token shapes are a
/// leading stretch of the lexed tokens.
pub fn parse_expression(source: &str) -> (r: Result<Expr, ProgramError>)
    ensures
        r is Ok ==> wf_expr(r->Ok_0) && assign_shape(r->Ok_0),
        r is Err ==> r->Err_0 is Parse,
        r is Ok ==> (exists|k: int|
            0 <= k <= spec_lex(source@, 0, 1).0.len() && #[trigger] view_sigs(
                spec_lex(source@, 0, 1).0,
                0,
                k,
            ) == expr_sigs(r->Ok_0)),
        (spec_lex(source@, 0, 1).0.len() == 2 && literal_start(spec_lex(source@, 0, 1).0[0]))
            ==> r is Ok,
{
    let scanned = crate::lexer::tokenize(source);
    let tokens = scanned.0;
    proof {
        lemma_spec_lex_ends_eof(source@, 0, 1);
        assert(views_of(tokens@).len() == tokens@.len());
        assert(views_of(tokens@)[tokens@.len() - 1] == tokens@[tokens@.len() - 1]@);
        if spec_lex(source@, 0, 1).0.len() == 2 {
            assert(views_of(tokens@)[1] == tokens@[1]@);
        }
    }
    let mut parser = Parser::new(tokens);
    match parser.parse_assignment() {
        Ok(expr) => {
            proof {
                let ghost k = parser.pos();
                lemma_sigs_views(parser.tokens@, 0, k);
                assert(view_sigs(spec_lex(source@, 0, 1).0, 0, k) == expr_sigs(expr));
            }
            Ok(expr)
        },
        Err(e) => Err(ProgramError::Parse(e)),
    }
}

/// Scans, parses and evaluates a single expression without an environment.
/// On success the value is `spec_eval_pure` of a well-formed, well-shaped
/// expression whose token shapes are a leading stretch of this very
/// source's lexed tokens: the source determines the value.
pub fn evaluate(source: &str) -> (r: Result<Token, ProgramError>)
    ensures
        r is Ok ==> (exists|e: Expr|
            {
                &&& #[trigger] wf_expr(e)
                &&& assign_shape(e)
                &&& (exists|k: int|
                    0 <= k <= spec_lex(source@, 0, 1).0.len() && #[trigger] view_sigs(
                        spec_lex(source@, 0, 1).0,
                        0,
                        k,
                    ) == expr_sigs(e))
                &&& spec_eval_pure(e) == Ok::<_, crate::eval::RuntimeErrorKind>(r->Ok_0@)
            }),
        r is Err ==> r->Err_0 is Parse || r->Err_0 is Runtime,
{
    let expr = match parse_expression(source) {
        Ok(e) => e,
        Err(e) => {
            return Err(e);
        },
    };
    let mut stateless = Stateless;
    match stateless.evaluate(&expr) {
        Ok(token) => {
            proof {
                assert(wf_expr(expr) && assign_shape(expr) && spec_eval_pure(expr) == Ok::<
                    _,
                    crate::eval::RuntimeErrorKind,
                >(token@));
            }
            Ok(token)
        },
        Err(e) => Err(ProgramError::Runtime(e)),
    }
}

/// Scans, parses and runs a whole program.  The lines its `print`
/// statements produced come back in order even when a later statement
/// failed; the error, if any, comes beside them.  Lexical diagnostics are
/// carried out whole, before anything runs.
pub fn run(source: &str) -> (r: (Vec<String>, Option<ProgramError>))
    ensures
        r.1 is Some && (r.1->0 is Lex || r.1->0 is Parse) ==> r.0@.len() == 0,
        (spec_lex(source@, 0, 1).1.len() > 0) <==> (r.1 is Some && r.1->0 is Lex),
        r.1 is Some && r.1->0 is Lex ==> r.1->0->Lex_0@ == spec_lex(source@, 0, 1).1,
        (single_literal_statement(spec_lex(source@, 0, 1).0) && spec_lex(source@, 0, 1).1.len()
            == 0) ==> !(r.1 is Some && (r.1->0 is Lex || r.1->0 is Parse)),
{
    let expressions = match parse(source) {
        Ok(es) => es,
        Err(e) => {
            return (Vec::new(), Some(e));
        },
    };
    let mut program_state = State::new();
    match program_state.run(&expressions) {
        Ok(_) => (program_state.output, None),
        Err(e) => (program_state.output, Some(ProgramError::Runtime(e))),
    }
}

} // verus!
