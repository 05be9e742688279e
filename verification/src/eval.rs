//! Expression evaluation: truthiness, negation by sign toggling, string
//! concatenation, exact-decimal arithmetic and comparison, and the
//! stateless evaluator used by the expression-evaluation mode, which passes
//! identifier tokens through untouched.
use vstd::prelude::*;
use vstd::string::*;

use crate::ast::Expr;
use crate::num::Cmp;
use crate::num::Num;
use crate::num::num_add;
use crate::num::num_cmp;
use crate::num::num_div;
use crate::num::num_mul;
use crate::num::num_strings;
use crate::num::num_sub;
use crate::num::parse_num;
use crate::num::spec_num_add;
use crate::num::spec_num_div;
use crate::num::spec_num_literal;
use crate::num::spec_num_mul;
use crate::num::spec_num_str;
use crate::num::spec_num_sub;
use crate::num::spec_parse_num;
use crate::num::num_eq_val;
use crate::num::num_lt;
use crate::token::Token;
use crate::token::TokenType;
use crate::token::TokenView;

verus! {

/// Why evaluation was aborted.
#[derive(Debug, Clone, Copy, PartialEq, Eq, Structural)]
pub enum RuntimeErrorKind {
    OperandMustBeNumber,
    OperandsMustBeNumbers,
    OperandsMustBeTwoNumbersOrTwoStrings,
    InvalidCondition,
    UndeclaredVariable,
    InvalidStatement,
    InvalidOperator,
    InvalidNumber,
    NumberOutOfRange,
    UnsupportedConstruct,
    IterationLimit,
}

/// A runtime diagnostic: its kind, the line it arose on when one is known,
/// and the name involved when one is (an undeclared variable).
#[derive(Debug)]
pub struct RuntimeError {
    pub kind: RuntimeErrorKind,
    pub line: u32,
    pub name: String,
}

/// The truthiness of a value: `true` and strings are truthy, numbers are
/// truthy unless their literal is exactly `0`, `false` and `nil` are falsy,
/// and any other kind has no truth value at all.
pub open spec fn spec_truthy(t: TokenView) -> Option<bool> {
    if t.token_type == TokenType::TRUE || t.token_type == TokenType::STRING {
        Some(true)
    } else if t.token_type == TokenType::NUMBER {
        Some(t.literal != "0"@)
    } else if t.token_type == TokenType::FALSE || t.token_type == TokenType::NIL {
        Some(false)
    } else {
        None
    }
}

/// Negation by sign toggling: a leading minus sign is removed, otherwise
/// one is put on.
pub open spec fn spec_negate(l: Seq<char>) -> Seq<char> {
    if l.len() > 0 && l[0] == '-' {
        l.drop_first()
    } else {
        seq!['-'] + l
    }
}

/// Toggling the sign twice gives the text back, for any text that does not
/// already start with a doubled minus sign.
pub proof fn lemma_double_negation(l: Seq<char>)
    requires
        !(l.len() >= 2 && l[0] == '-' && l[1] == '-'),
    ensures
        spec_negate(spec_negate(l)) == l,
{
    if l.len() > 0 && l[0] == '-' {
        let d = l.drop_first();
        if d.len() > 0 {
            assert(d[0] == l[1]);
        }
        assert(spec_negate(d) =~= seq!['-'] + d);
        assert(seq!['-'] + d =~= l);
    } else {
        let m = seq!['-'] + l;
        assert(m[0] == '-');
        assert(m.drop_first() =~= l);
    }
}


/// Double negation is idempotent on the lexeme form: a number negated
/// twice evaluates to a value with the number's own kind, surface text and
/// literal (only the source line, which computed values do not carry, may
/// differ).
pub proof fn lemma_eval_double_negation(op1: Token, op2: Token, t: Token)
    requires
        op1@.token_type == TokenType::MINUS,
        op2@.token_type == TokenType::MINUS,
        t@.token_type == TokenType::NUMBER,
        !(t@.lexeme.len() >= 2 && t@.lexeme[0] == '-' && t@.lexeme[1] == '-'),
        !(t@.literal.len() >= 2 && t@.literal[0] == '-' && t@.literal[1] == '-'),
    ensures
        ({
            let r = spec_eval_pure(
                Expr::Unary(op2, Box::new(Expr::Unary(op1, Box::new(Expr::Literal(t))))),
            );
            &&& r is Ok
            &&& r->Ok_0.token_type == t@.token_type
            &&& r->Ok_0.lexeme == t@.lexeme
            &&& r->Ok_0.literal == t@.literal
        }),
{
    lemma_double_negation(t@.lexeme);
    lemma_double_negation(t@.literal);
    let leaf = Expr::Literal(t);
    let inner = Expr::Unary(op1, Box::new(leaf));
    assert(spec_eval_pure(leaf) == Ok::<TokenView, RuntimeErrorKind>(t@));
    let v1 = TokenView {
        token_type: TokenType::NUMBER,
        lexeme: spec_negate(t@.lexeme),
        literal: spec_negate(t@.literal),
        line_num: 0,
    };
    assert(spec_eval_pure(inner) == Ok::<TokenView, RuntimeErrorKind>(v1));
    let outer = Expr::Unary(op2, Box::new(inner));
    assert(spec_eval_pure(outer) is Ok);
}

/// Two values are equal when both their kind and their surface text agree:
/// equality never coerces across kinds.
pub open spec fn spec_values_equal(a: TokenView, b: TokenView) -> bool {
    a.token_type == b.token_type && a.lexeme == b.lexeme
}

/// Values of different kinds are never equal: equality is type-sensitive.
pub proof fn lemma_equality_type_sensitive(a: TokenView, b: TokenView)
    requires
        a.token_type != b.token_type,
    ensures
        !spec_values_equal(a, b),
{
}

/// The boolean result token, carrying the given line.
pub open spec fn bool_token(b: bool, line: u32) -> TokenView {
    if b {
        TokenView { token_type: TokenType::TRUE, lexeme: "true"@, literal: "null"@, line_num: line }
    } else {
        TokenView {
            token_type: TokenType::FALSE,
            lexeme: "false"@,
            literal: "null"@,
            line_num: line,
        }
    }
}

/// The number token of a computed value.
pub open spec fn number_token_of(x: Num) -> TokenView {
    TokenView {
        token_type: TokenType::NUMBER,
        lexeme: spec_num_str(x),
        literal: spec_num_literal(x),
        line_num: 0,
    }
}

/// The result of one arithmetic operation on two number tokens' literals:
/// out-of-range exact results are refused, as are literals that are no
/// numerals.
pub open spec fn spec_arith(op: TokenType, a: TokenView, b: TokenView) -> Result<
    TokenView,
    RuntimeErrorKind,
> {
    match (spec_parse_num(a.literal), spec_parse_num(b.literal)) {
        (Some(x), Some(y)) => {
            let res = if op == TokenType::PLUS {
                spec_num_add(x, y)
            } else if op == TokenType::MINUS {
                spec_num_sub(x, y)
            } else if op == TokenType::STAR {
                spec_num_mul(x, y)
            } else {
                spec_num_div(x, y)
            };
            match res {
                Some(z) => Ok(number_token_of(z)),
                None => Err(RuntimeErrorKind::NumberOutOfRange),
            }
        },
        _ => Err(RuntimeErrorKind::InvalidNumber),
    }
}

/// The result of an ordering comparison on two number tokens' literals:
/// `false` whenever the not-a-number value is involved.
pub open spec fn spec_order(op: TokenType, a: TokenView, b: TokenView) -> Result<
    bool,
    RuntimeErrorKind,
> {
    match (spec_parse_num(a.literal), spec_parse_num(b.literal)) {
        (Some(x), Some(y)) => {
            if x is Nan || y is Nan {
                Ok(false)
            } else if op == TokenType::GREATER {
                Ok(num_lt(y, x))
            } else if op == TokenType::GREATER_EQUAL {
                Ok(num_lt(y, x) || num_eq_val(x, y))
            } else if op == TokenType::LESS {
                Ok(num_lt(x, y))
            } else {
                Ok(num_lt(x, y) || num_eq_val(x, y))
            }
        },
        _ => Err(RuntimeErrorKind::InvalidNumber),
    }
}

fn error_of(kind: RuntimeErrorKind, line: u32) -> (r: RuntimeError)
    ensures
        r.kind == kind,
        r.line == line,
        r.name@ == Seq::<char>::empty(),
{
    RuntimeError { kind, line, name: String::new() }
}

/// Computes a value's truthiness; values that have none are refused.
pub fn get_bool(token: &Token) -> (r: Result<bool, RuntimeError>)
    ensures
        r is Ok <==> spec_truthy(token@) is Some,
        r is Ok ==> Some(r->Ok_0) == spec_truthy(token@),
        r is Err ==> r->Err_0.kind == RuntimeErrorKind::InvalidCondition,
{
    let k = token.token_type;
    if k == TokenType::TRUE || k == TokenType::STRING {
        Ok(true)
    } else if k == TokenType::NUMBER {
        let zero = String::from_str("0");
        Ok(!(token.literal == zero))
    } else if k == TokenType::FALSE || k == TokenType::NIL {
        Ok(false)
    } else {
        Err(error_of(RuntimeErrorKind::InvalidCondition, token.line_num))
    }
}

/// Toggles a leading minus sign on a text.
fn negate_text(s: &str) -> (r: String)
    ensures
        r@ == spec_negate(s@),
{
    let n = s.unicode_len();
    if n > 0 && s.get_char(0) == '-' {
        let out = s.substring_char(1, n).to_owned();
        proof {
            assert(out@ =~= spec_negate(s@));
        }
        out
    } else {
        let mut out = String::from_str("-");
        out.append(s);
        proof {
            reveal_strlit("-");
            assert(out@ =~= spec_negate(s@));
        }
        out
    }
}

/// Negates a number value by toggling the sign of both its surface text
/// and its literal; any other kind is refused.
pub fn negate_value(right: &Token) -> (r: Result<Token, RuntimeError>)
    ensures
        right@.token_type == TokenType::NUMBER <==> r is Ok,
        r is Ok ==> r->Ok_0@ == (TokenView {
            token_type: TokenType::NUMBER,
            lexeme: spec_negate(right@.lexeme),
            literal: spec_negate(right@.literal),
            line_num: 0,
        }),
        r is Err ==> r->Err_0.kind == RuntimeErrorKind::OperandMustBeNumber,
{
    if right.token_type != TokenType::NUMBER {
        return Err(error_of(RuntimeErrorKind::OperandMustBeNumber, right.line_num));
    }
    let lexeme = negate_text(right.lexeme.as_str());
    let literal = negate_text(right.literal.as_str());
    Ok(Token::new(TokenType::NUMBER, lexeme, literal, 0))
}

/// Concatenates two string values: the literals are joined, and the
/// surface text is the joined text in quotes.
pub fn concat_strings(str1_token: &Token, str2_token: &Token) -> (r: Token)
    ensures
        r@ == (TokenView {
            token_type: TokenType::STRING,
            lexeme: seq!['"'] + str1_token@.literal + str2_token@.literal + seq!['"'],
            literal: str1_token@.literal + str2_token@.literal,
            line_num: 0,
        }),
{
    let mut literal = str1_token.literal.clone();
    literal.append(str2_token.literal.as_str());
    let mut lexeme = String::from_str("\"");
    lexeme.append(literal.as_str());
    lexeme.append("\"");
    proof {
        reveal_strlit("\"");
        assert(lexeme@ =~= seq!['"'] + str1_token@.literal + str2_token@.literal + seq!['"']);
    }
    Token::new(TokenType::STRING, lexeme, literal, 0)
}

pub fn num_check(type1: TokenType, type2: TokenType) -> (r: bool)
    ensures
        r == (type1 == TokenType::NUMBER && type2 == TokenType::NUMBER),
{
    type1 == TokenType::NUMBER && type2 == TokenType::NUMBER
}

/// One arithmetic operation on two number tokens, by exact decimal
/// arithmetic on their literals.
fn arith_op(op: TokenType, left: &Token, right: &Token) -> (r: Result<Token, RuntimeError>)
    requires
        op == TokenType::PLUS || op == TokenType::MINUS || op == TokenType::STAR || op
            == TokenType::SLASH,
    ensures
        r is Ok ==> spec_arith(op, left@, right@) == Ok::<TokenView, RuntimeErrorKind>(r->Ok_0@),
        r is Err ==> spec_arith(op, left@, right@) == Err::<TokenView, RuntimeErrorKind>(
            r->Err_0.kind,
        ),
{
    let x = match parse_num(left.literal.as_str()) {
        Some(v) => v,
        None => {
            return Err(error_of(RuntimeErrorKind::InvalidNumber, left.line_num));
        },
    };
    let y = match parse_num(right.literal.as_str()) {
        Some(v) => v,
        None => {
            return Err(error_of(RuntimeErrorKind::InvalidNumber, right.line_num));
        },
    };
    let res: Option<Num> = if op == TokenType::PLUS {
        num_add(&x, &y)
    } else if op == TokenType::MINUS {
        num_sub(&x, &y)
    } else if op == TokenType::STAR {
        num_mul(&x, &y)
    } else {
        num_div(&x, &y)
    };
    match res {
        Some(z) => {
            let rendered = num_strings(&z);
            Ok(Token::new(TokenType::NUMBER, rendered.0, rendered.1, 0))
        },
        None => Err(error_of(RuntimeErrorKind::NumberOutOfRange, left.line_num)),
    }
}

/// Adds two number tokens.
pub fn add(val1_token: &Token, val2_token: &Token) -> (r: Result<Token, RuntimeError>)
    ensures
        r is Ok ==> spec_arith(TokenType::PLUS, val1_token@, val2_token@) == Ok::<
            TokenView,
            RuntimeErrorKind,
        >(r->Ok_0@),
        r is Err ==> spec_arith(TokenType::PLUS, val1_token@, val2_token@) == Err::<
            TokenView,
            RuntimeErrorKind,
        >(r->Err_0.kind),
{
    arith_op(TokenType::PLUS, val1_token, val2_token)
}

/// Subtracts two number tokens; both operands must be numbers.
pub fn subtract(val1_token: &Token, val2_token: &Token) -> (r: Result<Token, RuntimeError>)
    ensures
        !(val1_token@.token_type == TokenType::NUMBER && val2_token@.token_type
            == TokenType::NUMBER) ==> r is Err && r->Err_0.kind
            == RuntimeErrorKind::OperandsMustBeNumbers,
        (val1_token@.token_type == TokenType::NUMBER && val2_token@.token_type
            == TokenType::NUMBER) ==> ((r is Ok ==> spec_arith(TokenType::MINUS, val1_token@,
            val2_token@,
        ) == Ok::<TokenView, RuntimeErrorKind>(r->Ok_0@)) && (r is Err ==> spec_arith(
            TokenType::MINUS,
            val1_token@,
            val2_token@,
        ) == Err::<TokenView, RuntimeErrorKind>(r->Err_0.kind))),
{
    if !num_check(val1_token.token_type, val2_token.token_type) {
        return Err(error_of(RuntimeErrorKind::OperandsMustBeNumbers, val1_token.line_num));
    }
    arith_op(TokenType::MINUS, val1_token, val2_token)
}

/// Multiplies two number tokens; both operands must be numbers.
pub fn multiply(val1_token: &Token, val2_token: &Token) -> (r: Result<Token, RuntimeError>)
    ensures
        !(val1_token@.token_type == TokenType::NUMBER && val2_token@.token_type
            == TokenType::NUMBER) ==> r is Err && r->Err_0.kind
            == RuntimeErrorKind::OperandsMustBeNumbers,
        (val1_token@.token_type == TokenType::NUMBER && val2_token@.token_type
            == TokenType::NUMBER) ==> ((r is Ok ==> spec_arith(TokenType::STAR, val1_token@,
            val2_token@,
        ) == Ok::<TokenView, RuntimeErrorKind>(r->Ok_0@)) && (r is Err ==> spec_arith(
            TokenType::STAR,
            val1_token@,
            val2_token@,
        ) == Err::<TokenView, RuntimeErrorKind>(r->Err_0.kind))),
{
    if !num_check(val1_token.token_type, val2_token.token_type) {
        return Err(error_of(RuntimeErrorKind::OperandsMustBeNumbers, val1_token.line_num));
    }
    arith_op(TokenType::STAR, val1_token, val2_token)
}

/// Divides two number tokens; both operands must be numbers.  Division by
/// zero yields the signed infinite values or the not-a-number value, never
/// an error.
pub fn divide(val1_token: &Token, val2_token: &Token) -> (r: Result<Token, RuntimeError>)
    ensures
        !(val1_token@.token_type == TokenType::NUMBER && val2_token@.token_type
            == TokenType::NUMBER) ==> r is Err && r->Err_0.kind
            == RuntimeErrorKind::OperandsMustBeNumbers,
        (val1_token@.token_type == TokenType::NUMBER && val2_token@.token_type
            == TokenType::NUMBER) ==> ((r is Ok ==> spec_arith(TokenType::SLASH, val1_token@,
            val2_token@,
        ) == Ok::<TokenView, RuntimeErrorKind>(r->Ok_0@)) && (r is Err ==> spec_arith(
            TokenType::SLASH,
            val1_token@,
            val2_token@,
        ) == Err::<TokenView, RuntimeErrorKind>(r->Err_0.kind))),
{
    if !num_check(val1_token.token_type, val2_token.token_type) {
        return Err(error_of(RuntimeErrorKind::OperandsMustBeNumbers, val1_token.line_num));
    }
    arith_op(TokenType::SLASH, val1_token, val2_token)
}

/// The arithmetic dispatch for `+ - * /`: `+` concatenates two strings or
/// adds two numbers; the rest work on numbers alone.
pub fn eval_arithmetic_op(left: &Token, right: &Token, operator_type: TokenType) -> (r: Result<
    Token,
    RuntimeError,
>)
    requires
        operator_type == TokenType::PLUS || operator_type == TokenType::MINUS || operator_type
            == TokenType::STAR || operator_type == TokenType::SLASH,
    ensures
        operator_type == TokenType::PLUS ==> {
            &&& (left@.token_type == TokenType::STRING && right@.token_type == TokenType::STRING)
                ==> r is Ok && r->Ok_0@ == (TokenView {
                token_type: TokenType::STRING,
                lexeme: seq!['"'] + left@.literal + right@.literal + seq!['"'],
                literal: left@.literal + right@.literal,
                line_num: 0,
            })
            &&& (left@.token_type == TokenType::NUMBER && right@.token_type == TokenType::NUMBER)
                ==> ((r is Ok ==> spec_arith(TokenType::PLUS, left@, right@) == Ok::<
                TokenView,
                RuntimeErrorKind,
            >(r->Ok_0@)) && (r is Err ==> spec_arith(TokenType::PLUS, left@, right@) == Err::<
                TokenView,
                RuntimeErrorKind,
            >(r->Err_0.kind)))
            &&& !((left@.token_type == TokenType::STRING && right@.token_type == TokenType::STRING)
                || (left@.token_type == TokenType::NUMBER && right@.token_type
                == TokenType::NUMBER)) ==> r is Err && r->Err_0.kind
                == RuntimeErrorKind::OperandsMustBeTwoNumbersOrTwoStrings
        },
        operator_type != TokenType::PLUS ==> {
            &&& !(left@.token_type == TokenType::NUMBER && right@.token_type == TokenType::NUMBER)
                ==> r is Err && r->Err_0.kind == RuntimeErrorKind::OperandsMustBeNumbers
            &&& (left@.token_type == TokenType::NUMBER && right@.token_type == TokenType::NUMBER)
                ==> ((r is Ok ==> spec_arith(operator_type, left@, right@) == Ok::<
                TokenView,
                RuntimeErrorKind,
            >(r->Ok_0@)) && (r is Err ==> spec_arith(operator_type, left@, right@) == Err::<
                TokenView,
                RuntimeErrorKind,
            >(r->Err_0.kind)))
        },
{
    if operator_type == TokenType::PLUS {
        if left.token_type == TokenType::STRING && right.token_type == TokenType::STRING {
            Ok(concat_strings(left, right))
        } else if num_check(left.token_type, right.token_type) {
            crate::eval::add(left, right)
        } else {
            Err(error_of(RuntimeErrorKind::OperandsMustBeTwoNumbersOrTwoStrings, left.line_num))
        }
    } else if operator_type == TokenType::MINUS {
        subtract(left, right)
    } else if operator_type == TokenType::STAR {
        multiply(left, right)
    } else {
        divide(left, right)
    }
}

/// Compares two values: equality compares kind and surface text, never
/// coercing; the orderings work on numbers alone.
pub fn eval_comparison(left_token: &Token, right_token: &Token, operator_type: TokenType) -> (r:
    Result<Token, RuntimeError>)
    requires
        operator_type == TokenType::EQUAL_EQUAL || operator_type == TokenType::BANG_EQUAL
            || operator_type == TokenType::GREATER || operator_type == TokenType::GREATER_EQUAL
            || operator_type == TokenType::LESS || operator_type == TokenType::LESS_EQUAL,
    ensures
        operator_type == TokenType::EQUAL_EQUAL ==> r is Ok && r->Ok_0@ == bool_token(
            spec_values_equal(left_token@, right_token@),
            left_token@.line_num,
        ),
        operator_type == TokenType::BANG_EQUAL ==> r is Ok && r->Ok_0@ == bool_token(
            !spec_values_equal(left_token@, right_token@),
            left_token@.line_num,
        ),
        (operator_type == TokenType::GREATER || operator_type == TokenType::GREATER_EQUAL
            || operator_type == TokenType::LESS || operator_type == TokenType::LESS_EQUAL) ==> {
            &&& !(left_token@.token_type == TokenType::NUMBER && right_token@.token_type
                == TokenType::NUMBER) ==> r is Err && r->Err_0.kind
                == RuntimeErrorKind::OperandsMustBeNumbers
            &&& (left_token@.token_type == TokenType::NUMBER && right_token@.token_type
                == TokenType::NUMBER) ==> (match spec_order(operator_type, left_token@,
                right_token@,
            ) {
                Ok(b) => r is Ok && r->Ok_0@ == bool_token(b, left_token@.line_num),
                Err(k) => r is Err && r->Err_0.kind == k,
            })
        },
{
    let line = left_token.line_num;
    if operator_type == TokenType::EQUAL_EQUAL || operator_type == TokenType::BANG_EQUAL {
        let same = left_token.token_type == right_token.token_type && left_token.lexeme
            == right_token.lexeme;
        let b = if operator_type == TokenType::EQUAL_EQUAL {
            same
        } else {
            !same
        };
        return Ok(make_bool_token(b, line));
    }
    if !num_check(left_token.token_type, right_token.token_type) {
        return Err(error_of(RuntimeErrorKind::OperandsMustBeNumbers, line));
    }
    let x = match parse_num(left_token.literal.as_str()) {
        Some(v) => v,
        None => {
            return Err(error_of(RuntimeErrorKind::InvalidNumber, line));
        },
    };
    let y = match parse_num(right_token.literal.as_str()) {
        Some(v) => v,
        None => {
            return Err(error_of(RuntimeErrorKind::InvalidNumber, line));
        },
    };
    let b: bool = match num_cmp(&x, &y) {
        None => false,
        Some(c) => {
            if operator_type == TokenType::GREATER {
                c == Cmp::Gt
            } else if operator_type == TokenType::GREATER_EQUAL {
                c == Cmp::Gt || c == Cmp::Eq
            } else if operator_type == TokenType::LESS {
                c == Cmp::Lt
            } else {
                c == Cmp::Lt || c == Cmp::Eq
            }
        },
    };
    Ok(make_bool_token(b, line))
}

/// The value of an expression evaluated without an environment: identifier
/// tokens pass through untouched, statement and block forms are refused as
/// usage errors, and everything else folds over the tree.  This is the
/// ground truth for the expression-evaluation mode.
pub open spec fn spec_eval_pure(e: Expr) -> Result<TokenView, RuntimeErrorKind>
    decreases e,
{
    match e {
        Expr::Literal(t) => Ok(t@),
        Expr::Grouping(inner) => spec_eval_pure(*inner),
        Expr::Unary(op, v) => match spec_eval_pure(*v) {
            Err(k) => Err(k),
            Ok(rv) => {
                if op@.token_type == TokenType::MINUS {
                    if rv.token_type != TokenType::NUMBER {
                        Err(RuntimeErrorKind::OperandMustBeNumber)
                    } else {
                        Ok(
                            TokenView {
                                token_type: TokenType::NUMBER,
                                lexeme: spec_negate(rv.lexeme),
                                literal: spec_negate(rv.literal),
                                line_num: 0,
                            },
                        )
                    }
                } else if op@.token_type == TokenType::BANG {
                    match spec_truthy(rv) {
                        None => Err(RuntimeErrorKind::InvalidCondition),
                        Some(b) => Ok(bool_token(!b, 0)),
                    }
                } else {
                    Err(RuntimeErrorKind::InvalidOperator)
                }
            },
        },
        Expr::Binary(l, op, r) => match spec_eval_pure(*l) {
            Err(k) => Err(k),
            Ok(lv) => match spec_eval_pure(*r) {
                Err(k) => Err(k),
                Ok(rv) => spec_binary_op(lv, op@.token_type, rv),
            },
        },
        Expr::Logical(l, op, r) => match spec_eval_pure(*l) {
            Err(k) => Err(k),
            Ok(lv) => match spec_truthy(lv) {
                None => Err(RuntimeErrorKind::InvalidCondition),
                Some(b) => {
                    if op@.token_type == TokenType::OR {
                        if b {
                            Ok(lv)
                        } else {
                            spec_eval_pure(*r)
                        }
                    } else if op@.token_type == TokenType::AND {
                        if !b {
                            Ok(lv)
                        } else {
                            spec_eval_pure(*r)
                        }
                    } else {
                        Err(RuntimeErrorKind::InvalidOperator)
                    }
                },
            },
        },
        Expr::Stmt(_) => Err(RuntimeErrorKind::InvalidStatement),
        Expr::Scope(_) => Err(RuntimeErrorKind::InvalidStatement),
    }
}

/// One binary operation applied to two already-evaluated values.
pub open spec fn spec_binary_op(lv: TokenView, k: TokenType, rv: TokenView) -> Result<
    TokenView,
    RuntimeErrorKind,
> {
    if k == TokenType::PLUS {
        if lv.token_type == TokenType::STRING && rv.token_type == TokenType::STRING {
            Ok(
                TokenView {
                    token_type: TokenType::STRING,
                    lexeme: seq!['"'] + lv.literal + rv.literal + seq!['"'],
                    literal: lv.literal + rv.literal,
                    line_num: 0,
                },
            )
        } else if lv.token_type == TokenType::NUMBER && rv.token_type == TokenType::NUMBER {
            spec_arith(k, lv, rv)
        } else {
            Err(RuntimeErrorKind::OperandsMustBeTwoNumbersOrTwoStrings)
        }
    } else if k == TokenType::MINUS || k == TokenType::STAR || k == TokenType::SLASH {
        if lv.token_type == TokenType::NUMBER && rv.token_type == TokenType::NUMBER {
            spec_arith(k, lv, rv)
        } else {
            Err(RuntimeErrorKind::OperandsMustBeNumbers)
        }
    } else if k == TokenType::EQUAL_EQUAL {
        Ok(bool_token(spec_values_equal(lv, rv), lv.line_num))
    } else if k == TokenType::BANG_EQUAL {
        Ok(bool_token(!spec_values_equal(lv, rv), lv.line_num))
    } else if k == TokenType::GREATER || k == TokenType::GREATER_EQUAL || k == TokenType::LESS || k
        == TokenType::LESS_EQUAL {
        if lv.token_type == TokenType::NUMBER && rv.token_type == TokenType::NUMBER {
            match spec_order(k, lv, rv) {
                Ok(b) => Ok(bool_token(b, lv.line_num)),
                Err(kind) => Err(kind),
            }
        } else {
            Err(RuntimeErrorKind::OperandsMustBeNumbers)
        }
    } else {
        Err(RuntimeErrorKind::InvalidOperator)
    }
}

/// A short-circuiting disjunction whose left side is truthy has the left
/// value, whatever stands on the right; a conjunction whose left side is
/// falsy likewise.  The right side is never evaluated, so nothing in it —
/// a division by zero, an error — can matter.
pub proof fn lemma_short_circuit(l: Expr, op: Token, r1: Expr, r2: Expr)
    requires
        op@.token_type == TokenType::OR || op@.token_type == TokenType::AND,
        spec_eval_pure(l) is Ok,
        spec_truthy(spec_eval_pure(l)->Ok_0) == Some(op@.token_type == TokenType::OR),
    ensures
        spec_eval_pure(Expr::Logical(Box::new(l), op, Box::new(r1))) == spec_eval_pure(l),
        spec_eval_pure(Expr::Logical(Box::new(l), op, Box::new(r1))) == spec_eval_pure(
            Expr::Logical(Box::new(l), op, Box::new(r2)),
        ),
{
}


/// An expression that neither reads nor writes the environment: its leaves
/// are value literals — no identifier reference, no assignment, no
/// statement form, no block.
pub open spec fn env_free(e: Expr) -> bool
    decreases e,
{
    match e {
        Expr::Literal(t) => t@.token_type == TokenType::STRING || t@.token_type
            == TokenType::NUMBER || t@.token_type == TokenType::FALSE || t@.token_type
            == TokenType::TRUE || t@.token_type == TokenType::NIL,
        Expr::Grouping(inner) => env_free(*inner),
        Expr::Unary(_op, v) => env_free(*v),
        Expr::Binary(l, _op, r) => env_free(*l) && env_free(*r),
        Expr::Logical(l, _op, r) => env_free(*l) && env_free(*r),
        Expr::Stmt(_) => false,
        Expr::Scope(_) => false,
    }
}

/// The stateless evaluator: it carries no environment, passing identifier
/// tokens through unresolved.
pub struct Stateless;

impl Stateless {
    /// Evaluates an expression with no environment, exactly as
    /// `spec_eval_pure` says.
    pub fn evaluate(&mut self, expr: &Expr) -> (r: Result<Token, RuntimeError>)
        ensures
            r is Ok ==> spec_eval_pure(*expr) == Ok::<TokenView, RuntimeErrorKind>(r->Ok_0@),
            r is Err ==> spec_eval_pure(*expr) == Err::<TokenView, RuntimeErrorKind>(
                r->Err_0.kind,
            ),
        decreases *expr,
    {
        match expr {
            Expr::Literal(t) => Ok(t.clone()),
            Expr::Grouping(inner) => self.evaluate(inner),
            Expr::Unary(op, v) => {
                let rv = match self.evaluate(v) {
                    Ok(t) => t,
                    Err(e) => {
                        return Err(e);
                    },
                };
                if op.token_type == TokenType::MINUS {
                    negate_value(&rv)
                } else if op.token_type == TokenType::BANG {
                    match get_bool(&rv) {
                        Ok(b) => Ok(make_bool_token(!b, 0)),
                        Err(e) => Err(e),
                    }
                } else {
                    Err(error_of(RuntimeErrorKind::InvalidOperator, op.line_num))
                }
            },
            Expr::Binary(l, op, r2) => {
                let lv = match self.evaluate(l) {
                    Ok(t) => t,
                    Err(e) => {
                        return Err(e);
                    },
                };
                let rv = match self.evaluate(r2) {
                    Ok(t) => t,
                    Err(e) => {
                        return Err(e);
                    },
                };
                let k = op.token_type;
                if k == TokenType::PLUS || k == TokenType::MINUS || k == TokenType::STAR || k
                    == TokenType::SLASH {
                    eval_arithmetic_op(&lv, &rv, k)
                } else if k == TokenType::EQUAL_EQUAL || k == TokenType::BANG_EQUAL || k
                    == TokenType::GREATER || k == TokenType::GREATER_EQUAL || k == TokenType::LESS
                    || k == TokenType::LESS_EQUAL {
                    eval_comparison(&lv, &rv, k)
                } else {
                    Err(error_of(RuntimeErrorKind::InvalidOperator, op.line_num))
                }
            },
            Expr::Logical(l, op, r2) => {
                let lv = match self.evaluate(l) {
                    Ok(t) => t,
                    Err(e) => {
                        return Err(e);
                    },
                };
                let b = match get_bool(&lv) {
                    Ok(b) => b,
                    Err(e) => {
                        return Err(e);
                    },
                };
                if op.token_type == TokenType::OR {
                    if b {
                        Ok(lv)
                    } else {
                        self.evaluate(r2)
                    }
                } else if op.token_type == TokenType::AND {
                    if !b {
                        Ok(lv)
                    } else {
                        self.evaluate(r2)
                    }
                } else {
                    Err(error_of(RuntimeErrorKind::InvalidOperator, op.line_num))
                }
            },
            Expr::Stmt(_) => Err(error_of(RuntimeErrorKind::InvalidStatement, 0)),
            Expr::Scope(_) => Err(error_of(RuntimeErrorKind::InvalidStatement, 0)),
        }
    }
}

/// Builds the boolean result token.
pub fn make_bool_token(b: bool, line: u32) -> (r: Token)
    ensures
        r@ == bool_token(b, line),
{
    if b {
        Token::new(TokenType::TRUE, String::from_str("true"), String::from_str("null"), line)
    } else {
        Token::new(TokenType::FALSE, String::from_str("false"), String::from_str("null"), line)
    }
}

} // verus!
