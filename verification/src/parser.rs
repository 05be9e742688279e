//! Recursive-descent parsing with precedence climbing: turns the token
//! sequence into a statement tree, enforcing the grammar's constraints —
//! balanced delimiters, parenthesized conditions, identifier-only
//! assignment targets, required terminators.  The first structural error
//! aborts the parse and names the offending line and lexeme.
use vstd::prelude::*;
use vstd::string::*;

use crate::ast::Conditional;
use crate::ast::Expr;
use crate::ast::Statement;
use crate::ast::is_true_literal;
use crate::token::Token;
use crate::token::TokenType;

verus! {

/// Why a parse was aborted.
#[derive(Debug, Clone, Copy, PartialEq, Eq, Structural)]
pub enum ParseErrorKind {
    MissingSemicolon,
    MissingRightParen,
    MissingRightBrace,
    CannotAssignToNonIdentifier,
    ExpectedParenthesizedCondition,
    UnexpectedToken,
    ExpectedForClauses,
    ExpectedLoopCondition,
    InvalidLoopCondition,
    ExpectedIdentifier,
}

/// A syntax diagnostic: the failure kind, with the line number and the
/// surface text of the token at the failure point.
#[derive(Debug)]
pub struct ParseError {
    pub kind: ParseErrorKind,
    pub line: u32,
    pub lexeme: String,
}

/// The structural invariant of a parsed expression: literals carry value
/// or identifier tokens, operators carry their own kinds, assignment
/// targets and declared names are identifiers, and every `if`/`while`
/// condition is parenthesized (or the synthesized `true` of a trailing
/// `else`).
pub open spec fn wf_expr(e: Expr) -> bool
    decreases e,
{
    match e {
        Expr::Binary(l, op, r) => (op@.token_type == TokenType::PLUS || op@.token_type
            == TokenType::MINUS || op@.token_type == TokenType::STAR || op@.token_type
            == TokenType::SLASH || op@.token_type == TokenType::EQUAL_EQUAL || op@.token_type
            == TokenType::BANG_EQUAL || op@.token_type == TokenType::GREATER || op@.token_type
            == TokenType::GREATER_EQUAL || op@.token_type == TokenType::LESS || op@.token_type
            == TokenType::LESS_EQUAL) && wf_expr(*l) && wf_expr(*r),
        Expr::Grouping(inner) => wf_expr(*inner),
        Expr::Literal(t) => t@.token_type == TokenType::FALSE || t@.token_type == TokenType::TRUE
            || t@.token_type == TokenType::NIL || t@.token_type == TokenType::STRING
            || t@.token_type == TokenType::NUMBER || t@.token_type == TokenType::IDENTIFIER,
        Expr::Unary(op, v) => (op@.token_type == TokenType::BANG || op@.token_type
            == TokenType::MINUS) && wf_expr(*v),
        Expr::Logical(l, op, r) => (op@.token_type == TokenType::AND || op@.token_type
            == TokenType::OR) && wf_expr(*l) && wf_expr(*r),
        Expr::Stmt(st) => wf_stmt(st),
        Expr::Scope(es) => wf_exprs(es@),
    }
}

pub open spec fn wf_exprs(es: Seq<Expr>) -> bool
    decreases es,
{
    if es.len() == 0 {
        true
    } else {
        wf_expr(es[0]) && wf_exprs(es.drop_first())
    }
}

pub open spec fn wf_stmt(st: Statement) -> bool
    decreases st,
{
    match st {
        Statement::PrintStmt(e) => wf_expr(*e),
        Statement::DeclarationStmt(name, value) => name@.token_type == TokenType::IDENTIFIER
            && match value {
            Some(v) => wf_expr(*v),
            None => true,
        },
        Statement::AssignmentStmt(name, value) => name@.token_type == TokenType::IDENTIFIER
            && wf_expr(*value),
        Statement::IfStmt(conds) => conds.len() >= 1 && wf_conds(conds@),
        Statement::WhileStmt(c) => (*c.0) is Grouping && wf_expr(*c.0) && wf_expr(*c.1),
        Statement::ForStmt(init, condition, update, body) => (match init {
            Some(e) => wf_expr(*e),
            None => true,
        }) && wf_expr(*condition) && (match update {
            Some(e) => wf_expr(*e),
            None => true,
        }) && wf_expr(*body),
    }
}

/// Each branch of an `if` chain: a parenthesized condition, or the
/// synthesized `true` of the trailing `else`.
pub open spec fn wf_conds(cs: Seq<Conditional>) -> bool
    decreases cs,
{
    if cs.len() == 0 {
        true
    } else {
        ((*cs[0].0) is Grouping || is_true_literal(*cs[0].0)) && wf_expr(*cs[0].0) && wf_expr(
            *cs[0].1,
        ) && wf_conds(cs.drop_first())
    }
}

/// A token that alone forms a complete primary expression: a value
/// literal or an identifier.
pub open spec fn literal_start(t: crate::token::TokenView) -> bool {
    ||| t.token_type == TokenType::FALSE
    ||| t.token_type == TokenType::TRUE
    ||| t.token_type == TokenType::NIL
    ||| t.token_type == TokenType::STRING
    ||| t.token_type == TokenType::NUMBER
    ||| t.token_type == TokenType::IDENTIFIER
}


/// The tree shapes the grammar's productions yield, one predicate per
/// precedence level.  Each level accepts its own node — whose left operand
/// comes from the same level and whose right operand from the next tighter
/// one — or anything the tighter level accepts.  So `1 + 2 * 3` groups the
/// product, `1 - 2 - 3` leans left, and only assignment nests to the
/// right.  A tree a wrong-precedence parser would build fails these.
pub open spec fn primary_shape(e: Expr) -> bool
    decreases e, 0int,
{
    match e {
        Expr::Literal(t) => literal_start(t@),
        Expr::Grouping(inner) => assign_shape(*inner),
        Expr::Scope(es) => unit_shapes(es@),
        Expr::Stmt(st) => match st {
            Statement::PrintStmt(p) => assign_shape(*p),
            Statement::DeclarationStmt(name, value) => name@.token_type == TokenType::IDENTIFIER
                && (match value {
                Some(v) => assign_shape(*v),
                None => true,
            }),
            Statement::IfStmt(cs) => cs@.len() >= 1 && cond_shapes(cs@),
            Statement::WhileStmt(c) => (*c.0) is Grouping && primary_shape(*c.0) && assign_shape(
                *c.1,
            ),
            Statement::ForStmt(init, condition, update, body) => (match init {
                Some(v) => assign_shape(*v),
                None => true,
            }) && assign_shape(*condition) && (match update {
                Some(v) => assign_shape(*v),
                None => true,
            }) && assign_shape(*body),
            Statement::AssignmentStmt(_, _) => false,
        },
        _ => false,
    }
}

pub open spec fn unary_shape(e: Expr) -> bool
    decreases e, 1int,
{
    ||| (e matches Expr::Unary(op, v) && (op@.token_type == TokenType::BANG || op@.token_type
        == TokenType::MINUS) && unary_shape(*v))
    ||| primary_shape(e)
}

pub open spec fn mul_shape(e: Expr) -> bool
    decreases e, 2int,
{
    ||| (e matches Expr::Binary(l, op, r) && (op@.token_type == TokenType::STAR || op@.token_type
        == TokenType::SLASH) && mul_shape(*l) && unary_shape(*r))
    ||| unary_shape(e)
}

pub open spec fn add_shape(e: Expr) -> bool
    decreases e, 3int,
{
    ||| (e matches Expr::Binary(l, op, r) && (op@.token_type == TokenType::PLUS || op@.token_type
        == TokenType::MINUS) && add_shape(*l) && mul_shape(*r))
    ||| mul_shape(e)
}

pub open spec fn cmp_shape(e: Expr) -> bool
    decreases e, 4int,
{
    ||| (e matches Expr::Binary(l, op, r) && (op@.token_type == TokenType::GREATER
        || op@.token_type == TokenType::GREATER_EQUAL || op@.token_type == TokenType::LESS
        || op@.token_type == TokenType::LESS_EQUAL) && cmp_shape(*l) && add_shape(*r))
    ||| add_shape(e)
}

pub open spec fn eq_shape(e: Expr) -> bool
    decreases e, 5int,
{
    ||| (e matches Expr::Binary(l, op, r) && (op@.token_type == TokenType::BANG_EQUAL
        || op@.token_type == TokenType::EQUAL_EQUAL) && eq_shape(*l) && cmp_shape(*r))
    ||| cmp_shape(e)
}

pub open spec fn and_shape(e: Expr) -> bool
    decreases e, 6int,
{
    ||| (e matches Expr::Logical(l, op, r) && op@.token_type == TokenType::AND && and_shape(*l)
        && eq_shape(*r))
    ||| eq_shape(e)
}

pub open spec fn or_shape(e: Expr) -> bool
    decreases e, 7int,
{
    ||| (e matches Expr::Logical(l, op, r) && op@.token_type == TokenType::OR && or_shape(*l)
        && and_shape(*r))
    ||| and_shape(e)
}

pub open spec fn assign_shape(e: Expr) -> bool
    decreases e, 8int,
{
    ||| (e matches Expr::Stmt(Statement::AssignmentStmt(name, value)) && name@.token_type
        == TokenType::IDENTIFIER && assign_shape(*value))
    ||| or_shape(e)
}

/// Every unit of a block is a full expression.
pub open spec fn unit_shapes(es: Seq<Expr>) -> bool
    decreases es, 9int,
{
    if es.len() == 0 {
        true
    } else {
        assign_shape(es[0]) && unit_shapes(es.drop_first())
    }
}

/// Every branch of an `if` chain pairs a parenthesized condition (or the
/// synthesized trailing `true`) with a full-expression body.
pub open spec fn cond_shapes(cs: Seq<Conditional>) -> bool
    decreases cs, 9int,
{
    if cs.len() == 0 {
        true
    } else {
        ((*cs[0].0) is Grouping || is_true_literal(*cs[0].0)) && primary_shape(*cs[0].0)
            && assign_shape(*cs[0].1) && cond_shapes(cs.drop_first())
    }
}

proof fn lemma_unit_shapes_push(es: Seq<Expr>, e: Expr)
    requires
        unit_shapes(es),
        assign_shape(e),
    ensures
        unit_shapes(es.push(e)),
    decreases es,
{
    if es.len() == 0 {
        assert(es.push(e)[0] == e);
        assert(es.push(e).drop_first().len() == 0);
        assert(unit_shapes(es.push(e).drop_first()));
    } else {
        lemma_unit_shapes_push(es.drop_first(), e);
        assert(es.push(e).drop_first() =~= es.drop_first().push(e));
        assert(unit_shapes(es.push(e).drop_first()));
        assert(es.push(e)[0] == es[0]);
    }
}

proof fn lemma_cond_shapes_push(cs: Seq<Conditional>, c: Conditional)
    requires
        cond_shapes(cs),
        (*c.0) is Grouping || is_true_literal(*c.0),
        primary_shape(*c.0),
        assign_shape(*c.1),
    ensures
        cond_shapes(cs.push(c)),
    decreases cs,
{
    if cs.len() == 0 {
        assert(cs.push(c)[0] == c);
        assert(cs.push(c).drop_first().len() == 0);
        assert(cond_shapes(cs.push(c).drop_first()));
    } else {
        lemma_cond_shapes_push(cs.drop_first(), c);
        assert(cs.push(c).drop_first() =~= cs.drop_first().push(c));
        assert(cond_shapes(cs.push(c).drop_first()));
        assert(cs.push(c)[0] == cs[0]);
    }
}

/// The shape of one consumed token.  A keyword or delimiter is determined
/// by its kind alone; a value, identifier or operator token keeps its
/// surface text and decoded literal.  Source lines are left out: the
/// synthesized `true` of a trailing `else` has no source position.
pub type TokenShape = (TokenType, Option<(Seq<char>, Seq<char>)>);

/// The kinds whose tokens carry no information beyond the kind itself.
pub open spec fn structural_kind(k: TokenType) -> bool {
    ||| k == TokenType::LEFT_PAREN
    ||| k == TokenType::RIGHT_PAREN
    ||| k == TokenType::LEFT_BRACE
    ||| k == TokenType::RIGHT_BRACE
    ||| k == TokenType::SEMICOLON
    ||| k == TokenType::EQUAL
    ||| k == TokenType::PRINT
    ||| k == TokenType::VAR
    ||| k == TokenType::IF
    ||| k == TokenType::ELSE
    ||| k == TokenType::WHILE
    ||| k == TokenType::FOR
}

pub open spec fn tok_sig(t: crate::token::TokenView) -> TokenShape {
    if structural_kind(t.token_type) {
        (t.token_type, None)
    } else {
        (t.token_type, Some((t.lexeme, t.literal)))
    }
}

/// The shape of a bare keyword or delimiter token.
pub open spec fn kw_sig(k: TokenType) -> TokenShape {
    (k, None)
}

/// Whether a parsed unit terminates itself, needing no semicolon.
pub open spec fn self_terminating(e: Expr) -> bool {
    match e {
        Expr::Scope(_) => true,
        Expr::Stmt(st) => match st {
            Statement::IfStmt(_) => true,
            Statement::WhileStmt(_) => true,
            Statement::ForStmt(..) => true,
            _ => false,
        },
        _ => false,
    }
}

/// The token shapes an expression was parsed from, in source order: the
/// tree determines exactly the text it came from.
pub open spec fn expr_sigs(e: Expr) -> Seq<TokenShape>
    decreases e, 0int,
{
    match e {
        Expr::Literal(t) => seq![tok_sig(t@)],
        Expr::Unary(op, v) => seq![tok_sig(op@)] + expr_sigs(*v),
        Expr::Binary(l, op, r) => expr_sigs(*l) + seq![tok_sig(op@)] + expr_sigs(*r),
        Expr::Logical(l, op, r) => expr_sigs(*l) + seq![tok_sig(op@)] + expr_sigs(*r),
        Expr::Grouping(inner) => seq![kw_sig(TokenType::LEFT_PAREN)] + expr_sigs(*inner)
            + seq![kw_sig(TokenType::RIGHT_PAREN)],
        Expr::Stmt(st) => stmt_sigs(st),
        Expr::Scope(es) => seq![kw_sig(TokenType::LEFT_BRACE)] + block_sigs(es@) + seq![
            kw_sig(TokenType::RIGHT_BRACE),
        ],
    }
}

/// The token shapes of one statement-level unit: the expression, and its
/// terminating semicolon unless the form terminates itself.
pub open spec fn unit_sigs(e: Expr) -> Seq<TokenShape>
    decreases e, 1int,
{
    if self_terminating(e) {
        expr_sigs(e)
    } else {
        expr_sigs(e) + seq![kw_sig(TokenType::SEMICOLON)]
    }
}

/// The token shapes of a block's units, in order.
pub open spec fn block_sigs(es: Seq<Expr>) -> Seq<TokenShape>
    decreases es, 0int,
{
    if es.len() == 0 {
        Seq::empty()
    } else {
        unit_sigs(es[0]) + block_sigs(es.drop_first())
    }
}

/// The token shapes a statement was parsed from.
pub open spec fn stmt_sigs(st: Statement) -> Seq<TokenShape>
    decreases st, 0int,
{
    match st {
        Statement::PrintStmt(e) => seq![kw_sig(TokenType::PRINT)] + expr_sigs(*e),
        Statement::DeclarationStmt(name, value) => seq![
            kw_sig(TokenType::VAR),
            tok_sig(name@),
        ] + (match value {
            Some(v) => seq![kw_sig(TokenType::EQUAL)] + expr_sigs(*v),
            None => Seq::empty(),
        }),
        Statement::AssignmentStmt(name, value) => seq![
            tok_sig(name@),
            kw_sig(TokenType::EQUAL),
        ] + expr_sigs(*value),
        Statement::IfStmt(conds) => if conds.len() == 0 {
            seq![kw_sig(TokenType::IF)]
        } else {
            seq![kw_sig(TokenType::IF)] + cond_sigs(conds@[0]) + if_tail_sigs(
                conds@.drop_first(),
            )
        },
        Statement::WhileStmt(c) => seq![kw_sig(TokenType::WHILE)] + cond_sigs(c),
        Statement::ForStmt(init, condition, update, body) => seq![
            kw_sig(TokenType::FOR),
            kw_sig(TokenType::LEFT_PAREN),
        ] + (match init {
            Some(e) => expr_sigs(*e),
            None => Seq::empty(),
        }) + seq![kw_sig(TokenType::SEMICOLON)] + expr_sigs(*condition) + seq![
            kw_sig(TokenType::SEMICOLON),
        ] + (match update {
            Some(e) => expr_sigs(*e),
            None => Seq::empty(),
        }) + seq![kw_sig(TokenType::RIGHT_PAREN)] + unit_sigs(*body),
    }
}

/// The token shapes of one conditional: its parenthesized condition and its
/// body unit.
pub open spec fn cond_sigs(c: Conditional) -> Seq<TokenShape>
    decreases c, 0int,
{
    expr_sigs(*c.0) + unit_sigs(*c.1)
}

/// The token shapes of the branches after an `if` chain's first
/// conditional: each `else if` conditional in turn, and the body of a bare
/// trailing `else`, whose synthesized `true` condition came from no token.
pub open spec fn if_tail_sigs(cs: Seq<Conditional>) -> Seq<TokenShape>
    decreases cs, 0int,
{
    if cs.len() == 0 {
        Seq::empty()
    } else if is_true_literal(*cs[0].0) {
        seq![kw_sig(TokenType::ELSE)] + unit_sigs(*cs[0].1)
    } else {
        seq![kw_sig(TokenType::ELSE), kw_sig(TokenType::IF)] + cond_sigs(cs[0])
            + if_tail_sigs(cs.drop_first())
    }
}

pub open spec fn opt_sigs(o: Option<Box<Expr>>) -> Seq<TokenShape> {
    match o {
        Some(e) => expr_sigs(*e),
        None => Seq::empty(),
    }
}

/// The shapes of the tokens between two cursor positions.
pub open spec fn sigs_of(ts: Seq<Token>, a: int, b: int) -> Seq<TokenShape> {
    ts.subrange(a, b).map_values(|t: Token| tok_sig(t@))
}


/// The shapes of a stretch of token views, for stating the parser's
/// consumption against the lexer's output directly.
pub open spec fn view_sigs(ts: Seq<crate::token::TokenView>, a: int, b: int) -> Seq<TokenShape> {
    ts.subrange(a, b).map_values(|t: crate::token::TokenView| tok_sig(t))
}

/// Token shapes and token-view shapes agree.
pub proof fn lemma_sigs_views(ts: Seq<Token>, a: int, b: int)
    requires
        0 <= a <= b <= ts.len(),
    ensures
        sigs_of(ts, a, b) == view_sigs(crate::lexer::views_of(ts), a, b),
{
    assert(sigs_of(ts, a, b) =~= view_sigs(crate::lexer::views_of(ts), a, b));
}

proof fn lemma_sigs_concat(ts: Seq<Token>, a: int, b: int, c: int)
    requires
        0 <= a <= b <= c <= ts.len(),
    ensures
        sigs_of(ts, a, c) =~= sigs_of(ts, a, b) + sigs_of(ts, b, c),
{
}

proof fn lemma_sigs_single(ts: Seq<Token>, a: int)
    requires
        0 <= a < ts.len(),
    ensures
        sigs_of(ts, a, a + 1) =~= seq![tok_sig(ts[a]@)],
{
}

proof fn lemma_sigs_empty(ts: Seq<Token>, a: int)
    requires
        0 <= a <= ts.len(),
    ensures
        sigs_of(ts, a, a) =~= Seq::<TokenShape>::empty(),
{
}

pub struct Parser {
    pub tokens: Vec<Token>,
    pub current: usize,
}

impl Parser {
    /// The cursor stands on a token, and the sequence ends with the
    /// end-of-input token, so every lookahead is answered.
    pub open spec fn wf(&self) -> bool {
        &&& self.tokens.len() > 0
        &&& self.tokens@[self.tokens@.len() - 1]@.token_type == TokenType::EOF
        &&& self.current < self.tokens.len()
    }

    pub open spec fn pos(&self) -> int {
        self.current as int
    }

    pub fn new(tokens: Vec<Token>) -> (r: Self)
        ensures
            r.tokens == tokens,
            r.pos() == 0,
            tokens@.len() > 0 && tokens@[tokens@.len() - 1]@.token_type == TokenType::EOF
                ==> r.wf(),
    {
        Parser { tokens, current: 0 }
    }

    fn curr_matches_type(&self, t_type: TokenType) -> (r: bool)
        requires
            self.wf(),
        ensures
            r == (self.tokens@[self.pos()]@.token_type == t_type),
    {
        self.tokens[self.current].token_type == t_type
    }

    /// The diagnostic for the token under the cursor: it names that
    /// token's line and surface text.
    fn error_here(&self, kind: ParseErrorKind) -> (r: ParseError)
        requires
            self.wf(),
        ensures
            r.kind == kind,
            r.line == self.tokens@[self.pos()]@.line_num,
            r.lexeme@ == self.tokens@[self.pos()]@.lexeme,
    {
        ParseError {
            kind,
            line: self.tokens[self.current].line_num,
            lexeme: self.tokens[self.current].lexeme.clone(),
        }
    }

    /// Parses the whole token sequence into the top-level statement list;
    /// stops early at a stray closing brace, as the block parser consumes
    /// the brace of its own scope.
    pub fn parse(&mut self) -> (r: Result<Vec<Expr>, ParseError>)
        requires
            old(self).wf(),
        ensures
            final(self).wf(),
            final(self).tokens == old(self).tokens,
            r is Ok ==> wf_exprs(r->Ok_0@),
            r is Ok ==> unit_shapes(r->Ok_0@),
            r is Ok ==> sigs_of(old(self).tokens@, old(self).pos(), final(self).pos())
                == block_sigs(r->Ok_0@),
            r is Ok ==> final(self).tokens@[final(self).pos()]@.token_type == TokenType::EOF
                || final(self).tokens@[final(self).pos()]@.token_type == TokenType::RIGHT_BRACE,
            (old(self).pos() == 0 && old(self).tokens@.len() == 3 && literal_start(
                old(self).tokens@[0]@,
            ) && old(self).tokens@[1]@.token_type == TokenType::SEMICOLON) ==> r is Ok
                && r->Ok_0@.len() == 1,
            r is Err ==> r->Err_0.lexeme@ == old(self).tokens@[final(self).pos()]@.lexeme
                && r->Err_0.line == old(self).tokens@[final(self).pos()]@.line_num,
    {
        let mut expressions: Vec<Expr> = Vec::new();
        proof {
            assert(wf_exprs(expressions@));
            lemma_sigs_empty(old(self).tokens@, old(self).pos());
            assert(block_sigs(expressions@) =~= Seq::<TokenShape>::empty());
        }
        loop
            invariant
                self.wf(),
                self.tokens == old(self).tokens,
                old(self).pos() <= self.pos(),
                wf_exprs(expressions@),
                unit_shapes(expressions@),
                sigs_of(old(self).tokens@, old(self).pos(), self.pos()) == block_sigs(
                    expressions@,
                ),
                (old(self).pos() == 0 && old(self).tokens@.len() == 3 && literal_start(
                    old(self).tokens@[0]@,
                ) && old(self).tokens@[1]@.token_type == TokenType::SEMICOLON) ==> ((self.pos()
                    == 0 && expressions@.len() == 0) || (self.pos() == 2 && expressions@.len()
                    == 1)),
            decreases self.tokens@.len() - self.current,
        {
            if self.curr_matches_type(TokenType::EOF) {
                return Ok(expressions);
            }
            if self.curr_matches_type(TokenType::RIGHT_BRACE) {
                return Ok(expressions);
            }
            let ghost before = expressions@;
            let ghost p_mid = self.pos();
            let expr = match self.parse_expression() {
                Ok(e) => e,
                Err(e) => {
                    return Err(e);
                },
            };
            let ghost ge = expr;
            expressions.push(expr);
            proof {
                let ts = old(self).tokens@;
                let p0 = old(self).pos();
                lemma_wf_exprs_push(before, expressions@[expressions@.len() - 1]);
                lemma_unit_shapes_push(before, ge);
                lemma_block_sigs_push(before, ge);
                lemma_sigs_concat(ts, p0, p_mid, self.pos());
                assert(sigs_of(ts, p_mid, self.pos()) == unit_sigs(ge));
                assert(expressions@ =~= before.push(ge));
                assert(block_sigs(expressions@) =~= block_sigs(before) + unit_sigs(ge));
                assert(sigs_of(ts, p0, self.pos()) =~= block_sigs(expressions@));
            }
        }
    }

    /// Parses one statement-level unit: an expression, which must be
    /// terminated by a semicolon unless it is a self-terminating block,
    /// `if`, `while` or `for` form.
    pub fn parse_expression(&mut self) -> (r: Result<Expr, ParseError>)
        requires
            old(self).wf(),
        ensures
            final(self).wf(),
            final(self).tokens == old(self).tokens,
            old(self).pos() <= final(self).pos(),
            r is Ok ==> old(self).pos() < final(self).pos() && wf_expr(r->Ok_0),
            r is Ok ==> sigs_of(old(self).tokens@, old(self).pos(), final(self).pos())
                == unit_sigs(r->Ok_0),
            r is Err ==> r->Err_0.lexeme@ == old(self).tokens@[final(self).pos()]@.lexeme
                && r->Err_0.line == old(self).tokens@[final(self).pos()]@.line_num,
            (literal_start(old(self).tokens@[old(self).pos()]@)
                && old(self).tokens@[old(self).pos() + 1]@.token_type == TokenType::SEMICOLON)
                ==> r is Ok && final(self).pos() == old(self).pos() + 2,
            r is Ok ==> assign_shape(r->Ok_0),
        decreases old(self).tokens@.len() - old(self).pos(), 12int,
    {
        let expr = match self.parse_assignment() {
            Ok(e) => e,
            Err(e) => {
                return Err(e);
            },
        };
        let self_terminating: bool = match &expr {
            Expr::Scope(_) => true,
            Expr::Stmt(Statement::IfStmt(_)) => true,
            Expr::Stmt(Statement::ForStmt(..)) => true,
            Expr::Stmt(Statement::WhileStmt(_)) => true,
            _ => false,
        };
        if self_terminating {
            proof {
                assert(unit_sigs(expr) == expr_sigs(expr));
            }
            return Ok(expr);
        }
        if !self.curr_matches_type(TokenType::SEMICOLON) {
            return Err(self.error_here(ParseErrorKind::MissingSemicolon));
        }
        let ghost p_semi = self.pos();
        self.current = self.current + 1;
        proof {
            lemma_sigs_single(old(self).tokens@, p_semi);
            lemma_sigs_concat(old(self).tokens@, old(self).pos(), p_semi, p_semi + 1);
            assert(sigs_of(old(self).tokens@, old(self).pos(), self.pos()) =~= unit_sigs(expr));
        }
        Ok(expr)
    }

    /// Parses an assignment: a disjunction, then `=` and a value when the
    /// left side reduced to a bare identifier; any other target is
    /// rejected.
    pub fn parse_assignment(&mut self) -> (r: Result<Expr, ParseError>)
        requires
            old(self).wf(),
        ensures
            final(self).wf(),
            final(self).tokens == old(self).tokens,
            old(self).pos() <= final(self).pos(),
            r is Ok ==> old(self).pos() < final(self).pos() && wf_expr(r->Ok_0),
            r is Ok ==> sigs_of(old(self).tokens@, old(self).pos(), final(self).pos())
                == expr_sigs(r->Ok_0),
            r is Err ==> r->Err_0.lexeme@ == old(self).tokens@[final(self).pos()]@.lexeme
                && r->Err_0.line == old(self).tokens@[final(self).pos()]@.line_num,
            (literal_start(old(self).tokens@[old(self).pos()]@)
                && (old(self).tokens@[old(self).pos() + 1]@.token_type == TokenType::SEMICOLON
                || old(self).tokens@[old(self).pos() + 1]@.token_type == TokenType::EOF))
                ==> r is Ok && final(self).pos() == old(self).pos() + 1 && r->Ok_0 is Literal,
            r is Ok ==> final(self).tokens@[final(self).pos()]@.token_type != TokenType::EQUAL,
            r is Ok ==> assign_shape(r->Ok_0),
        decreases old(self).tokens@.len() - old(self).pos(), 11int,
    {
        let mut expr = match self.parse_or() {
            Ok(e) => e,
            Err(e) => {
                return Err(e);
            },
        };
        while self.curr_matches_type(TokenType::EQUAL)
            invariant
                self.wf(),
                self.tokens == old(self).tokens,
                old(self).pos() < self.pos(),
                wf_expr(expr),
                assign_shape(expr),
                sigs_of(old(self).tokens@, old(self).pos(), self.pos()) == expr_sigs(expr),
                (literal_start(old(self).tokens@[old(self).pos()]@)
                    && (old(self).tokens@[old(self).pos() + 1]@.token_type == TokenType::SEMICOLON
                    || old(self).tokens@[old(self).pos() + 1]@.token_type == TokenType::EOF))
                    ==> self.pos() == old(self).pos() + 1 && expr is Literal,
            decreases self.tokens@.len() - self.current,
        {
            let ghost p_eq = self.pos();
            match expr {
                Expr::Literal(token) => {
                    if token.token_type != TokenType::IDENTIFIER {
                        return Err(self.error_here(ParseErrorKind::CannotAssignToNonIdentifier));
                    }
                    self.current = self.current + 1;
                    let value = match self.parse_assignment() {
                        Ok(e) => e,
                        Err(e) => {
                            return Err(e);
                        },
                    };
                    let ghost gt = token@;
                    let ghost gv = value;
                    expr = Expr::Stmt(Statement::AssignmentStmt(token, Box::new(value)));
                    proof {
                        let ts = old(self).tokens@;
                        let p0 = old(self).pos();
                        lemma_sigs_single(ts, p_eq);
                        lemma_sigs_concat(ts, p0, p_eq, p_eq + 1);
                        lemma_sigs_concat(ts, p0, p_eq + 1, self.pos());
                        assert(tok_sig(ts[p_eq]@) == kw_sig(TokenType::EQUAL));
                        assert(sigs_of(ts, p0, p_eq) == seq![tok_sig(gt)]);
                        assert(sigs_of(ts, p_eq + 1, self.pos()) == expr_sigs(gv));
                        assert(expr_sigs(expr) == stmt_sigs(expr->Stmt_0));
                        assert(stmt_sigs(expr->Stmt_0) =~= seq![tok_sig(gt), kw_sig(
                            TokenType::EQUAL,
                        )] + expr_sigs(gv));
                        assert(sigs_of(ts, p0, self.pos()) =~= expr_sigs(expr));
                        assert(wf_stmt(expr->Stmt_0));
                        assert(wf_expr(expr));
                    }
                },
                _ => {
                    return Err(self.error_here(ParseErrorKind::CannotAssignToNonIdentifier));
                },
            }
        }
        Ok(expr)
    }

    fn parse_or(&mut self) -> (r: Result<Expr, ParseError>)
        requires
            old(self).wf(),
        ensures
            final(self).wf(),
            final(self).tokens == old(self).tokens,
            old(self).pos() <= final(self).pos(),
            r is Ok ==> old(self).pos() < final(self).pos() && wf_expr(r->Ok_0),
            r is Ok ==> sigs_of(old(self).tokens@, old(self).pos(), final(self).pos())
                == expr_sigs(r->Ok_0),
            r is Err ==> r->Err_0.lexeme@ == old(self).tokens@[final(self).pos()]@.lexeme
                && r->Err_0.line == old(self).tokens@[final(self).pos()]@.line_num,
            (literal_start(old(self).tokens@[old(self).pos()]@)
                && (old(self).tokens@[old(self).pos() + 1]@.token_type == TokenType::SEMICOLON
                || old(self).tokens@[old(self).pos() + 1]@.token_type == TokenType::EOF))
                ==> r is Ok && final(self).pos() == old(self).pos() + 1 && r->Ok_0 is Literal,
            r is Ok ==> final(self).tokens@[final(self).pos()]@.token_type != TokenType::OR,
            r is Ok ==> or_shape(r->Ok_0),
        decreases old(self).tokens@.len() - old(self).pos(), 10int,
    {
        let mut expr = match self.parse_and() {
            Ok(e) => e,
            Err(e) => {
                return Err(e);
            },
        };
        while self.curr_matches_type(TokenType::OR)
            invariant
                self.wf(),
                self.tokens == old(self).tokens,
                old(self).pos() < self.pos(),
                wf_expr(expr),
                or_shape(expr),
                sigs_of(old(self).tokens@, old(self).pos(), self.pos()) == expr_sigs(expr),
                (literal_start(old(self).tokens@[old(self).pos()]@)
                    && (old(self).tokens@[old(self).pos() + 1]@.token_type == TokenType::SEMICOLON
                    || old(self).tokens@[old(self).pos() + 1]@.token_type == TokenType::EOF))
                    ==> self.pos() == old(self).pos() + 1 && expr is Literal,
            decreases self.tokens@.len() - self.current,
        {
            let ghost p_op = self.pos();
            let operator = self.tokens[self.current].clone();
            self.current = self.current + 1;
            let right = match self.parse_and() {
                Ok(e) => e,
                Err(e) => {
                    return Err(e);
                },
            };
            expr = Expr::Logical(Box::new(expr), operator, Box::new(right));
            proof {
                lemma_sigs_single(old(self).tokens@, p_op);
                lemma_sigs_concat(old(self).tokens@, old(self).pos(), p_op, p_op + 1);
                lemma_sigs_concat(old(self).tokens@, old(self).pos(), p_op + 1, self.pos());
                assert(sigs_of(old(self).tokens@, old(self).pos(), self.pos()) =~= expr_sigs(
                    expr,
                ));
                assert(wf_expr(expr));
            }
        }
        Ok(expr)
    }

    fn parse_and(&mut self) -> (r: Result<Expr, ParseError>)
        requires
            old(self).wf(),
        ensures
            final(self).wf(),
            final(self).tokens == old(self).tokens,
            old(self).pos() <= final(self).pos(),
            r is Ok ==> old(self).pos() < final(self).pos() && wf_expr(r->Ok_0),
            r is Ok ==> sigs_of(old(self).tokens@, old(self).pos(), final(self).pos())
                == expr_sigs(r->Ok_0),
            r is Err ==> r->Err_0.lexeme@ == old(self).tokens@[final(self).pos()]@.lexeme
                && r->Err_0.line == old(self).tokens@[final(self).pos()]@.line_num,
            (literal_start(old(self).tokens@[old(self).pos()]@)
                && (old(self).tokens@[old(self).pos() + 1]@.token_type == TokenType::SEMICOLON
                || old(self).tokens@[old(self).pos() + 1]@.token_type == TokenType::EOF))
                ==> r is Ok && final(self).pos() == old(self).pos() + 1 && r->Ok_0 is Literal,
            r is Ok ==> final(self).tokens@[final(self).pos()]@.token_type != TokenType::AND,
            r is Ok ==> and_shape(r->Ok_0),
        decreases old(self).tokens@.len() - old(self).pos(), 9int,
    {
        let mut expr = match self.parse_equality() {
            Ok(e) => e,
            Err(e) => {
                return Err(e);
            },
        };
        while self.curr_matches_type(TokenType::AND)
            invariant
                self.wf(),
                self.tokens == old(self).tokens,
                old(self).pos() < self.pos(),
                wf_expr(expr),
                and_shape(expr),
                sigs_of(old(self).tokens@, old(self).pos(), self.pos()) == expr_sigs(expr),
                (literal_start(old(self).tokens@[old(self).pos()]@)
                    && (old(self).tokens@[old(self).pos() + 1]@.token_type == TokenType::SEMICOLON
                    || old(self).tokens@[old(self).pos() + 1]@.token_type == TokenType::EOF))
                    ==> self.pos() == old(self).pos() + 1 && expr is Literal,
            decreases self.tokens@.len() - self.current,
        {
            let ghost p_op = self.pos();
            let operator = self.tokens[self.current].clone();
            self.current = self.current + 1;
            let right = match self.parse_equality() {
                Ok(e) => e,
                Err(e) => {
                    return Err(e);
                },
            };
            expr = Expr::Logical(Box::new(expr), operator, Box::new(right));
            proof {
                lemma_sigs_single(old(self).tokens@, p_op);
                lemma_sigs_concat(old(self).tokens@, old(self).pos(), p_op, p_op + 1);
                lemma_sigs_concat(old(self).tokens@, old(self).pos(), p_op + 1, self.pos());
                assert(sigs_of(old(self).tokens@, old(self).pos(), self.pos()) =~= expr_sigs(
                    expr,
                ));
                assert(wf_expr(expr));
            }
        }
        Ok(expr)
    }

    fn parse_equality(&mut self) -> (r: Result<Expr, ParseError>)
        requires
            old(self).wf(),
        ensures
            final(self).wf(),
            final(self).tokens == old(self).tokens,
            old(self).pos() <= final(self).pos(),
            r is Ok ==> old(self).pos() < final(self).pos() && wf_expr(r->Ok_0),
            r is Ok ==> sigs_of(old(self).tokens@, old(self).pos(), final(self).pos())
                == expr_sigs(r->Ok_0),
            r is Err ==> r->Err_0.lexeme@ == old(self).tokens@[final(self).pos()]@.lexeme
                && r->Err_0.line == old(self).tokens@[final(self).pos()]@.line_num,
            (literal_start(old(self).tokens@[old(self).pos()]@)
                && (old(self).tokens@[old(self).pos() + 1]@.token_type == TokenType::SEMICOLON
                || old(self).tokens@[old(self).pos() + 1]@.token_type == TokenType::EOF))
                ==> r is Ok && final(self).pos() == old(self).pos() + 1 && r->Ok_0 is Literal,
            r is Ok ==> final(self).tokens@[final(self).pos()]@.token_type
                != TokenType::BANG_EQUAL && final(self).tokens@[final(self).pos()]@.token_type
                != TokenType::EQUAL_EQUAL,
            r is Ok ==> eq_shape(r->Ok_0),
        decreases old(self).tokens@.len() - old(self).pos(), 8int,
    {
        let mut expr = match self.parse_comparison() {
            Ok(e) => e,
            Err(e) => {
                return Err(e);
            },
        };
        while self.curr_matches_type(TokenType::BANG_EQUAL) || self.curr_matches_type(
            TokenType::EQUAL_EQUAL,
        )
            invariant
                self.wf(),
                self.tokens == old(self).tokens,
                old(self).pos() < self.pos(),
                wf_expr(expr),
                eq_shape(expr),
                sigs_of(old(self).tokens@, old(self).pos(), self.pos()) == expr_sigs(expr),
                (literal_start(old(self).tokens@[old(self).pos()]@)
                    && (old(self).tokens@[old(self).pos() + 1]@.token_type == TokenType::SEMICOLON
                    || old(self).tokens@[old(self).pos() + 1]@.token_type == TokenType::EOF))
                    ==> self.pos() == old(self).pos() + 1 && expr is Literal,
            decreases self.tokens@.len() - self.current,
        {
            let ghost p_op = self.pos();
            let operator = self.tokens[self.current].clone();
            self.current = self.current + 1;
            let right = match self.parse_comparison() {
                Ok(e) => e,
                Err(e) => {
                    return Err(e);
                },
            };
            expr = Expr::Binary(Box::new(expr), operator, Box::new(right));
            proof {
                lemma_sigs_single(old(self).tokens@, p_op);
                lemma_sigs_concat(old(self).tokens@, old(self).pos(), p_op, p_op + 1);
                lemma_sigs_concat(old(self).tokens@, old(self).pos(), p_op + 1, self.pos());
                assert(sigs_of(old(self).tokens@, old(self).pos(), self.pos()) =~= expr_sigs(
                    expr,
                ));
                assert(wf_expr(expr));
            }
        }
        Ok(expr)
    }

    fn parse_comparison(&mut self) -> (r: Result<Expr, ParseError>)
        requires
            old(self).wf(),
        ensures
            final(self).wf(),
            final(self).tokens == old(self).tokens,
            old(self).pos() <= final(self).pos(),
            r is Ok ==> old(self).pos() < final(self).pos() && wf_expr(r->Ok_0),
            r is Ok ==> sigs_of(old(self).tokens@, old(self).pos(), final(self).pos())
                == expr_sigs(r->Ok_0),
            r is Err ==> r->Err_0.lexeme@ == old(self).tokens@[final(self).pos()]@.lexeme
                && r->Err_0.line == old(self).tokens@[final(self).pos()]@.line_num,
            (literal_start(old(self).tokens@[old(self).pos()]@)
                && (old(self).tokens@[old(self).pos() + 1]@.token_type == TokenType::SEMICOLON
                || old(self).tokens@[old(self).pos() + 1]@.token_type == TokenType::EOF))
                ==> r is Ok && final(self).pos() == old(self).pos() + 1 && r->Ok_0 is Literal,
            r is Ok ==> final(self).tokens@[final(self).pos()]@.token_type != TokenType::GREATER
                && final(self).tokens@[final(self).pos()]@.token_type != TokenType::GREATER_EQUAL
                && final(self).tokens@[final(self).pos()]@.token_type != TokenType::LESS
                && final(self).tokens@[final(self).pos()]@.token_type != TokenType::LESS_EQUAL,
            r is Ok ==> cmp_shape(r->Ok_0),
        decreases old(self).tokens@.len() - old(self).pos(), 7int,
    {
        let mut expr = match self.parse_additive() {
            Ok(e) => e,
            Err(e) => {
                return Err(e);
            },
        };
        while self.curr_matches_type(TokenType::GREATER) || self.curr_matches_type(
            TokenType::GREATER_EQUAL,
        ) || self.curr_matches_type(TokenType::LESS) || self.curr_matches_type(
            TokenType::LESS_EQUAL,
        )
            invariant
                self.wf(),
                self.tokens == old(self).tokens,
                old(self).pos() < self.pos(),
                wf_expr(expr),
                cmp_shape(expr),
                sigs_of(old(self).tokens@, old(self).pos(), self.pos()) == expr_sigs(expr),
                (literal_start(old(self).tokens@[old(self).pos()]@)
                    && (old(self).tokens@[old(self).pos() + 1]@.token_type == TokenType::SEMICOLON
                    || old(self).tokens@[old(self).pos() + 1]@.token_type == TokenType::EOF))
                    ==> self.pos() == old(self).pos() + 1 && expr is Literal,
            decreases self.tokens@.len() - self.current,
        {
            let ghost p_op = self.pos();
            let operator = self.tokens[self.current].clone();
            self.current = self.current + 1;
            let right = match self.parse_additive() {
                Ok(e) => e,
                Err(e) => {
                    return Err(e);
                },
            };
            expr = Expr::Binary(Box::new(expr), operator, Box::new(right));
            proof {
                lemma_sigs_single(old(self).tokens@, p_op);
                lemma_sigs_concat(old(self).tokens@, old(self).pos(), p_op, p_op + 1);
                lemma_sigs_concat(old(self).tokens@, old(self).pos(), p_op + 1, self.pos());
                assert(sigs_of(old(self).tokens@, old(self).pos(), self.pos()) =~= expr_sigs(
                    expr,
                ));
                assert(wf_expr(expr));
            }
        }
        Ok(expr)
    }

    fn parse_additive(&mut self) -> (r: Result<Expr, ParseError>)
        requires
            old(self).wf(),
        ensures
            final(self).wf(),
            final(self).tokens == old(self).tokens,
            old(self).pos() <= final(self).pos(),
            r is Ok ==> old(self).pos() < final(self).pos() && wf_expr(r->Ok_0),
            r is Ok ==> sigs_of(old(self).tokens@, old(self).pos(), final(self).pos())
                == expr_sigs(r->Ok_0),
            r is Err ==> r->Err_0.lexeme@ == old(self).tokens@[final(self).pos()]@.lexeme
                && r->Err_0.line == old(self).tokens@[final(self).pos()]@.line_num,
            (literal_start(old(self).tokens@[old(self).pos()]@)
                && (old(self).tokens@[old(self).pos() + 1]@.token_type == TokenType::SEMICOLON
                || old(self).tokens@[old(self).pos() + 1]@.token_type == TokenType::EOF))
                ==> r is Ok && final(self).pos() == old(self).pos() + 1 && r->Ok_0 is Literal,
            r is Ok ==> final(self).tokens@[final(self).pos()]@.token_type != TokenType::PLUS
                && final(self).tokens@[final(self).pos()]@.token_type != TokenType::MINUS,
            r is Ok ==> add_shape(r->Ok_0),
        decreases old(self).tokens@.len() - old(self).pos(), 6int,
    {
        let mut expr = match self.parse_multiplicative() {
            Ok(e) => e,
            Err(e) => {
                return Err(e);
            },
        };
        while self.curr_matches_type(TokenType::PLUS) || self.curr_matches_type(TokenType::MINUS)
            invariant
                self.wf(),
                self.tokens == old(self).tokens,
                old(self).pos() < self.pos(),
                wf_expr(expr),
                add_shape(expr),
                sigs_of(old(self).tokens@, old(self).pos(), self.pos()) == expr_sigs(expr),
                (literal_start(old(self).tokens@[old(self).pos()]@)
                    && (old(self).tokens@[old(self).pos() + 1]@.token_type == TokenType::SEMICOLON
                    || old(self).tokens@[old(self).pos() + 1]@.token_type == TokenType::EOF))
                    ==> self.pos() == old(self).pos() + 1 && expr is Literal,
            decreases self.tokens@.len() - self.current,
        {
            let ghost p_op = self.pos();
            let operator = self.tokens[self.current].clone();
            self.current = self.current + 1;
            let right = match self.parse_multiplicative() {
                Ok(e) => e,
                Err(e) => {
                    return Err(e);
                },
            };
            expr = Expr::Binary(Box::new(expr), operator, Box::new(right));
            proof {
                lemma_sigs_single(old(self).tokens@, p_op);
                lemma_sigs_concat(old(self).tokens@, old(self).pos(), p_op, p_op + 1);
                lemma_sigs_concat(old(self).tokens@, old(self).pos(), p_op + 1, self.pos());
                assert(sigs_of(old(self).tokens@, old(self).pos(), self.pos()) =~= expr_sigs(
                    expr,
                ));
                assert(wf_expr(expr));
            }
        }
        Ok(expr)
    }

    fn parse_multiplicative(&mut self) -> (r: Result<Expr, ParseError>)
        requires
            old(self).wf(),
        ensures
            final(self).wf(),
            final(self).tokens == old(self).tokens,
            old(self).pos() <= final(self).pos(),
            r is Ok ==> old(self).pos() < final(self).pos() && wf_expr(r->Ok_0),
            r is Ok ==> sigs_of(old(self).tokens@, old(self).pos(), final(self).pos())
                == expr_sigs(r->Ok_0),
            r is Err ==> r->Err_0.lexeme@ == old(self).tokens@[final(self).pos()]@.lexeme
                && r->Err_0.line == old(self).tokens@[final(self).pos()]@.line_num,
            (literal_start(old(self).tokens@[old(self).pos()]@)
                && (old(self).tokens@[old(self).pos() + 1]@.token_type == TokenType::SEMICOLON
                || old(self).tokens@[old(self).pos() + 1]@.token_type == TokenType::EOF))
                ==> r is Ok && final(self).pos() == old(self).pos() + 1 && r->Ok_0 is Literal,
            r is Ok ==> final(self).tokens@[final(self).pos()]@.token_type != TokenType::STAR
                && final(self).tokens@[final(self).pos()]@.token_type != TokenType::SLASH,
            r is Ok ==> mul_shape(r->Ok_0),
        decreases old(self).tokens@.len() - old(self).pos(), 5int,
    {
        let mut expr = match self.parse_unary() {
            Ok(e) => e,
            Err(e) => {
                return Err(e);
            },
        };
        while self.curr_matches_type(TokenType::STAR) || self.curr_matches_type(TokenType::SLASH)
            invariant
                self.wf(),
                self.tokens == old(self).tokens,
                old(self).pos() < self.pos(),
                wf_expr(expr),
                mul_shape(expr),
                sigs_of(old(self).tokens@, old(self).pos(), self.pos()) == expr_sigs(expr),
                (literal_start(old(self).tokens@[old(self).pos()]@)
                    && (old(self).tokens@[old(self).pos() + 1]@.token_type == TokenType::SEMICOLON
                    || old(self).tokens@[old(self).pos() + 1]@.token_type == TokenType::EOF))
                    ==> self.pos() == old(self).pos() + 1 && expr is Literal,
            decreases self.tokens@.len() - self.current,
        {
            let ghost p_op = self.pos();
            let operator = self.tokens[self.current].clone();
            self.current = self.current + 1;
            let right = match self.parse_unary() {
                Ok(e) => e,
                Err(e) => {
                    return Err(e);
                },
            };
            expr = Expr::Binary(Box::new(expr), operator, Box::new(right));
            proof {
                lemma_sigs_single(old(self).tokens@, p_op);
                lemma_sigs_concat(old(self).tokens@, old(self).pos(), p_op, p_op + 1);
                lemma_sigs_concat(old(self).tokens@, old(self).pos(), p_op + 1, self.pos());
                assert(sigs_of(old(self).tokens@, old(self).pos(), self.pos()) =~= expr_sigs(
                    expr,
                ));
                assert(wf_expr(expr));
            }
        }
        Ok(expr)
    }

    fn parse_unary(&mut self) -> (r: Result<Expr, ParseError>)
        requires
            old(self).wf(),
        ensures
            final(self).wf(),
            final(self).tokens == old(self).tokens,
            old(self).pos() <= final(self).pos(),
            r is Ok ==> old(self).pos() < final(self).pos() && wf_expr(r->Ok_0),
            r is Ok ==> sigs_of(old(self).tokens@, old(self).pos(), final(self).pos())
                == expr_sigs(r->Ok_0),
            r is Err ==> r->Err_0.lexeme@ == old(self).tokens@[final(self).pos()]@.lexeme
                && r->Err_0.line == old(self).tokens@[final(self).pos()]@.line_num,
            literal_start(old(self).tokens@[old(self).pos()]@) ==> r is Ok && final(self).pos()
                == old(self).pos() + 1 && r->Ok_0 is Literal,
            r is Ok ==> unary_shape(r->Ok_0),
        decreases old(self).tokens@.len() - old(self).pos(), 4int,
    {
        let kind = self.tokens[self.current].token_type;
        if kind == TokenType::BANG || kind == TokenType::MINUS {
            let ghost p_op = self.pos();
            let operator = self.tokens[self.current].clone();
            self.current = self.current + 1;
            let right = match self.parse_unary() {
                Ok(e) => e,
                Err(e) => {
                    return Err(e);
                },
            };
            let result = Expr::Unary(operator, Box::new(right));
            proof {
                lemma_sigs_single(old(self).tokens@, p_op);
                lemma_sigs_concat(old(self).tokens@, p_op, p_op + 1, self.pos());
                assert(sigs_of(old(self).tokens@, old(self).pos(), self.pos()) =~= expr_sigs(
                    result,
                ));
                assert(wf_expr(result));
            }
            return Ok(result);
        }
        self.parse_primary_expr()
    }

    /// Parses a primary form: a literal or identifier, a parenthesized
    /// expression, a block, or one of the statement keywords.
    fn parse_primary_expr(&mut self) -> (r: Result<Expr, ParseError>)
        requires
            old(self).wf(),
        ensures
            final(self).wf(),
            final(self).tokens == old(self).tokens,
            old(self).pos() <= final(self).pos(),
            r is Ok ==> old(self).pos() < final(self).pos() && wf_expr(r->Ok_0),
            r is Ok ==> sigs_of(old(self).tokens@, old(self).pos(), final(self).pos())
                == expr_sigs(r->Ok_0),
            r is Err ==> r->Err_0.lexeme@ == old(self).tokens@[final(self).pos()]@.lexeme
                && r->Err_0.line == old(self).tokens@[final(self).pos()]@.line_num,
            literal_start(old(self).tokens@[old(self).pos()]@) ==> r is Ok && final(self).pos()
                == old(self).pos() + 1 && r->Ok_0 is Literal,
            r is Ok ==> primary_shape(r->Ok_0),
        decreases old(self).tokens@.len() - old(self).pos(), 3int,
    {
        let token = self.tokens[self.current].clone();
        let kind = token.token_type;
        if kind == TokenType::FALSE || kind == TokenType::TRUE || kind == TokenType::NIL || kind
            == TokenType::STRING || kind == TokenType::NUMBER || kind == TokenType::IDENTIFIER {
            self.current = self.current + 1;
            let result = Expr::Literal(token);
            proof {
                lemma_sigs_single(old(self).tokens@, old(self).pos());
                assert(sigs_of(old(self).tokens@, old(self).pos(), self.pos()) =~= expr_sigs(
                    result,
                ));
                assert(wf_expr(result));
            }
            return Ok(result);
        }
        if kind == TokenType::LEFT_BRACE {
            self.current = self.current + 1;
            let exprs = match self.parse_scope() {
                Ok(es) => es,
                Err(e) => {
                    return Err(e);
                },
            };
            let ghost ges = exprs@;
            let result = Expr::Scope(exprs);
            proof {
                let ts = old(self).tokens@;
                let p0 = old(self).pos();
                lemma_sigs_single(ts, p0);
                lemma_sigs_concat(ts, p0, p0 + 1, self.pos());
                assert(tok_sig(ts[p0]@) == kw_sig(TokenType::LEFT_BRACE));
                assert(sigs_of(ts, p0 + 1, self.pos()) == block_sigs(ges) + seq![
                    kw_sig(TokenType::RIGHT_BRACE),
                ]);
                assert(result->Scope_0@ == ges);
                assert(expr_sigs(result) == seq![kw_sig(TokenType::LEFT_BRACE)] + block_sigs(ges)
                    + seq![kw_sig(TokenType::RIGHT_BRACE)]);
                assert(sigs_of(ts, p0, self.pos()) =~= expr_sigs(result));
                assert(wf_expr(result));
            }
            return Ok(result);
        }
        if kind == TokenType::LEFT_PAREN {
            self.current = self.current + 1;
            let expr = match self.parse_assignment() {
                Ok(e) => e,
                Err(e) => {
                    return Err(e);
                },
            };
            if !self.curr_matches_type(TokenType::RIGHT_PAREN) {
                return Err(self.error_here(ParseErrorKind::MissingRightParen));
            }
            let ghost p_close = self.pos();
            self.current = self.current + 1;
            let result = Expr::Grouping(Box::new(expr));
            proof {
                let ts = old(self).tokens@;
                let p0 = old(self).pos();
                lemma_sigs_single(ts, p0);
                lemma_sigs_single(ts, p_close);
                lemma_sigs_concat(ts, p0, p0 + 1, p_close);
                lemma_sigs_concat(ts, p0, p_close, p_close + 1);
                assert(tok_sig(ts[p0]@) == kw_sig(TokenType::LEFT_PAREN));
                assert(tok_sig(ts[p_close]@) == kw_sig(TokenType::RIGHT_PAREN));
                assert(sigs_of(ts, p0 + 1, p_close) == expr_sigs(expr));
                assert(sigs_of(ts, p0, p_close) =~= seq![kw_sig(TokenType::LEFT_PAREN)]
                    + expr_sigs(expr));
                assert(sigs_of(ts, p0, p_close + 1) =~= seq![kw_sig(TokenType::LEFT_PAREN)]
                    + expr_sigs(expr) + seq![kw_sig(TokenType::RIGHT_PAREN)]);
                assert(expr_sigs(result) == seq![kw_sig(TokenType::LEFT_PAREN)] + expr_sigs(
                    *result->Grouping_0,
                ) + seq![kw_sig(TokenType::RIGHT_PAREN)]);
                assert(sigs_of(ts, p0, self.pos()) =~= expr_sigs(result));
                assert(wf_expr(result));
            }
            return Ok(result);
        }
        if kind == TokenType::PRINT {
            self.current = self.current + 1;
            let expr = match self.parse_assignment() {
                Ok(e) => e,
                Err(e) => {
                    return Err(e);
                },
            };
            let ghost ge = expr;
            let result = Expr::Stmt(Statement::PrintStmt(Box::new(expr)));
            proof {
                let ts = old(self).tokens@;
                let p0 = old(self).pos();
                lemma_sigs_single(ts, p0);
                lemma_sigs_concat(ts, p0, p0 + 1, self.pos());
                assert(tok_sig(ts[p0]@) == kw_sig(TokenType::PRINT));
                assert(sigs_of(ts, p0 + 1, self.pos()) == expr_sigs(ge));
                assert(expr_sigs(result) == stmt_sigs(result->Stmt_0));
                assert(stmt_sigs(result->Stmt_0) == seq![kw_sig(TokenType::PRINT)] + expr_sigs(
                    ge,
                ));
                assert(sigs_of(ts, p0, self.pos()) =~= expr_sigs(result));
                assert(wf_stmt(result->Stmt_0));
                assert(wf_expr(result));
            }
            return Ok(result);
        }
        if kind == TokenType::VAR {
            self.current = self.current + 1;
            let result = match self.variable_declaration() {
                Ok(e) => e,
                Err(e) => {
                    return Err(e);
                },
            };
            proof {
                let ts = old(self).tokens@;
                let p0 = old(self).pos();
                lemma_sigs_single(ts, p0);
                lemma_sigs_concat(ts, p0, p0 + 1, self.pos());
                assert(tok_sig(ts[p0]@) == kw_sig(TokenType::VAR));
                assert(seq![kw_sig(TokenType::VAR)] + sigs_of(ts, p0 + 1, self.pos())
                    == expr_sigs(result));
                assert(sigs_of(ts, p0, self.pos()) =~= seq![kw_sig(TokenType::VAR)] + sigs_of(
                    ts,
                    p0 + 1,
                    self.pos(),
                ));
                assert(sigs_of(ts, p0, self.pos()) =~= expr_sigs(result));
            }
            return Ok(result);
        }
        if kind == TokenType::IF {
            self.current = self.current + 1;
            let conditionals = match self.handle_if_stmt() {
                Ok(cs) => cs,
                Err(e) => {
                    return Err(e);
                },
            };
            let ghost gcs = conditionals@;
            let result = Expr::Stmt(Statement::IfStmt(conditionals));
            proof {
                let ts = old(self).tokens@;
                let p0 = old(self).pos();
                lemma_sigs_single(ts, p0);
                lemma_sigs_concat(ts, p0, p0 + 1, self.pos());
                assert(tok_sig(ts[p0]@) == kw_sig(TokenType::IF));
                assert(sigs_of(ts, p0 + 1, self.pos()) == cond_sigs(gcs[0]) + if_tail_sigs(
                    gcs.drop_first(),
                ));
                assert(expr_sigs(result) == stmt_sigs(result->Stmt_0));
                assert(result->Stmt_0->IfStmt_0@ == gcs);
                assert(stmt_sigs(result->Stmt_0) == seq![kw_sig(TokenType::IF)] + cond_sigs(
                    gcs[0],
                ) + if_tail_sigs(gcs.drop_first()));
                assert(sigs_of(ts, p0, self.pos()) =~= expr_sigs(result));
                assert(wf_stmt(result->Stmt_0));
                assert(wf_expr(result));
            }
            return Ok(result);
        }
        if kind == TokenType::WHILE {
            self.current = self.current + 1;
            let conditional = match self.handle_conditional() {
                Ok(c) => c,
                Err(e) => {
                    return Err(e);
                },
            };
            let ghost gc = conditional;
            let result = Expr::Stmt(Statement::WhileStmt(conditional));
            proof {
                let ts = old(self).tokens@;
                let p0 = old(self).pos();
                lemma_sigs_single(ts, p0);
                lemma_sigs_concat(ts, p0, p0 + 1, self.pos());
                assert(tok_sig(ts[p0]@) == kw_sig(TokenType::WHILE));
                assert(sigs_of(ts, p0 + 1, self.pos()) == cond_sigs(gc));
                assert(expr_sigs(result) == stmt_sigs(result->Stmt_0));
                assert(stmt_sigs(result->Stmt_0) == seq![kw_sig(TokenType::WHILE)] + cond_sigs(
                    gc,
                ));
                assert(sigs_of(ts, p0, self.pos()) =~= expr_sigs(result));
                assert(wf_stmt(result->Stmt_0));
                assert(wf_expr(result));
            }
            return Ok(result);
        }
        if kind == TokenType::FOR {
            self.current = self.current + 1;
            let clauses = match self.handle_for_stmt() {
                Ok(f) => f,
                Err(e) => {
                    return Err(e);
                },
            };
            let ghost g = clauses;
            let result = Expr::Stmt(Statement::ForStmt(clauses.0, clauses.1, clauses.2, clauses.3));
            proof {
                let ts = old(self).tokens@;
                let p0 = old(self).pos();
                lemma_sigs_single(ts, p0);
                lemma_sigs_concat(ts, p0, p0 + 1, self.pos());
                assert(tok_sig(ts[p0]@) == kw_sig(TokenType::FOR));
                assert(sigs_of(ts, p0 + 1, self.pos()) == seq![kw_sig(TokenType::LEFT_PAREN)]
                    + opt_sigs(g.0) + seq![kw_sig(TokenType::SEMICOLON)] + expr_sigs(*g.1) + seq![
                    kw_sig(TokenType::SEMICOLON),
                ] + opt_sigs(g.2) + seq![kw_sig(TokenType::RIGHT_PAREN)] + unit_sigs(*g.3));
                assert(expr_sigs(result) == stmt_sigs(result->Stmt_0));
                assert(stmt_sigs(result->Stmt_0) == seq![
                    kw_sig(TokenType::FOR),
                    kw_sig(TokenType::LEFT_PAREN),
                ] + opt_sigs(g.0) + seq![kw_sig(TokenType::SEMICOLON)] + expr_sigs(*g.1) + seq![
                    kw_sig(TokenType::SEMICOLON),
                ] + opt_sigs(g.2) + seq![kw_sig(TokenType::RIGHT_PAREN)] + unit_sigs(*g.3));
                assert(sigs_of(ts, p0, self.pos()) =~= expr_sigs(result));
                assert(wf_stmt(result->Stmt_0));
                assert(wf_expr(result));
            }
            return Ok(result);
        }
        Err(self.error_here(ParseErrorKind::UnexpectedToken))
    }

    /// Parses the statements of a block up to its closing brace.
    fn parse_scope(&mut self) -> (r: Result<Vec<Expr>, ParseError>)
        requires
            old(self).wf(),
        ensures
            final(self).wf(),
            final(self).tokens == old(self).tokens,
            old(self).pos() <= final(self).pos(),
            r is Ok ==> old(self).pos() < final(self).pos() && wf_exprs(r->Ok_0@),
            r is Ok ==> sigs_of(old(self).tokens@, old(self).pos(), final(self).pos())
                == block_sigs(r->Ok_0@) + seq![kw_sig(TokenType::RIGHT_BRACE)],
            r is Err ==> r->Err_0.lexeme@ == old(self).tokens@[final(self).pos()]@.lexeme
                && r->Err_0.line == old(self).tokens@[final(self).pos()]@.line_num,
            r is Ok ==> unit_shapes(r->Ok_0@),
        decreases old(self).tokens@.len() - old(self).pos(), 13int,
    {
        let mut exprs: Vec<Expr> = Vec::new();
        proof {
            assert(wf_exprs(exprs@));
            lemma_sigs_empty(old(self).tokens@, old(self).pos());
            assert(block_sigs(exprs@) =~= Seq::<TokenShape>::empty());
        }
        loop
            invariant
                self.wf(),
                self.tokens == old(self).tokens,
                old(self).pos() <= self.pos(),
                wf_exprs(exprs@),
                unit_shapes(exprs@),
                sigs_of(old(self).tokens@, old(self).pos(), self.pos()) == block_sigs(exprs@),
            decreases self.tokens@.len() - self.current,
        {
            if self.curr_matches_type(TokenType::RIGHT_BRACE) {
                let ghost p_close = self.pos();
                self.current = self.current + 1;
                proof {
                    lemma_sigs_single(old(self).tokens@, p_close);
                    lemma_sigs_concat(old(self).tokens@, old(self).pos(), p_close, p_close + 1);
                    assert(sigs_of(old(self).tokens@, old(self).pos(), self.pos()) =~= block_sigs(
                        exprs@,
                    ) + seq![kw_sig(TokenType::RIGHT_BRACE)]);
                }
                return Ok(exprs);
            }
            if self.curr_matches_type(TokenType::EOF) {
                return Err(self.error_here(ParseErrorKind::MissingRightBrace));
            }
            let ghost before = exprs@;
            let ghost p_mid = self.pos();
            let expr = match self.parse_expression() {
                Ok(e) => e,
                Err(e) => {
                    return Err(e);
                },
            };
            let ghost ge = expr;
            exprs.push(expr);
            proof {
                let ts = old(self).tokens@;
                let p0 = old(self).pos();
                lemma_wf_exprs_push(before, exprs@[exprs@.len() - 1]);
                lemma_unit_shapes_push(before, ge);
                lemma_block_sigs_push(before, ge);
                lemma_sigs_concat(ts, p0, p_mid, self.pos());
                assert(sigs_of(ts, p_mid, self.pos()) == unit_sigs(ge));
                assert(exprs@ =~= before.push(ge));
                assert(block_sigs(exprs@) =~= block_sigs(before) + unit_sigs(ge));
                assert(sigs_of(ts, p0, self.pos()) =~= block_sigs(exprs@));
            }
        }
    }

    /// Parses the branches of an `if` statement: the leading conditional,
    /// any `else if` conditionals, and a trailing `else` body synthesized
    /// as a branch whose condition is the literal `true`.
    fn handle_if_stmt(&mut self) -> (r: Result<Vec<Conditional>, ParseError>)
        requires
            old(self).wf(),
        ensures
            final(self).wf(),
            final(self).tokens == old(self).tokens,
            old(self).pos() <= final(self).pos(),
            r is Ok ==> old(self).pos() < final(self).pos() && r->Ok_0@.len() >= 1 && wf_conds(
                r->Ok_0@,
            ),
            r is Ok ==> sigs_of(old(self).tokens@, old(self).pos(), final(self).pos())
                == cond_sigs(r->Ok_0@[0]) + if_tail_sigs(r->Ok_0@.drop_first()),
            r is Ok ==> forall|j: int|
                0 <= j < r->Ok_0@.len() - 1 ==> (*#[trigger] r->Ok_0@[j].0) is Grouping,
            r is Err ==> r->Err_0.lexeme@ == old(self).tokens@[final(self).pos()]@.lexeme
                && r->Err_0.line == old(self).tokens@[final(self).pos()]@.line_num,
            r is Ok ==> cond_shapes(r->Ok_0@),
        decreases old(self).tokens@.len() - old(self).pos(), 15int,
    {
        let mut conditionals: Vec<Conditional> = Vec::new();
        let mut first = true;
        proof {
            assert(wf_conds(conditionals@));
        }
        loop
            invariant
                self.wf(),
                self.tokens == old(self).tokens,
                old(self).pos() <= self.pos(),
                wf_conds(conditionals@),
                cond_shapes(conditionals@),
                forall|j: int|
                    0 <= j < conditionals@.len() ==> (*#[trigger] conditionals@[j].0) is Grouping,
                !first ==> old(self).pos() < self.pos() && conditionals@.len() >= 1,
                !first ==> sigs_of(old(self).tokens@, old(self).pos(), self.pos()) == cond_sigs(
                    conditionals@[0],
                ) + if_tail_sigs(conditionals@.drop_first()) + seq![
                    kw_sig(TokenType::ELSE),
                    kw_sig(TokenType::IF),
                ],
                first ==> conditionals@.len() == 0 && self.pos() == old(self).pos(),
            decreases self.tokens@.len() - self.current,
        {
            let ghost ts = old(self).tokens@;
            let ghost p0 = old(self).pos();
            let ghost before = conditionals@;
            let ghost p_it = self.pos();
            let was_first = first;
            let conditional = match self.handle_conditional() {
                Ok(c) => c,
                Err(e) => {
                    return Err(e);
                },
            };
            let ghost gc = conditional;
            conditionals.push(conditional);
            first = false;
            proof {
                lemma_wf_conds_push(before, conditionals@[conditionals@.len() - 1]);
                lemma_cond_shapes_push(before, gc);
                assert(conditionals@ =~= before.push(gc));
                assert(sigs_of(ts, p_it, self.pos()) == cond_sigs(gc));
                if was_first {
                    assert(conditionals@.drop_first().len() == 0);
                    assert(if_tail_sigs(conditionals@.drop_first()) =~= Seq::<
                        TokenShape,
                    >::empty());
                    assert(conditionals@[0] == gc);
                    assert(sigs_of(ts, p0, self.pos()) =~= cond_sigs(conditionals@[0])
                        + if_tail_sigs(conditionals@.drop_first()));
                } else {
                    lemma_sigs_concat(ts, p0, p_it, self.pos());
                    assert forall|j: int| 0 <= j < before.drop_first().len() implies (*#[trigger] before.drop_first()[j].0)
                        is Grouping by {
                        assert(before.drop_first()[j] == before[j + 1]);
                    }
                    lemma_if_tail_sigs_push(before.drop_first(), gc);
                    assert(conditionals@.drop_first() =~= before.drop_first().push(gc));
                    assert(conditionals@[0] == before[0]);
                    assert(sigs_of(ts, p0, self.pos()) =~= cond_sigs(conditionals@[0])
                        + if_tail_sigs(conditionals@.drop_first()));
                }
            }
            if !self.curr_matches_type(TokenType::ELSE) {
                return Ok(conditionals);
            }
            let ghost p_else = self.pos();
            self.current = self.current + 1;
            if !self.curr_matches_type(TokenType::IF) {
                // the trailing `else`: a branch whose condition is `true`
                let line = self.tokens[self.current].line_num;
                let ghost before2 = conditionals@;
                let ghost p_body = self.pos();
                let body = match self.parse_expression() {
                    Ok(e) => e,
                    Err(e) => {
                        return Err(e);
                    },
                };
                let ghost gbody = body;
                let true_token = Token::new(
                    TokenType::TRUE,
                    String::from_str("true"),
                    String::from_str("null"),
                    line,
                );
                let branch = Conditional(
                    Box::new(Expr::Literal(true_token)),
                    Box::new(body),
                );
                let ghost gbranch = branch;
                proof {
                    assert(is_true_literal(*branch.0));
                    assert(wf_expr(*branch.0));
                }
                conditionals.push(branch);
                proof {
                    lemma_wf_conds_push(before2, conditionals@[conditionals@.len() - 1]);
                    lemma_cond_shapes_push(before2, gbranch);
                    lemma_sigs_single(ts, p_else);
                    lemma_sigs_concat(ts, p0, p_else, p_else + 1);
                    lemma_sigs_concat(ts, p0, p_body, self.pos());
                    assert(tok_sig(ts[p_else]@) == kw_sig(TokenType::ELSE));
                    assert(sigs_of(ts, p_body, self.pos()) == unit_sigs(gbody));
                    assert(*gbranch.1 == gbody);
                    assert forall|j: int| 0 <= j < before2.drop_first().len() implies (*#[trigger] before2.drop_first()[j].0)
                        is Grouping by {
                        assert(before2.drop_first()[j] == before2[j + 1]);
                    }
                    lemma_if_tail_sigs_push(before2.drop_first(), gbranch);
                    assert(conditionals@ =~= before2.push(gbranch));
                    assert(conditionals@.drop_first() =~= before2.drop_first().push(gbranch));
                    assert(conditionals@[0] == before2[0]);
                    assert(if_tail_sigs(conditionals@.drop_first()) =~= if_tail_sigs(
                        before2.drop_first(),
                    ) + seq![kw_sig(TokenType::ELSE)] + unit_sigs(gbody));
                    assert(sigs_of(ts, p0, self.pos()) =~= cond_sigs(conditionals@[0])
                        + if_tail_sigs(conditionals@.drop_first()));
                }
                return Ok(conditionals);
            }
            let ghost p_if = self.pos();
            self.current = self.current + 1;
            proof {
                lemma_sigs_single(ts, p_else);
                lemma_sigs_single(ts, p_if);
                lemma_sigs_concat(ts, p0, p_else, p_else + 1);
                lemma_sigs_concat(ts, p0, p_if, p_if + 1);
                assert(tok_sig(ts[p_else]@) == kw_sig(TokenType::ELSE));
                assert(tok_sig(ts[p_if]@) == kw_sig(TokenType::IF));
                assert(sigs_of(ts, p0, self.pos()) =~= cond_sigs(conditionals@[0]) + if_tail_sigs(
                    conditionals@.drop_first(),
                ) + seq![kw_sig(TokenType::ELSE), kw_sig(TokenType::IF)]);
            }
        }
    }

    /// Parses one conditional: a condition, which must be a parenthesized
    /// group, and the body that runs when it holds.
    fn handle_conditional(&mut self) -> (r: Result<Conditional, ParseError>)
        requires
            old(self).wf(),
        ensures
            final(self).wf(),
            final(self).tokens == old(self).tokens,
            old(self).pos() <= final(self).pos(),
            r is Ok ==> old(self).pos() < final(self).pos() && (*r->Ok_0.0) is Grouping && wf_expr(
                *r->Ok_0.0,
            ) && wf_expr(*r->Ok_0.1),
            r is Ok ==> sigs_of(old(self).tokens@, old(self).pos(), final(self).pos())
                == cond_sigs(r->Ok_0),
            r is Err ==> r->Err_0.lexeme@ == old(self).tokens@[final(self).pos()]@.lexeme
                && r->Err_0.line == old(self).tokens@[final(self).pos()]@.line_num,
            r is Ok ==> primary_shape(*r->Ok_0.0) && assign_shape(*r->Ok_0.1),
        decreases old(self).tokens@.len() - old(self).pos(), 14int,
    {
        let condition = match self.parse_primary_expr() {
            Ok(e) => e,
            Err(e) => {
                return Err(e);
            },
        };
        if !matches!(&condition, Expr::Grouping(_)) {
            return Err(self.error_here(ParseErrorKind::ExpectedParenthesizedCondition));
        }
        let ghost p_body = self.pos();
        let ghost gcond = condition;
        let expr = match self.parse_expression() {
            Ok(e) => e,
            Err(e) => {
                return Err(e);
            },
        };
        let ghost gbody = expr;
        let result = Conditional(Box::new(condition), Box::new(expr));
        proof {
            let ts = old(self).tokens@;
            let p0 = old(self).pos();
            lemma_sigs_concat(ts, p0, p_body, self.pos());
            assert(sigs_of(ts, p0, p_body) == expr_sigs(gcond));
            assert(sigs_of(ts, p_body, self.pos()) == unit_sigs(gbody));
            assert(*result.0 == gcond && *result.1 == gbody);
            assert(cond_sigs(result) == expr_sigs(gcond) + unit_sigs(gbody));
            assert(sigs_of(ts, p0, self.pos()) =~= cond_sigs(result));
        }
        Ok(result)
    }

    /// Parses the three clauses and the body of a `for` statement.  The
    /// grammar is recognized in full; running the statement is refused at
    /// execution time.
    #[verifier::rlimit(60)]
    fn handle_for_stmt(&mut self) -> (r: Result<
        (Option<Box<Expr>>, Box<Expr>, Option<Box<Expr>>, Box<Expr>),
        ParseError,
    >)
        requires
            old(self).wf(),
        ensures
            final(self).wf(),
            final(self).tokens == old(self).tokens,
            old(self).pos() <= final(self).pos(),
            r is Ok ==> old(self).pos() < final(self).pos() && (match r->Ok_0.0 {
                Some(e) => wf_expr(*e),
                None => true,
            }) && wf_expr(*r->Ok_0.1) && (match r->Ok_0.2 {
                Some(e) => wf_expr(*e),
                None => true,
            }) && wf_expr(*r->Ok_0.3),
            r is Ok ==> sigs_of(old(self).tokens@, old(self).pos(), final(self).pos()) == seq![
                kw_sig(TokenType::LEFT_PAREN),
            ] + opt_sigs(r->Ok_0.0) + seq![kw_sig(TokenType::SEMICOLON)] + expr_sigs(*r->Ok_0.1)
                + seq![kw_sig(TokenType::SEMICOLON)] + opt_sigs(r->Ok_0.2) + seq![
                kw_sig(TokenType::RIGHT_PAREN),
            ] + unit_sigs(*r->Ok_0.3),
            r is Err ==> r->Err_0.lexeme@ == old(self).tokens@[final(self).pos()]@.lexeme
                && r->Err_0.line == old(self).tokens@[final(self).pos()]@.line_num,
            r is Ok ==> (match r->Ok_0.0 {
                Some(e) => assign_shape(*e),
                None => true,
            }) && assign_shape(*r->Ok_0.1) && (match r->Ok_0.2 {
                Some(e) => assign_shape(*e),
                None => true,
            }) && assign_shape(*r->Ok_0.3),
        decreases old(self).tokens@.len() - old(self).pos(), 14int,
    {
        if !self.curr_matches_type(TokenType::LEFT_PAREN) {
            return Err(self.error_here(ParseErrorKind::ExpectedForClauses));
        }
        self.current = self.current + 1;
        let mut var_init: Option<Box<Expr>> = None;
        if !self.curr_matches_type(TokenType::SEMICOLON) {
            let init_expr = match self.parse_assignment() {
                Ok(e) => e,
                Err(e) => {
                    return Err(e);
                },
            };
            match self.empty_scope_check(&init_expr) {
                Ok(_) => {},
                Err(e) => {
                    return Err(e);
                },
            }
            var_init = Some(Box::new(init_expr));
        }
        if !self.curr_matches_type(TokenType::SEMICOLON) {
            return Err(self.error_here(ParseErrorKind::MissingSemicolon));
        }
        self.current = self.current + 1;
        if self.curr_matches_type(TokenType::SEMICOLON) {
            return Err(self.error_here(ParseErrorKind::ExpectedLoopCondition));
        }
        let condition = match self.parse_assignment() {
            Ok(e) => e,
            Err(e) => {
                return Err(e);
            },
        };
        match self.empty_scope_check(&condition) {
            Ok(_) => {},
            Err(e) => {
                return Err(e);
            },
        }
        if !self.curr_matches_type(TokenType::SEMICOLON) {
            return Err(self.error_here(ParseErrorKind::MissingSemicolon));
        }
        self.current = self.current + 1;
        let mut var_update: Option<Box<Expr>> = None;
        if !self.curr_matches_type(TokenType::RIGHT_PAREN) {
            let update_expr = match self.parse_assignment() {
                Ok(e) => e,
                Err(e) => {
                    return Err(e);
                },
            };
            match self.empty_scope_check(&update_expr) {
                Ok(_) => {},
                Err(e) => {
                    return Err(e);
                },
            }
            var_update = Some(Box::new(update_expr));
        }
        if !self.curr_matches_type(TokenType::RIGHT_PAREN) {
            return Err(self.error_here(ParseErrorKind::MissingRightParen));
        }
        self.current = self.current + 1;
        let expr = match self.parse_expression() {
            Ok(e) => e,
            Err(e) => {
                return Err(e);
            },
        };
        Ok((var_init, Box::new(condition), var_update, Box::new(expr)))
    }

    /// Parses a declaration after `var`: the declared name must be an
    /// identifier, the initializer is optional.
    fn variable_declaration(&mut self) -> (r: Result<Expr, ParseError>)
        requires
            old(self).wf(),
        ensures
            final(self).wf(),
            final(self).tokens == old(self).tokens,
            old(self).pos() <= final(self).pos(),
            r is Ok ==> old(self).pos() < final(self).pos() && wf_expr(r->Ok_0),
            r is Ok ==> seq![kw_sig(TokenType::VAR)] + sigs_of(
                old(self).tokens@,
                old(self).pos(),
                final(self).pos(),
            ) == expr_sigs(r->Ok_0),
            r is Err ==> r->Err_0.lexeme@ == old(self).tokens@[final(self).pos()]@.lexeme
                && r->Err_0.line == old(self).tokens@[final(self).pos()]@.line_num,
            r is Ok ==> primary_shape(r->Ok_0),
        decreases old(self).tokens@.len() - old(self).pos(), 14int,
    {
        let variable = self.tokens[self.current].clone();
        if variable.token_type != TokenType::IDENTIFIER {
            return Err(self.error_here(ParseErrorKind::ExpectedIdentifier));
        }
        self.current = self.current + 1;
        let ghost p_name = old(self).pos();
        let mut value: Option<Box<Expr>> = None;
        let ghost p_eq = self.pos();
        if self.curr_matches_type(TokenType::EQUAL) {
            self.current = self.current + 1;
            let expr = match self.parse_assignment() {
                Ok(e) => e,
                Err(e) => {
                    return Err(e);
                },
            };
            value = Some(Box::new(expr));
        }
        let ghost gname = variable@;
        let ghost gval = value;
        let result = Expr::Stmt(Statement::DeclarationStmt(variable, value));
        proof {
            let ts = old(self).tokens@;
            lemma_sigs_single(ts, p_name);
            assert(tok_sig(ts[p_name]@) == tok_sig(gname));
            assert(expr_sigs(result) == stmt_sigs(result->Stmt_0));
            if gval is Some {
                lemma_sigs_single(ts, p_eq);
                lemma_sigs_concat(ts, p_name, p_eq, p_eq + 1);
                lemma_sigs_concat(ts, p_name, p_eq + 1, self.pos());
                assert(tok_sig(ts[p_eq]@) == kw_sig(TokenType::EQUAL));
                assert(sigs_of(ts, p_eq + 1, self.pos()) == expr_sigs(*gval->0));
                assert(stmt_sigs(result->Stmt_0) =~= seq![kw_sig(TokenType::VAR), tok_sig(gname)]
                    + (seq![kw_sig(TokenType::EQUAL)] + expr_sigs(*gval->0)));
                assert(seq![kw_sig(TokenType::VAR)] + sigs_of(ts, old(self).pos(), self.pos())
                    =~= expr_sigs(result));
            } else {
                assert(self.pos() == p_eq);
                assert(stmt_sigs(result->Stmt_0) =~= seq![kw_sig(TokenType::VAR), tok_sig(gname)]);
                assert(sigs_of(ts, old(self).pos(), self.pos()) =~= seq![tok_sig(gname)]);
                assert(seq![kw_sig(TokenType::VAR)] + sigs_of(ts, old(self).pos(), self.pos())
                    =~= expr_sigs(result));
            }
            assert(wf_stmt(result->Stmt_0));
            assert(wf_expr(result));
        }
        Ok(result)
    }

    /// A loop clause may not be an empty block, which could never produce
    /// a value.
    fn empty_scope_check(&self, expr: &Expr) -> (r: Result<(), ParseError>)
        requires
            self.wf(),
        ensures
            r is Ok <==> !(*expr matches Expr::Scope(es) && es@.len() == 0),
            r is Err ==> r->Err_0.kind == ParseErrorKind::InvalidLoopCondition
                && r->Err_0.lexeme@ == self.tokens@[self.pos()]@.lexeme && r->Err_0.line
                == self.tokens@[self.pos()]@.line_num,
    {
        match expr {
            Expr::Scope(exprs) => {
                if exprs.len() == 0 {
                    Err(self.error_here(ParseErrorKind::InvalidLoopCondition))
                } else {
                    Ok(())
                }
            },
            _ => Ok(()),
        }
    }
}

proof fn lemma_if_tail_sigs_push(cs: Seq<Conditional>, c: Conditional)
    requires
        forall|j: int| 0 <= j < cs.len() ==> (*#[trigger] cs[j].0) is Grouping,
    ensures
        if_tail_sigs(cs.push(c)) =~= if_tail_sigs(cs) + (if is_true_literal(*c.0) {
            seq![kw_sig(TokenType::ELSE)] + unit_sigs(*c.1)
        } else {
            seq![kw_sig(TokenType::ELSE), kw_sig(TokenType::IF)] + cond_sigs(c)
        }),
    decreases cs,
{
    if cs.len() == 0 {
        assert(cs.push(c)[0] == c);
        assert(cs.push(c).drop_first().len() == 0);
        assert(if_tail_sigs(cs.push(c).drop_first()) =~= Seq::<TokenShape>::empty());
    } else {
        assert(cs.push(c)[0] == cs[0]);
        assert(!is_true_literal(*cs[0].0));
        assert(cs.push(c).drop_first() =~= cs.drop_first().push(c));
        assert forall|j: int| 0 <= j < cs.drop_first().len() implies (*#[trigger] cs.drop_first()[j].0)
            is Grouping by {
            assert(cs.drop_first()[j] == cs[j + 1]);
        }
        lemma_if_tail_sigs_push(cs.drop_first(), c);
        assert(if_tail_sigs(cs.drop_first().push(c)) =~= if_tail_sigs(cs.drop_first()) + (
        if is_true_literal(*c.0) {
            seq![kw_sig(TokenType::ELSE)] + unit_sigs(*c.1)
        } else {
            seq![kw_sig(TokenType::ELSE), kw_sig(TokenType::IF)] + cond_sigs(c)
        }));
    }
}

proof fn lemma_block_sigs_push(es: Seq<Expr>, e: Expr)
    ensures
        block_sigs(es.push(e)) =~= block_sigs(es) + unit_sigs(e),
    decreases es,
{
    if es.len() == 0 {
        assert(es.push(e)[0] == e);
        assert(es.push(e).drop_first().len() == 0);
        assert(block_sigs(es.push(e).drop_first()) =~= Seq::<TokenShape>::empty());
    } else {
        lemma_block_sigs_push(es.drop_first(), e);
        assert(es.push(e).drop_first() =~= es.drop_first().push(e));
        assert(block_sigs(es.push(e).drop_first()) =~= block_sigs(es.drop_first()) + unit_sigs(e));
        assert(es.push(e)[0] == es[0]);
    }
}

proof fn lemma_wf_exprs_push(es: Seq<Expr>, e: Expr)
    requires
        wf_exprs(es),
        wf_expr(e),
    ensures
        wf_exprs(es.push(e)),
    decreases es,
{
    if es.len() == 0 {
        assert(es.push(e)[0] == e);
        assert(es.push(e).drop_first().len() == 0);
        assert(wf_exprs(es.push(e).drop_first()));
    } else {
        lemma_wf_exprs_push(es.drop_first(), e);
        assert(es.push(e).drop_first() =~= es.drop_first().push(e));
        assert(wf_exprs(es.push(e).drop_first()));
        assert(es.push(e)[0] == es[0]);
    }
}

proof fn lemma_wf_conds_push(cs: Seq<Conditional>, c: Conditional)
    requires
        wf_conds(cs),
        (*c.0) is Grouping || is_true_literal(*c.0),
        wf_expr(*c.0),
        wf_expr(*c.1),
    ensures
        wf_conds(cs.push(c)),
    decreases cs,
{
    if cs.len() == 0 {
        assert(cs.push(c)[0] == c);
        assert(cs.push(c).drop_first().len() == 0);
        assert(wf_conds(cs.push(c).drop_first()));
    } else {
        lemma_wf_conds_push(cs.drop_first(), c);
        assert(cs.push(c).drop_first() =~= cs.drop_first().push(c));
        assert(wf_conds(cs.push(c).drop_first()));
        assert(cs.push(c)[0] == cs[0]);
    }
}

} // verus!
