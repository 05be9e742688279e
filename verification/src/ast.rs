//! The expression and statement tree the parser produces: a closed set of
//! variants, each owning its sub-nodes, together with its text rendering.
use vstd::prelude::*;
use vstd::string::*;

use crate::token::Token;
use crate::token::TokenType;

verus! {

/// An expression node.  Statement forms are wrapped as expressions so that
/// they can stand inside blocks.
pub enum Expr {
    Binary(Box<Expr>, Token, Box<Expr>),
    Grouping(Box<Expr>),
    Literal(Token),
    Unary(Token, Box<Expr>),
    Logical(Box<Expr>, Token, Box<Expr>),
    Stmt(Statement),
    Scope(Vec<Expr>),
}

/// A statement form.  The `for` statement is recognized grammar whose
/// execution is deliberately unsupported.
pub enum Statement {
    PrintStmt(Box<Expr>),
    DeclarationStmt(Token, Option<Box<Expr>>),
    AssignmentStmt(Token, Box<Expr>),
    IfStmt(Vec<Conditional>),
    ForStmt(Option<Box<Expr>>, Box<Expr>, Option<Box<Expr>>, Box<Expr>),
    WhileStmt(Conditional),
}

/// A condition paired with the body to run when it holds.
pub struct Conditional(pub Box<Expr>, pub Box<Expr>);

/// Whether a condition is the synthesized literal `true` that stands for a
/// trailing `else` branch.
pub open spec fn is_true_literal(e: Expr) -> bool {
    match e {
        Expr::Literal(t) => t@.token_type == TokenType::TRUE,
        _ => false,
    }
}

/// The rendering of an expression node, as the parse mode shows it:
/// operator forms as parenthesized prefix terms, literals by their decoded
/// value, groupings under the word `group`.
pub open spec fn expr_str(e: Expr) -> Seq<char>
    decreases e,
{
    match e {
        Expr::Unary(op, val) => seq!['('] + op@.lexeme + seq![' '] + expr_str(*val) + seq![')'],
        Expr::Literal(t) => if t@.token_type == TokenType::STRING || t@.token_type
            == TokenType::NUMBER {
            t@.literal
        } else {
            t@.lexeme
        },
        Expr::Binary(l, op, r) => seq!['('] + op@.lexeme + seq![' '] + expr_str(*l) + seq![' ']
            + expr_str(*r) + seq![')'],
        Expr::Logical(l, op, r) => expr_str(*l) + seq![' '] + op@.lexeme + seq![' '] + expr_str(*r),
        Expr::Grouping(inner) => "(group "@ + expr_str(*inner) + seq![')'],
        Expr::Stmt(st) => stmt_str(st),
        Expr::Scope(exprs) => "scoped \n{\n"@ + scope_body_str(exprs@) + seq!['}'],
    }
}

/// The rendering of a block's statements, one per line.
pub open spec fn scope_body_str(es: Seq<Expr>) -> Seq<char>
    decreases es,
{
    if es.len() == 0 {
        Seq::empty()
    } else {
        expr_str(es[0]) + seq!['\n'] + scope_body_str(es.drop_first())
    }
}

/// The rendering of a statement node.
pub open spec fn stmt_str(st: Statement) -> Seq<char>
    decreases st,
{
    match st {
        Statement::PrintStmt(e) => "print "@ + expr_str(*e),
        Statement::DeclarationStmt(variable, value) => match value {
            Some(v) => "declare "@ + variable@.lexeme + " = "@ + expr_str(*v),
            None => "declare "@ + variable@.lexeme + " = nil"@,
        },
        Statement::AssignmentStmt(variable, value) => "assign "@ + variable@.lexeme + " with "@
            + expr_str(*value),
        Statement::IfStmt(conds) => if conds.len() == 0 {
            "if "@ + "\nend if"@
        } else {
            "if "@ + cond_str(conds@[0]) + if_tail_str(conds@.drop_first()) + "\nend if"@
        },
        Statement::WhileStmt(c) => "while "@ + cond_str(c),
        Statement::ForStmt(_init, condition, _update, body) => "for loop: \ncondition: "@
            + expr_str(*condition) + "\nstatement(s):\n"@ + expr_str(*body) + "\nend block"@,
    }
}

/// The rendering of the `else if` and `else` branches after the first
/// conditional: a synthesized `true` condition is shown as the bare `else`
/// and ends the chain.
pub open spec fn if_tail_str(cs: Seq<Conditional>) -> Seq<char>
    decreases cs,
{
    if cs.len() == 0 {
        Seq::empty()
    } else if is_true_literal(*cs[0].0) {
        "\nelse\nstatement(s):\n"@ + expr_str(*cs[0].1)
    } else {
        "\nelse if "@ + cond_str(cs[0]) + if_tail_str(cs.drop_first())
    }
}

/// The rendering of one conditional: its condition and its body.
pub open spec fn cond_str(c: Conditional) -> Seq<char>
    decreases c,
{
    "condition: "@ + expr_str(*c.0) + "\nstatement(s):\n"@ + expr_str(*c.1) + "\nend block"@
}

impl Expr {
    /// Renders the node as the parse mode shows it.
    pub fn render(&self) -> (r: String)
        ensures
            r@ == expr_str(*self),
        decreases *self,
    {
        match self {
            Expr::Unary(op, val) => {
                let mut out = String::from_str("(");
                out.append(op.lexeme.as_str());
                out.append(" ");
                let inner = val.render();
                out.append(inner.as_str());
                out.append(")");
                proof {
                    reveal_strlit("(");
                    reveal_strlit(" ");
                    reveal_strlit(")");
                    assert(out@ =~= expr_str(*self));
                }
                out
            },
            Expr::Literal(t) => {
                if t.token_type == TokenType::STRING || t.token_type == TokenType::NUMBER {
                    t.literal.clone()
                } else {
                    t.lexeme.clone()
                }
            },
            Expr::Binary(l, op, r2) => {
                let mut out = String::from_str("(");
                out.append(op.lexeme.as_str());
                out.append(" ");
                let left = l.render();
                out.append(left.as_str());
                out.append(" ");
                let right = r2.render();
                out.append(right.as_str());
                out.append(")");
                proof {
                    reveal_strlit("(");
                    reveal_strlit(" ");
                    reveal_strlit(")");
                    assert(out@ =~= expr_str(*self));
                }
                out
            },
            Expr::Logical(l, op, r2) => {
                let mut out = l.render();
                out.append(" ");
                out.append(op.lexeme.as_str());
                out.append(" ");
                let right = r2.render();
                out.append(right.as_str());
                proof {
                    reveal_strlit(" ");
                    assert(out@ =~= expr_str(*self));
                }
                out
            },
            Expr::Grouping(inner) => {
                let mut out = String::from_str("(group ");
                let body = inner.render();
                out.append(body.as_str());
                out.append(")");
                proof {
                    reveal_strlit(")");
                    assert(out@ =~= expr_str(*self));
                }
                out
            },
            Expr::Stmt(st) => {
                proof {
                    assert(decreases_to!(*self => self->Stmt_0));
                }
                st.render()
            },
            Expr::Scope(exprs) => {
                let mut out = String::from_str("scoped \n{\n");
                let mut i: usize = 0;
                proof {
                    assert(exprs@.skip(0) =~= exprs@);
                }
                while i < exprs.len()
                    invariant
                        i <= exprs.len(),
                        *self == Expr::Scope(*exprs),
                        out@ + scope_body_str(exprs@.skip(i as int)) =~= "scoped \n{\n"@
                            + scope_body_str(exprs@),
                    decreases exprs.len() - i,
                {
                    proof {
                        assert(decreases_to!(*self => self->Scope_0));
                        assert(self->Scope_0 == *exprs);
                        assert(decreases_to!(*exprs => exprs@));
                        assert(decreases_to!(exprs@ => exprs@[i as int]));
                        assert(decreases_to!(*self => exprs@[i as int]));
                    }
                    let line = exprs[i].render();
                    out.append(line.as_str());
                    out.append("\n");
                    proof {
                        reveal_strlit("\n");
                        assert(exprs@.skip(i as int).drop_first() =~= exprs@.skip(i + 1));
                        assert(exprs@.skip(i as int)[0] == exprs@[i as int]);
                        assert(out@ + scope_body_str(exprs@.skip(i + 1)) =~= "scoped \n{\n"@
                            + scope_body_str(exprs@));
                    }
                    i = i + 1;
                }
                out.append("}");
                proof {
                    reveal_strlit("}");
                    assert(exprs@.skip(exprs@.len() as int) =~= Seq::<Expr>::empty());
                    assert(out@ =~= expr_str(*self));
                }
                out
            },
        }
    }
}

impl Statement {
    /// Renders the statement as the parse mode shows it.
    pub fn render(&self) -> (r: String)
        ensures
            r@ == stmt_str(*self),
        decreases *self,
    {
        match self {
            Statement::PrintStmt(e) => {
                let mut out = String::from_str("print ");
                let body = e.render();
                out.append(body.as_str());
                proof {
                    assert(out@ =~= stmt_str(*self));
                }
                out
            },
            Statement::DeclarationStmt(variable, value) => {
                let mut out = String::from_str("declare ");
                out.append(variable.lexeme.as_str());
                match value {
                    Some(v) => {
                        out.append(" = ");
                        let body = v.render();
                        out.append(body.as_str());
                    },
                    None => {
                        out.append(" = nil");
                    },
                }
                proof {
                    assert(out@ =~= stmt_str(*self));
                }
                out
            },
            Statement::AssignmentStmt(variable, value) => {
                let mut out = String::from_str("assign ");
                out.append(variable.lexeme.as_str());
                out.append(" with ");
                let body = value.render();
                out.append(body.as_str());
                proof {
                    assert(out@ =~= stmt_str(*self));
                }
                out
            },
            Statement::WhileStmt(c) => {
                let mut out = String::from_str("while ");
                proof {
                    assert(decreases_to!(*self => self->WhileStmt_0));
                }
                let body = c.render();
                out.append(body.as_str());
                proof {
                    assert(out@ =~= stmt_str(*self));
                }
                out
            },
            Statement::ForStmt(_init, condition, _update, body) => {
                let mut out = String::from_str("for loop: \ncondition: ");
                let cond_text = condition.render();
                out.append(cond_text.as_str());
                out.append("\nstatement(s):\n");
                let body_text = body.render();
                out.append(body_text.as_str());
                out.append("\nend block");
                proof {
                    assert(out@ =~= stmt_str(*self));
                }
                out
            },
            Statement::IfStmt(conds) => {
                let mut out = String::from_str("if ");
                if conds.len() == 0 {
                    out.append("\nend if");
                    proof {
                        assert(out@ =~= stmt_str(*self));
                    }
                    return out;
                }
                proof {
                    assert(decreases_to!(*self => self->IfStmt_0));
                    assert(self->IfStmt_0 == *conds);
                    assert(decreases_to!(*conds => conds@));
                    assert(decreases_to!(conds@ => conds@[0]));
                    assert(decreases_to!(*self => conds@[0]));
                }
                let head = conds[0].render();
                out.append(head.as_str());
                let mut i: usize = 1;
                while i < conds.len()
                    invariant
                        1 <= i <= conds.len(),
                        *self == Statement::IfStmt(*conds),
                        out@ + if_tail_str(conds@.skip(i as int)) =~= "if "@ + cond_str(conds@[0])
                            + if_tail_str(conds@.drop_first()),
                    decreases conds.len() - i,
                {
                    proof {
                        assert(decreases_to!(*self => self->IfStmt_0));
                        assert(self->IfStmt_0 == *conds);
                        assert(decreases_to!(*conds => conds@));
                        assert(decreases_to!(conds@ => conds@[i as int]));
                        assert(decreases_to!(*self => conds@[i as int]));
                        assert(conds@.skip(i as int)[0] == conds@[i as int]);
                        assert(conds@.skip(i as int).drop_first() =~= conds@.skip(i + 1));
                    }
                    let c = &conds[i];
                    let else_branch: bool = match &*c.0 {
                        Expr::Literal(t) => t.token_type == TokenType::TRUE,
                        _ => false,
                    };
                    if else_branch {
                        out.append("\nelse\nstatement(s):\n");
                        proof {
                            assert(decreases_to!(conds@[i as int] => conds@[i as int].1));
                        }
                        let body = c.1.render();
                        out.append(body.as_str());
                        proof {
                            assert(out@ =~= "if "@ + cond_str(conds@[0]) + if_tail_str(
                                conds@.drop_first(),
                            ));
                        }
                        out.append("\nend if");
                        proof {
                            assert(out@ =~= stmt_str(*self));
                        }
                        return out;
                    }
                    out.append("\nelse if ");
                    let branch = c.render();
                    out.append(branch.as_str());
                    proof {
                        assert(out@ + if_tail_str(conds@.skip(i + 1)) =~= "if "@ + cond_str(
                            conds@[0],
                        ) + if_tail_str(conds@.drop_first()));
                    }
                    i = i + 1;
                }
                out.append("\nend if");
                proof {
                    assert(conds@.skip(conds@.len() as int) =~= Seq::<Conditional>::empty());
                    assert(out@ =~= stmt_str(*self));
                }
                out
            },
        }
    }
}

impl Conditional {
    /// Renders the conditional: its condition, then its body.
    pub fn render(&self) -> (r: String)
        ensures
            r@ == cond_str(*self),
        decreases *self,
    {
        let mut out = String::from_str("condition: ");
        let cond_text = self.0.render();
        out.append(cond_text.as_str());
        out.append("\nstatement(s):\n");
        let body_text = self.1.render();
        out.append(body_text.as_str());
        out.append("\nend block");
        proof {
            assert(out@ =~= cond_str(*self));
        }
        out
    }
}

} // verus!
