//! Statement execution against a lexically scoped environment: a stack of
//! frames, each mapping names to current values.  Declaration binds in the
//! innermost frame; lookup and assignment search frames innermost to
//! outermost and act on the first frame holding the name.  A block pushes a
//! frame on entry and pops it on every exit, error included.
use vstd::prelude::*;
use vstd::string::*;

use crate::ast::Conditional;
use crate::ast::Expr;
use crate::ast::Statement;
use crate::eval::RuntimeError;
use crate::eval::RuntimeErrorKind;
use crate::eval::env_free;
use crate::eval::spec_eval_pure;
use crate::eval::spec_truthy;
use crate::eval::eval_arithmetic_op;
use crate::eval::eval_comparison;
use crate::eval::get_bool;
use crate::eval::make_bool_token;
use crate::eval::negate_value;
use crate::token::Token;
use crate::token::TokenType;
use crate::token::TokenView;
use crate::token::spec_print_text;

verus! {

/// One variable binding: a name and its current value.
pub struct Binding {
    pub name: String,
    pub value: Token,
}

/// One scope frame: the bindings declared in one lexical block.
pub struct Scope {
    pub variables: Vec<Binding>,
}

/// The value bound to `name` in a frame's bindings, by first match.
pub open spec fn find_binding(bs: Seq<Binding>, name: Seq<char>) -> Option<TokenView>
    decreases bs,
{
    if bs.len() == 0 {
        None
    } else if bs[0].name@ == name {
        Some(bs[0].value@)
    } else {
        find_binding(bs.drop_first(), name)
    }
}

/// The index of the innermost frame binding `name`, searching from the top
/// of the stack down.
pub open spec fn lookup_frame(ss: Seq<Scope>, name: Seq<char>) -> Option<int>
    decreases ss,
{
    if ss.len() == 0 {
        None
    } else if find_binding(ss.last().variables@, name) is Some {
        Some(ss.len() - 1)
    } else {
        lookup_frame(ss.drop_last(), name)
    }
}

/// Replacing the first binding of `name` binds `name` to the new value and
/// leaves every other name alone.
proof fn lemma_find_binding_update(bs: Seq<Binding>, i: int, b: Binding)
    requires
        0 <= i < bs.len(),
        bs[i].name@ == b.name@,
        forall|j: int| 0 <= j < i ==> #[trigger] bs[j].name@ != b.name@,
    ensures
        find_binding(bs.update(i, b), b.name@) == Some(b.value@),
        forall|m: Seq<char>| m != b.name@ ==> #[trigger] find_binding(bs.update(i, b), m)
            == find_binding(bs, m),
    decreases bs,
{
    if i == 0 {
        assert(bs.update(0, b)[0] == b);
        assert forall|m: Seq<char>| m != b.name@ implies #[trigger] find_binding(
            bs.update(0, b),
            m,
        ) == find_binding(bs, m) by {
            assert(bs.update(0, b).drop_first() =~= bs.drop_first());
        }
    } else {
        assert(bs.update(i, b).drop_first() =~= bs.drop_first().update(i - 1, b));
        assert(bs.update(i, b)[0] == bs[0]);
        assert forall|j: int| 0 <= j < i - 1 implies #[trigger] bs.drop_first()[j].name@
            != b.name@ by {
            assert(bs.drop_first()[j] == bs[j + 1]);
        }
        lemma_find_binding_update(bs.drop_first(), i - 1, b);
        assert(bs[0].name@ != b.name@);
        assert forall|m: Seq<char>| m != b.name@ implies #[trigger] find_binding(bs.update(i, b), m)
            == find_binding(bs, m) by {
            assert(find_binding(bs.drop_first().update(i - 1, b), m) == find_binding(
                bs.drop_first(),
                m,
            ));
        }
    }
}

/// Appending a binding of a fresh name binds that name and leaves every
/// other name alone.
proof fn lemma_find_binding_push(bs: Seq<Binding>, b: Binding)
    requires
        find_binding(bs, b.name@) is None,
    ensures
        find_binding(bs.push(b), b.name@) == Some(b.value@),
        forall|m: Seq<char>| m != b.name@ ==> #[trigger] find_binding(bs.push(b), m)
            == find_binding(bs, m),
    decreases bs,
{
    if bs.len() == 0 {
        assert(bs.push(b)[0] == b);
        assert forall|m: Seq<char>| m != b.name@ implies #[trigger] find_binding(bs.push(b), m)
            == find_binding(bs, m) by {
            assert(bs.push(b).drop_first() =~= Seq::<Binding>::empty());
            assert(find_binding(bs.push(b).drop_first(), m) is None);
        }
    } else {
        assert(bs.push(b)[0] == bs[0]);
        assert(bs.push(b).drop_first() =~= bs.drop_first().push(b));
        lemma_find_binding_push(bs.drop_first(), b);
        assert forall|m: Seq<char>| m != b.name@ implies #[trigger] find_binding(bs.push(b), m)
            == find_binding(bs, m) by {
            assert(find_binding(bs.drop_first().push(b), m) == find_binding(bs.drop_first(), m));
        }
    }
}

impl Scope {
    pub fn new() -> (r: Self)
        ensures
            r.variables@.len() == 0,
    {
        Scope { variables: Vec::new() }
    }

    /// Whether this frame binds `name`.
    pub fn has_var(&self, name: &str) -> (r: bool)
        ensures
            r == (find_binding(self.variables@, name@) is Some),
    {
        let owned = name.to_owned();
        let mut i: usize = 0;
        let n = self.variables.len();
        proof {
            assert(self.variables@.skip(0) =~= self.variables@);
        }
        while i < n
            invariant
                i <= n == self.variables@.len(),
                owned@ == name@,
                find_binding(self.variables@, name@) == find_binding(
                    self.variables@.skip(i as int),
                    name@,
                ),
            decreases n - i,
        {
            proof {
                assert(self.variables@.skip(i as int)[0] == self.variables@[i as int]);
                assert(self.variables@.skip(i as int).drop_first() =~= self.variables@.skip(
                    i + 1,
                ));
            }
            if self.variables[i].name == owned {
                proof {
                    assert(find_binding(self.variables@.skip(i as int), name@) is Some);
                }
                return true;
            }
            i = i + 1;
        }
        proof {
            assert(self.variables@.skip(n as int) =~= Seq::<Binding>::empty());
        }
        false
    }
}

impl Scope {
    /// Replaces the binding at `i`.
    fn set_binding(&mut self, i: usize, b: Binding)
        requires
            i < old(self).variables@.len(),
        ensures
            final(self).variables@ == old(self).variables@.update(i as int, b),
    {
        let slot = &mut self.variables[i];
        *slot = b;
    }

    /// Appends a binding.
    fn push_binding(&mut self, b: Binding)
        ensures
            final(self).variables@ == old(self).variables@.push(b),
    {
        self.variables.push(b);
    }
}

/// The runner's state: the frame stack, the index of the innermost frame,
/// the lines printed so far, and the remaining iteration budget of `while`
/// loops.
pub struct State {
    pub scopes: Vec<Scope>,
    pub len: usize,
    pub output: Vec<String>,
    pub steps: u64,
}

/// The value an uninitialized declaration binds: the `nil` value itself,
/// falsy under the truthiness rule and equal to the `nil` literal.
pub open spec fn nil_sentinel(line: u32) -> TokenView {
    TokenView {
        token_type: TokenType::NIL,
        lexeme: "nil"@,
        literal: "null"@,
        line_num: line,
    }
}

/// A print statement whose expression never touches the environment and
/// evaluates successfully: its effect is one line, known in advance.
pub open spec fn pure_print(e: Expr) -> bool {
    &&& e is Stmt
    &&& e->Stmt_0 is PrintStmt
    &&& env_free(*e->Stmt_0->PrintStmt_0)
    &&& spec_eval_pure(*e->Stmt_0->PrintStmt_0) is Ok
}

/// The line such a print statement produces.
pub open spec fn print_line_of(e: Expr) -> Seq<char> {
    spec_print_text(spec_eval_pure(*e->Stmt_0->PrintStmt_0)->Ok_0)
}

/// A conditional whose condition never touches the environment, evaluates
/// successfully to a value with a truth value, and whose body is a pure
/// print statement.
pub open spec fn pure_cond(c: Conditional) -> bool {
    &&& env_free(*c.0)
    &&& spec_eval_pure(*c.0) is Ok
    &&& spec_truthy(spec_eval_pure(*c.0)->Ok_0) is Some
    &&& pure_print(*c.1)
}

pub open spec fn pure_conds(cs: Seq<Conditional>) -> bool {
    forall|j: int| 0 <= j < cs.len() ==> pure_cond(#[trigger] cs[j])
}

/// Whether a conditional's condition holds.
pub open spec fn cond_truthy(c: Conditional) -> bool {
    spec_truthy(spec_eval_pure(*c.0)->Ok_0) == Some(true)
}

/// The index of the first conditional whose condition holds, if any.
pub open spec fn first_true(cs: Seq<Conditional>) -> Option<int>
    decreases cs,
{
    if cs.len() == 0 {
        None
    } else if cond_truthy(cs[0]) {
        Some(0)
    } else {
        match first_true(cs.drop_first()) {
            Some(i) => Some(i + 1),
            None => None,
        }
    }
}

proof fn lemma_first_true_at(cs: Seq<Conditional>, i: int)
    requires
        0 <= i < cs.len(),
        forall|j: int| 0 <= j < i ==> !cond_truthy(#[trigger] cs[j]),
        cond_truthy(cs[i]),
    ensures
        first_true(cs) == Some(i),
    decreases cs,
{
    if i > 0 {
        assert(!cond_truthy(cs[0]));
        assert forall|j: int| 0 <= j < i - 1 implies !cond_truthy(
            #[trigger] cs.drop_first()[j],
        ) by {
            assert(cs.drop_first()[j] == cs[j + 1]);
        }
        assert(cs.drop_first()[i - 1] == cs[i]);
        lemma_first_true_at(cs.drop_first(), i - 1);
    }
}

proof fn lemma_first_true_none(cs: Seq<Conditional>)
    requires
        forall|j: int| 0 <= j < cs.len() ==> !cond_truthy(#[trigger] cs[j]),
    ensures
        first_true(cs) is None,
    decreases cs,
{
    if cs.len() > 0 {
        assert(!cond_truthy(cs[0]));
        assert forall|j: int| 0 <= j < cs.drop_first().len() implies !cond_truthy(
            #[trigger] cs.drop_first()[j],
        ) by {
            assert(cs.drop_first()[j] == cs[j + 1]);
        }
        lemma_first_true_none(cs.drop_first());
    }
}

/// Every statement of the sequence is a pure print.
pub open spec fn all_pure_prints(es: Seq<Expr>) -> bool {
    forall|j: int| 0 <= j < es.len() ==> pure_print(#[trigger] es[j])
}

/// The second output extends the first: everything already printed stays,
/// in order, and new lines only follow it.
pub open spec fn output_extends(a: Seq<String>, b: Seq<String>) -> bool {
    a.len() <= b.len() && b.subrange(0, a.len() as int) == a
}

impl State {
    /// The innermost-frame index always names the top of the stack.
    pub open spec fn wf(&self) -> bool {
        self.len + 1 == self.scopes.len()
    }

    pub fn new() -> (r: Self)
        ensures
            r.wf(),
            r.scopes@.len() == 1,
            r.scopes@[0].variables@.len() == 0,
            r.len == 0,
            r.output@.len() == 0,
            r.steps == u64::MAX,
    {
        let mut scopes: Vec<Scope> = Vec::new();
        scopes.push(Scope::new());
        State { scopes, len: 0, output: Vec::new(), steps: u64::MAX }
    }

    /// The index of the innermost frame binding `name`, or nothing when no
    /// frame binds it.
    pub fn has_var(&self, name: &str) -> (r: Option<usize>)
        requires
            self.wf(),
        ensures
            match r {
                Some(i) => Some(i as int) == lookup_frame(self.scopes@, name@),
                None => lookup_frame(self.scopes@, name@) is None,
            },
    {
        let mut i: usize = self.scopes.len();
        proof {
            assert(self.scopes@.take(self.scopes@.len() as int) =~= self.scopes@);
        }
        while i > 0
            invariant
                i <= self.scopes@.len(),
                lookup_frame(self.scopes@, name@) == lookup_frame(
                    self.scopes@.take(i as int),
                    name@,
                ),
            decreases i,
        {
            i = i - 1;
            proof {
                assert(self.scopes@.take(i + 1).last() == self.scopes@[i as int]);
                assert(self.scopes@.take(i + 1).drop_last() =~= self.scopes@.take(i as int));
            }
            if self.scopes[i].has_var(name) {
                return Some(i);
            }
        }
        proof {
            assert(self.scopes@.take(0) =~= Seq::<Scope>::empty());
        }
        None
    }

    /// The value bound to `name` in frame `scope`.
    pub fn get_var(&self, name: &str, scope: usize) -> (r: Token)
        requires
            scope < self.scopes@.len(),
            find_binding(self.scopes@[scope as int].variables@, name@) is Some,
        ensures
            Some(r@) == find_binding(self.scopes@[scope as int].variables@, name@),
    {
        let frame = &self.scopes[scope];
        let owned = name.to_owned();
        let n = frame.variables.len();
        let mut i: usize = 0;
        proof {
            assert(frame.variables@.skip(0) =~= frame.variables@);
        }
        while i < n
            invariant
                i <= n == frame.variables@.len(),
                owned@ == name@,
                frame == self.scopes@[scope as int],
                scope < self.scopes@.len(),
                find_binding(frame.variables@, name@) == find_binding(
                    frame.variables@.skip(i as int),
                    name@,
                ),
                find_binding(frame.variables@, name@) is Some,
            decreases n - i,
        {
            proof {
                assert(frame.variables@.skip(i as int)[0] == frame.variables@[i as int]);
                assert(frame.variables@.skip(i as int).drop_first() =~= frame.variables@.skip(
                    i + 1,
                ));
            }
            if frame.variables[i].name == owned {
                return frame.variables[i].value.clone();
            }
            i = i + 1;
        }
        proof {
            assert(frame.variables@.skip(n as int) =~= Seq::<Binding>::empty());
            assert(false);
        }
        unreached()
    }

    /// Binds `name` to `value` in frame `scope`, replacing any binding it
    /// already holds there; every other frame and every other name keep
    /// their values.
    pub fn insert_var(&mut self, name: String, value: Token, scope: usize)
        requires
            scope < old(self).scopes@.len(),
        ensures
            final(self).scopes@.len() == old(self).scopes@.len(),
            final(self).len == old(self).len,
            final(self).output == old(self).output,
            final(self).steps == old(self).steps,
            forall|j: int|
                0 <= j < old(self).scopes@.len() && j != scope
                    ==> #[trigger] final(self).scopes@[j] == old(self).scopes@[j],
            find_binding(final(self).scopes@[scope as int].variables@, name@) == Some(value@),
            forall|m: Seq<char>|
                m != name@ ==> #[trigger] find_binding(
                    final(self).scopes@[scope as int].variables@,
                    m,
                ) == find_binding(old(self).scopes@[scope as int].variables@, m),
    {
        let ghost old_frame = self.scopes@[scope as int].variables@;
        let n = self.scopes[scope].variables.len();
        let mut i: usize = 0;
        while i < n
            invariant
                i <= n == self.scopes@[scope as int].variables@.len(),
                scope < self.scopes@.len(),
                self.scopes@ == old(self).scopes@,
                self.len == old(self).len,
                self.output == old(self).output,
                self.steps == old(self).steps,
                old_frame == old(self).scopes@[scope as int].variables@,
                forall|j: int|
                    0 <= j < i ==> #[trigger] self.scopes@[scope as int].variables@[j].name@
                        != name@,
            decreases n - i,
        {
            if self.scopes[scope].variables[i].name == name {
                let ghost gname = name@;
                let ghost gvalue = value@;
                let binding = Binding { name, value };
                proof {
                    assert(binding.name@ == gname && binding.value@ == gvalue);
                }
                let ghost pre = self.scopes@;
                let frame = &mut self.scopes[scope];
                frame.set_binding(i, binding);
                proof {
                    assert(self.scopes@ =~= pre.update(
                        scope as int,
                        self.scopes@[scope as int],
                    ));
                    assert(pre[scope as int].variables@ == old_frame);
                    let nb = self.scopes@[scope as int].variables@[i as int];
                    assert(self.scopes@[scope as int].variables@ =~= old_frame.update(
                        i as int,
                        nb,
                    ));
                    assert(nb.name@ == gname && nb.value@ == gvalue);
                    lemma_find_binding_update(old_frame, i as int, nb);
                }
                return ;
            }
            i = i + 1;
        }
        proof {
            assert(find_binding(old_frame, name@) is None) by {
                lemma_no_match_no_binding(old_frame, name@);
            }
        }
        let ghost gname = name@;
        let ghost gvalue = value@;
        let binding = Binding { name, value };
        proof {
            assert(binding.name@ == gname && binding.value@ == gvalue);
        }
        let ghost pre = self.scopes@;
        let frame = &mut self.scopes[scope];
        frame.push_binding(binding);
        proof {
            assert(self.scopes@ =~= pre.update(scope as int, self.scopes@[scope as int]));
            assert(pre[scope as int].variables@ == old_frame);
            let nb = self.scopes@[scope as int].variables@[old_frame.len() as int];
            assert(self.scopes@[scope as int].variables@ =~= old_frame.push(nb));
            assert(nb.name@ == gname && nb.value@ == gvalue);
            lemma_find_binding_push(old_frame, nb);
        }
    }
}

/// The frame that a lookup names exists and binds the name.
proof fn lemma_lookup_frame_props(ss: Seq<Scope>, name: Seq<char>)
    ensures
        match lookup_frame(ss, name) {
            Some(i) => 0 <= i < ss.len() && find_binding(ss[i].variables@, name) is Some,
            None => true,
        },
    decreases ss,
{
    if ss.len() > 0 && find_binding(ss.last().variables@, name) is None {
        lemma_lookup_frame_props(ss.drop_last(), name);
        if lookup_frame(ss.drop_last(), name) is Some {
            let i = lookup_frame(ss.drop_last(), name)->0;
            assert(ss.drop_last()[i] == ss[i]);
        }
    }
}

impl State {
    /// Evaluates an expression against this environment: identifiers are
    /// looked up innermost frame outward, assignment expressions mutate
    /// their declaring frame, and statement forms are refused.  The frame
    /// stack keeps its depth and the output is untouched.  On an expression
    /// that never touches the environment, this evaluator and the stateless
    /// one agree exactly.
    pub fn evaluate(&mut self, expr: &Expr) -> (r: Result<Token, RuntimeError>)
        requires
            old(self).wf(),
        ensures
            final(self).wf(),
            final(self).scopes@.len() == old(self).scopes@.len(),
            final(self).len == old(self).len,
            final(self).output == old(self).output,
            final(self).steps == old(self).steps,
            env_free(*expr) ==> final(self).scopes@ == old(self).scopes@ && (
            match spec_eval_pure(*expr) {
                Ok(v) => r is Ok && r->Ok_0@ == v,
                Err(k) => r is Err && r->Err_0.kind == k,
            }),
            (*expr is Literal && expr->Literal_0@.token_type == TokenType::IDENTIFIER) ==> (
            match lookup_frame(old(self).scopes@, expr->Literal_0@.lexeme) {
                Some(i) => r is Ok && Some(r->Ok_0@) == find_binding(
                    old(self).scopes@[i].variables@,
                    expr->Literal_0@.lexeme,
                ) && final(self).scopes@ == old(self).scopes@,
                None => r is Err && r->Err_0.kind == RuntimeErrorKind::UndeclaredVariable
                    && final(self).scopes@ == old(self).scopes@,
            }),
        decreases *expr, 0int,
    {
        match expr {
            Expr::Literal(token) => {
                let k = token.token_type;
                if k == TokenType::STRING || k == TokenType::NUMBER || k == TokenType::FALSE || k
                    == TokenType::TRUE || k == TokenType::NIL {
                    Ok(token.clone())
                } else if k == TokenType::IDENTIFIER {
                    match self.has_var(token.lexeme.as_str()) {
                        None => Err(
                            RuntimeError {
                                kind: RuntimeErrorKind::UndeclaredVariable,
                                line: token.line_num,
                                name: token.lexeme.clone(),
                            },
                        ),
                        Some(scope) => {
                            proof {
                                lemma_lookup_frame_props(self.scopes@, token@.lexeme);
                            }
                            Ok(self.get_var(token.lexeme.as_str(), scope))
                        },
                    }
                } else {
                    Err(
                        RuntimeError {
                            kind: RuntimeErrorKind::InvalidStatement,
                            line: token.line_num,
                            name: String::new(),
                        },
                    )
                }
            },
            Expr::Grouping(inner) => self.evaluate(inner),
            Expr::Unary(op, v) => {
                let rv = match self.evaluate(v) {
                    Ok(t) => t,
                    Err(e) => {
                        return Err(e);
                    },
                };
                if op.token_type == TokenType::MINUS {
                    negate_value(&rv)
                } else if op.token_type == TokenType::BANG {
                    match get_bool(&rv) {
                        Ok(b) => Ok(make_bool_token(!b, 0)),
                        Err(e) => Err(e),
                    }
                } else {
                    Err(
                        RuntimeError {
                            kind: RuntimeErrorKind::InvalidOperator,
                            line: op.line_num,
                            name: String::new(),
                        },
                    )
                }
            },
            Expr::Binary(l, op, r2) => {
                let lv = match self.evaluate(l) {
                    Ok(t) => t,
                    Err(e) => {
                        return Err(e);
                    },
                };
                let rv = match self.evaluate(r2) {
                    Ok(t) => t,
                    Err(e) => {
                        return Err(e);
                    },
                };
                let k = op.token_type;
                if k == TokenType::PLUS || k == TokenType::MINUS || k == TokenType::STAR || k
                    == TokenType::SLASH {
                    eval_arithmetic_op(&lv, &rv, k)
                } else if k == TokenType::EQUAL_EQUAL || k == TokenType::BANG_EQUAL || k
                    == TokenType::GREATER || k == TokenType::GREATER_EQUAL || k == TokenType::LESS
                    || k == TokenType::LESS_EQUAL {
                    eval_comparison(&lv, &rv, k)
                } else {
                    Err(
                        RuntimeError {
                            kind: RuntimeErrorKind::InvalidOperator,
                            line: op.line_num,
                            name: String::new(),
                        },
                    )
                }
            },
            Expr::Logical(l, op, r2) => {
                let lv = match self.evaluate(l) {
                    Ok(t) => t,
                    Err(e) => {
                        return Err(e);
                    },
                };
                let b = match get_bool(&lv) {
                    Ok(b) => b,
                    Err(e) => {
                        return Err(e);
                    },
                };
                if op.token_type == TokenType::OR {
                    if b {
                        Ok(lv)
                    } else {
                        self.evaluate(r2)
                    }
                } else if op.token_type == TokenType::AND {
                    if !b {
                        Ok(lv)
                    } else {
                        self.evaluate(r2)
                    }
                } else {
                    Err(
                        RuntimeError {
                            kind: RuntimeErrorKind::InvalidOperator,
                            line: op.line_num,
                            name: String::new(),
                        },
                    )
                }
            },
            Expr::Stmt(st) => {
                match st {
                    Statement::AssignmentStmt(variable, value) => {
                        proof {
                            assert(decreases_to!(*expr => *expr->Stmt_0->AssignmentStmt_1));
                        }
                        self.assign(variable, value)
                    },
                    _ => Err(
                        RuntimeError {
                            kind: RuntimeErrorKind::InvalidStatement,
                            line: 0,
                            name: String::new(),
                        },
                    ),
                }
            },
            Expr::Scope(_) => Err(
                RuntimeError {
                    kind: RuntimeErrorKind::InvalidStatement,
                    line: 0,
                    name: String::new(),
                },
            ),
        }
    }

    /// Binds a declared name in the innermost frame, to the initializer's
    /// value or to the `nil` placeholder.  Declaration always creates in
    /// the current scope: an outer binding of the same name is shadowed,
    /// not touched.
    pub fn declare(&mut self, variable: &Token, value: &Option<Box<Expr>>) -> (r: Result<
        (),
        RuntimeError,
    >)
        requires
            old(self).wf(),
        ensures
            final(self).wf(),
            final(self).scopes@.len() == old(self).scopes@.len(),
            final(self).len == old(self).len,
            final(self).output == old(self).output,
            final(self).steps == old(self).steps,
            r is Ok ==> find_binding(
                final(self).scopes@[final(self).len as int].variables@,
                variable@.lexeme,
            ) is Some,
            *value is None ==> r is Ok && find_binding(
                final(self).scopes@[final(self).len as int].variables@,
                variable@.lexeme,
            ) == Some(nil_sentinel(variable@.line_num)),
            (*value is Some && env_free(*value->0)) ==> (match spec_eval_pure(*value->0) {
                Ok(v) => r is Ok && find_binding(
                    final(self).scopes@[final(self).len as int].variables@,
                    variable@.lexeme,
                ) == Some(v),
                Err(k) => r is Err && r->Err_0.kind == k,
            }),
        decreases *value, 1int,
    {
        match value {
            Some(expr) => {
                let v = match self.evaluate(expr) {
                    Ok(t) => t,
                    Err(e) => {
                        return Err(e);
                    },
                };
                let scope = self.len;
                self.insert_var(variable.lexeme.clone(), v, scope);
                Ok(())
            },
            None => {
                let nil_value = Token::new(
                    TokenType::NIL,
                    String::from_str("nil"),
                    String::from_str("null"),
                    variable.line_num,
                );
                proof {
                    assert(nil_value@ == nil_sentinel(variable@.line_num));
                }
                let scope = self.len;
                self.insert_var(variable.lexeme.clone(), nil_value, scope);
                Ok(())
            },
        }
    }

    /// Assigns to a declared name: the innermost frame already binding the
    /// name — found before the value is evaluated — takes the new value;
    /// an undeclared name is refused with the environment untouched.
    pub fn assign(&mut self, variable: &Token, value: &Expr) -> (r: Result<Token, RuntimeError>)
        requires
            old(self).wf(),
        ensures
            final(self).wf(),
            final(self).scopes@.len() == old(self).scopes@.len(),
            final(self).len == old(self).len,
            final(self).output == old(self).output,
            final(self).steps == old(self).steps,
            lookup_frame(old(self).scopes@, variable@.lexeme) is None ==> r is Err
                && r->Err_0.kind == RuntimeErrorKind::UndeclaredVariable && final(self).scopes@
                == old(self).scopes@,
            r is Ok ==> lookup_frame(old(self).scopes@, variable@.lexeme) is Some && find_binding(
                final(self).scopes@[lookup_frame(old(self).scopes@, variable@.lexeme)->0].variables@,
                variable@.lexeme,
            ) == Some(r->Ok_0@),
            (lookup_frame(old(self).scopes@, variable@.lexeme) is Some && env_free(*value)) ==> (
            match spec_eval_pure(*value) {
                Ok(v) => r is Ok && r->Ok_0@ == v,
                Err(k) => r is Err && r->Err_0.kind == k,
            }),
            (lookup_frame(old(self).scopes@, variable@.lexeme) is Some && env_free(*value) && r
                is Ok) ==> ({
                let i = lookup_frame(old(self).scopes@, variable@.lexeme)->0;
                &&& forall|j: int|
                    0 <= j < old(self).scopes@.len() && j != i
                        ==> #[trigger] final(self).scopes@[j] == old(self).scopes@[j]
                &&& forall|m: Seq<char>|
                    m != variable@.lexeme ==> #[trigger] find_binding(
                        final(self).scopes@[i].variables@,
                        m,
                    ) == find_binding(old(self).scopes@[i].variables@, m)
            }),
        decreases *value, 1int,
    {
        let scope = match self.has_var(variable.lexeme.as_str()) {
            None => {
                return Err(
                    RuntimeError {
                        kind: RuntimeErrorKind::UndeclaredVariable,
                        line: variable.line_num,
                        name: variable.lexeme.clone(),
                    },
                );
            },
            Some(s) => s,
        };
        proof {
            lemma_lookup_frame_props(self.scopes@, variable@.lexeme);
        }
        let token = match self.evaluate(value) {
            Ok(t) => t,
            Err(e) => {
                return Err(e);
            },
        };
        let result = token.clone();
        self.insert_var(variable.lexeme.clone(), token, scope);
        Ok(result)
    }

    /// Runs a sequence of statements in order, stopping at the first
    /// failure.  The frame stack keeps its depth; whatever was printed
    /// before a failure stays printed.
    pub fn run(&mut self, expressions: &Vec<Expr>) -> (r: Result<(), RuntimeError>)
        requires
            old(self).wf(),
        ensures
            final(self).wf(),
            final(self).scopes@.len() == old(self).scopes@.len(),
            final(self).len == old(self).len,
            final(self).steps <= old(self).steps,
            output_extends(old(self).output@, final(self).output@),
            all_pure_prints(expressions@) ==> r is Ok && final(self).scopes@ == old(self).scopes@
                && final(self).output@.len() == old(self).output@.len() + expressions@.len() && (
            forall|k: int|
                0 <= k < expressions@.len() ==> #[trigger] final(self).output@[old(
                    self,
                ).output@.len() + k]@ == print_line_of(expressions@[k])),
            (expressions@.len() == 1 && expressions@[0] is Stmt && expressions@[0]->Stmt_0
                is IfStmt && pure_conds(expressions@[0]->Stmt_0->IfStmt_0@)) ==> r is Ok
                && final(self).scopes@ == old(self).scopes@ && (match first_true(
                expressions@[0]->Stmt_0->IfStmt_0@,
            ) {
                None => final(self).output@ == old(self).output@,
                Some(i) => final(self).output@.len() == old(self).output@.len() + 1
                    && final(self).output@.last()@ == print_line_of(
                    *expressions@[0]->Stmt_0->IfStmt_0@[i].1,
                ),
            }),
        decreases *expressions, 0int,
    {
        proof {
            lemma_output_extends_refl(old(self).output@);
        }
        let mut i: usize = 0;
        while i < expressions.len()
            invariant
                i <= expressions@.len(),
                self.wf(),
                self.scopes@.len() == old(self).scopes@.len(),
                self.len == old(self).len,
                self.steps <= old(self).steps,
                output_extends(old(self).output@, self.output@),
                all_pure_prints(expressions@) ==> self.scopes@ == old(self).scopes@
                    && self.output@.len() == old(self).output@.len() + i && (forall|k: int|
                    0 <= k < i ==> #[trigger] self.output@[old(self).output@.len() + k]@
                        == print_line_of(expressions@[k])),
                (expressions@.len() == 1 && expressions@[0] is Stmt && expressions@[0]->Stmt_0
                    is IfStmt && pure_conds(expressions@[0]->Stmt_0->IfStmt_0@) && i == 0) ==> (
                self.output@ == old(self).output@ && self.scopes@ == old(self).scopes@),
                (expressions@.len() == 1 && expressions@[0] is Stmt && expressions@[0]->Stmt_0
                    is IfStmt && pure_conds(expressions@[0]->Stmt_0->IfStmt_0@) && i == 1) ==> (
                self.scopes@ == old(self).scopes@ && (match first_true(
                    expressions@[0]->Stmt_0->IfStmt_0@,
                ) {
                    None => self.output@ == old(self).output@,
                    Some(fi) => self.output@.len() == old(self).output@.len() + 1
                        && self.output@.last()@ == print_line_of(
                        *expressions@[0]->Stmt_0->IfStmt_0@[fi].1,
                    ),
                })),
            decreases expressions@.len() - i,
        {
            proof {
                assert(decreases_to!(*expressions => expressions@));
                assert(decreases_to!(expressions@ => expressions@[i as int]));
                assert(decreases_to!(*expressions => expressions@[i as int]));
            }
            let ghost mid = self.output@;
            let ghost pre = *self;
            match self.run_expression(&expressions[i]) {
                Ok(_) => {},
                Err(e) => {
                    proof {
                        lemma_output_extends_trans(old(self).output@, mid, self.output@);
                        if all_pure_prints(expressions@) {
                            assert(pure_print(expressions@[i as int]));
                            assert(false);
                        }
                    }
                    return Err(e);
                },
            }
            proof {
                lemma_output_extends_trans(old(self).output@, mid, self.output@);
                if all_pure_prints(expressions@) {
                    assert(pure_print(expressions@[i as int]));
                    assert(self.output@.len() == mid.len() + 1);
                    assert(output_extends(mid, self.output@));
                    assert forall|k: int| 0 <= k < i + 1 implies #[trigger] self.output@[old(
                        self,
                    ).output@.len() + k]@ == print_line_of(expressions@[k]) by {
                        if k < i {
                            assert(self.output@.subrange(0, mid.len() as int)[old(
                                self,
                            ).output@.len() + k] == self.output@[old(self).output@.len() + k]);
                        } else {
                            assert(self.output@[old(self).output@.len() + k]
                                == self.output@.last());
                        }
                    }
                }
            }
            i = i + 1;
        }
        Ok(())
    }

    /// Runs one statement: printing, declaring, assigning, branching,
    /// looping, or opening a block; a bare expression is evaluated for its
    /// effects and its value discarded.  A block's frame is popped on every
    /// exit, error included.  Running a `for` statement is refused: its
    /// grammar is recognized, its execution unsupported.
    pub fn run_expression(&mut self, expr: &Expr) -> (r: Result<(), RuntimeError>)
        requires
            old(self).wf(),
        ensures
            final(self).wf(),
            final(self).scopes@.len() == old(self).scopes@.len(),
            final(self).len == old(self).len,
            final(self).steps <= old(self).steps,
            output_extends(old(self).output@, final(self).output@),
            (*expr is Stmt && expr->Stmt_0 is PrintStmt && env_free(*expr->Stmt_0->PrintStmt_0))
                ==> final(self).scopes@ == old(self).scopes@ && (match spec_eval_pure(
                *expr->Stmt_0->PrintStmt_0,
            ) {
                Ok(v) => r is Ok && final(self).output@.len() == old(self).output@.len() + 1
                    && final(self).output@.last()@ == spec_print_text(v),
                Err(k) => r is Err && r->Err_0.kind == k && final(self).output@ == old(
                    self,
                ).output@,
            }),
            (*expr is Stmt && expr->Stmt_0 is ForStmt) ==> r is Err && r->Err_0.kind
                == RuntimeErrorKind::UnsupportedConstruct
                && final(self).output@ == old(self).output@
                && final(self).scopes@ == old(self).scopes@,
            (*expr is Stmt && expr->Stmt_0 is WhileStmt && env_free(*expr->Stmt_0->WhileStmt_0.0)
                && spec_eval_pure(*expr->Stmt_0->WhileStmt_0.0) is Ok && spec_truthy(
                spec_eval_pure(*expr->Stmt_0->WhileStmt_0.0)->Ok_0,
            ) == Some(false) && old(self).steps >= 1) ==> r is Ok
                && final(self).output@ == old(self).output@
                && final(self).scopes@ == old(self).scopes@,
            (*expr is Stmt && expr->Stmt_0 is IfStmt && pure_conds(expr->Stmt_0->IfStmt_0@)) ==> r
                is Ok && final(self).scopes@ == old(self).scopes@ && (match first_true(
                expr->Stmt_0->IfStmt_0@,
            ) {
                None => final(self).output@ == old(self).output@,
                Some(i) => final(self).output@.len() == old(self).output@.len() + 1
                    && final(self).output@.last()@ == print_line_of(*expr->Stmt_0->IfStmt_0@[i].1),
            }),
        decreases *expr, 1int,
    {
        proof {
            lemma_output_extends_refl(old(self).output@);
        }
        match expr {
            Expr::Stmt(statement) => {
                match statement {
                    Statement::PrintStmt(e) => {
                        proof {
                            assert(decreases_to!(*expr => *expr->Stmt_0->PrintStmt_0));
                        }
                        let output = match self.evaluate(e) {
                            Ok(t) => t,
                            Err(err) => {
                                proof {
                                    assert(output_extends(old(self).output@, self.output@));
                                }
                                return Err(err);
                            },
                        };
                        let line = output.print_text();
                        self.output.push(line);
                        proof {
                            assert(self.output@.subrange(0, old(self).output@.len() as int)
                                =~= old(self).output@);
                        }
                        Ok(())
                    },
                    Statement::DeclarationStmt(variable, value) => {
                        proof {
                            assert(decreases_to!(*expr => expr->Stmt_0->DeclarationStmt_1));
                        }
                        self.declare(variable, value)
                    },
                    Statement::AssignmentStmt(variable, value) => {
                        proof {
                            assert(decreases_to!(*expr => *expr->Stmt_0->AssignmentStmt_1));
                        }
                        match self.assign(variable, value) {
                            Ok(_) => Ok(()),
                            Err(e) => Err(e),
                        }
                    },
                    Statement::IfStmt(conditionals) => {
                        let mut i: usize = 0;
                        loop
                            invariant
                                i <= conditionals@.len(),
                                self.wf(),
                                self.scopes@.len() == old(self).scopes@.len(),
                                self.len == old(self).len,
                                self.steps <= old(self).steps,
                                self.output == old(self).output,
                                *expr == Expr::Stmt(Statement::IfStmt(*conditionals)),
                                pure_conds(conditionals@) ==> self.scopes@ == old(self).scopes@
                                    && (forall|j: int|
                                    0 <= j < i ==> !cond_truthy(#[trigger] conditionals@[j])),
                            decreases conditionals@.len() - i,
                        {
                            proof {
                                lemma_output_extends_refl(old(self).output@);
                            }
                            if i >= conditionals.len() {
                                proof {
                                    if pure_conds(conditionals@) {
                                        lemma_first_true_none(conditionals@);
                                    }
                                }
                                return Ok(());
                            }
                            proof {
                                assert(decreases_to!(*expr => expr->Stmt_0->IfStmt_0));
                                assert(expr->Stmt_0->IfStmt_0 == *conditionals);
                                assert(decreases_to!(*conditionals => conditionals@));
                                assert(decreases_to!(conditionals@ => conditionals@[i as int]));
                                assert(decreases_to!(*expr => conditionals@[i as int]));
                            }
                            let c = &conditionals[i];
                            proof {
                                if pure_conds(conditionals@) {
                                    assert(pure_cond(conditionals@[i as int]));
                                }
                            }
                            let condition = match self.evaluate(&c.0) {
                                Ok(t) => t,
                                Err(e) => {
                                    return Err(e);
                                },
                            };
                            let b = match get_bool(&condition) {
                                Ok(b) => b,
                                Err(e) => {
                                    return Err(e);
                                },
                            };
                            if b {
                                proof {
                                    if pure_conds(conditionals@) {
                                        lemma_first_true_at(conditionals@, i as int);
                                        assert(pure_print(*conditionals@[i as int].1));
                                    }
                                }
                                return self.run_expression(&c.1);
                            }
                            i = i + 1;
                        }
                    },
                    Statement::WhileStmt(conditional) => {
                        proof {
                            assert(decreases_to!(*expr => expr->Stmt_0->WhileStmt_0));
                        }
                        loop
                            invariant
                                self.wf(),
                                self.scopes@.len() == old(self).scopes@.len(),
                                self.len == old(self).len,
                                self.steps <= old(self).steps,
                                output_extends(old(self).output@, self.output@),
                                *expr == Expr::Stmt(Statement::WhileStmt(*conditional)),
                                (env_free(*conditional.0) && spec_eval_pure(*conditional.0) is Ok
                                    && spec_truthy(spec_eval_pure(*conditional.0)->Ok_0) == Some(
                                    false,
                                )) ==> self.output@ == old(self).output@ && self.scopes@ == old(
                                    self,
                                ).scopes@ && self.steps == old(self).steps,
                            decreases self.steps,
                        {
                            if self.steps == 0 {
                                return Err(
                                    RuntimeError {
                                        kind: RuntimeErrorKind::IterationLimit,
                                        line: 0,
                                        name: String::new(),
                                    },
                                );
                            }
                            self.steps = self.steps - 1;
                            proof {
                                assert(decreases_to!(*expr => expr->Stmt_0->WhileStmt_0));
                            }
                            let condition = match self.evaluate(&conditional.0) {
                                Ok(t) => t,
                                Err(e) => {
                                    return Err(e);
                                },
                            };
                            let b = match get_bool(&condition) {
                                Ok(b) => b,
                                Err(e) => {
                                    return Err(e);
                                },
                            };
                            if !b {
                                return Ok(());
                            }
                            let ghost mid = self.output@;
                            match self.run_expression(&conditional.1) {
                                Ok(_) => {},
                                Err(e) => {
                                    proof {
                                        lemma_output_extends_trans(
                                            old(self).output@,
                                            mid,
                                            self.output@,
                                        );
                                    }
                                    return Err(e);
                                },
                            }
                            proof {
                                lemma_output_extends_trans(old(self).output@, mid, self.output@);
                            }
                        }
                    },
                    Statement::ForStmt(_init, _condition, _update, _body) => Err(
                        RuntimeError {
                            kind: RuntimeErrorKind::UnsupportedConstruct,
                            line: 0,
                            name: String::new(),
                        },
                    ),
                }
            },
            Expr::Scope(exprs) => {
                proof {
                    assert(decreases_to!(*expr => expr->Scope_0));
                }
                self.len = self.len + 1;
                self.scopes.push(Scope::new());
                let ghost mid0 = self.output@;
                let res = self.run(exprs);
                self.len = self.len - 1;
                let popped = self.scopes.pop();
                proof {
                    lemma_output_extends_trans(old(self).output@, mid0, self.output@);
                }
                match res {
                    Ok(_) => Ok(()),
                    Err(e) => Err(e),
                }
            },
            _ => {
                match self.evaluate(expr) {
                    Ok(_) => Ok(()),
                    Err(e) => Err(e),
                }
            },
        }
    }
}

/// Every output extends itself.
proof fn lemma_output_extends_refl(a: Seq<String>)
    ensures
        output_extends(a, a),
{
    assert(a.subrange(0, a.len() as int) =~= a);
}

/// Extending an output twice extends it once.
proof fn lemma_output_extends_trans(a: Seq<String>, b: Seq<String>, c: Seq<String>)
    requires
        output_extends(a, b),
        output_extends(b, c),
    ensures
        output_extends(a, c),
{
    assert(c.subrange(0, a.len() as int) =~= b.subrange(0, a.len() as int));
}

/// Scope shadowing: when the innermost frame binds a name, lookup answers
/// from that frame, whatever any outer frame holds of the same name; and
/// popping the frame uncovers the outer bindings again, unchanged.
pub proof fn lemma_shadowing(ss: Seq<Scope>, inner: Scope, name: Seq<char>)
    requires
        find_binding(inner.variables@, name) is Some,
    ensures
        lookup_frame(ss.push(inner), name) == Some(ss.len() as int),
        ss.push(inner).drop_last() == ss,
{
    assert(ss.push(inner).last() == inner);
    assert(ss.push(inner).drop_last() =~= ss);
}

/// A frame none of whose bindings carry `name` does not bind `name`.
proof fn lemma_no_match_no_binding(bs: Seq<Binding>, name: Seq<char>)
    requires
        forall|j: int| 0 <= j < bs.len() ==> #[trigger] bs[j].name@ != name,
    ensures
        find_binding(bs, name) is None,
    decreases bs,
{
    if bs.len() > 0 {
        assert(bs[0].name@ != name);
        assert forall|j: int| 0 <= j < bs.drop_first().len() implies #[trigger] bs.drop_first()[j].name@
            != name by {
            assert(bs.drop_first()[j] == bs[j + 1]);
        }
        lemma_no_match_no_binding(bs.drop_first(), name);
    }
}

} // verus!
