//! Static capture: how many upvalues the function around a place in a
//! program has, and the proof that resolution gives no capture an index
//! beyond them.

use crate::ast::{Binop, ExpressionView, FunctionDeclView, ProgramView, StatementView, VariableView};
use crate::nesting::same_shape;
use crate::scoping::{
    block_scope, capture, function_scope, law_lookup_is_innermost_declaration,
    law_resolution_leaves_no_bare_name, lookup, placeholder, resolve_expression,
    resolve_expressions, resolve_function, resolve_optional, resolve_program, resolve_references,
    resolve_statement, resolve_statements, ResolverView, ScopeView,
};
use vstd::prelude::*;

verus! {

/// A reference that can be followed where the function around it has
/// `captured` upvalues: a capture has an index below that.
pub open spec fn variable_captured(v: VariableView, captured: nat) -> bool {
    v is Closure ==> v->Closure_0 < captured
}

/// The same of every reference of a list.
pub open spec fn variables_captured(list: Seq<VariableView>, captured: nat) -> bool {
    forall|i: int| 0 <= i < list.len() ==> variable_captured(#[trigger] list[i], captured)
}

/// The same of every expression of a list.
pub open spec fn expressions_captured(list: Seq<ExpressionView>, captured: nat) -> bool
    decreases list,
{
    forall|i: int| 0 <= i < list.len() ==> (#[trigger] list[i]).captured(captured)
}

/// The same of every statement of a list.
pub open spec fn statements_captured(list: Seq<StatementView>, captured: nat) -> bool
    decreases list,
{
    forall|i: int| 0 <= i < list.len() ==> (#[trigger] list[i]).captured(captured)
}

/// The same of an optional expression.
pub open spec fn optional_captured(e: Option<ExpressionView>, captured: nat) -> bool {
    e is Some ==> e->0.captured(captured)
}

impl ExpressionView {
    /// Every capture of the expression has an index below `captured`.
    pub open spec fn captured(self, captured: nat) -> bool
        decreases self,
    {
        match self {
            ExpressionView::Literal(_) => true,
            ExpressionView::Binop(_, lhs, rhs) => lhs.captured(captured) && rhs.captured(captured),
            ExpressionView::Variable(v) => variable_captured(v, captured),
            ExpressionView::Call(callee, args) => callee.captured(captured)
                && expressions_captured(args, captured),
        }
    }
}

impl FunctionDeclView {
    /// The binding and the upvalues are addresses where the declaration
    /// stands, in a function with `captured` upvalues; the body stands in the
    /// declared function, which has the upvalues that the declaration lists.
    pub open spec fn captured(self, captured: nat) -> bool
        decreases self,
    {
        &&& variable_captured(self.binding, captured)
        &&& variables_captured(self.upvalues, captured)
        &&& statements_captured(self.body, self.upvalues.len())
    }
}

impl StatementView {
    /// Every capture of the statement has an index below the number of
    /// upvalues of the function around it: `captured` for the statement
    /// itself, and for the body of a function that it declares the number
    /// of upvalues of that function.
    pub open spec fn captured(self, captured: nat) -> bool
        decreases self,
    {
        match self {
            StatementView::Print(e) => e.captured(captured),
            StatementView::Expression(e) => e.captured(captured),
            StatementView::Var(v, init) => {
                &&& variable_captured(v, captured)
                &&& init is Some ==> init->0.captured(captured)
            },
            StatementView::Fun(decl) => decl.captured(captured),
            StatementView::Return(e) => e is Some ==> e->0.captured(captured),
            StatementView::Block(body) => statements_captured(body, captured),
            StatementView::While(cond, body) => cond.captured(captured) && body.captured(captured),
            StatementView::If(cond, then, otherwise) => {
                &&& cond.captured(captured)
                &&& then.captured(captured)
                &&& otherwise is Some ==> otherwise->0.captured(captured)
            },
        }
    }
}

impl ProgramView {
    /// Every capture of the program has an index below the number of
    /// upvalues of the function around it; the top level has none.
    pub open spec fn captured(self) -> bool {
        statements_captured(self.statements, 0)
    }
}

/// What can be followed with some upvalues can be followed with more.
pub proof fn lemma_expression_captured_more(e: ExpressionView, captured: nat, more: nat)
    requires
        e.captured(captured),
        captured <= more,
    ensures
        e.captured(more),
    decreases e,
{
    match e {
        ExpressionView::Binop(_, lhs, rhs) => {
            lemma_expression_captured_more(*lhs, captured, more);
            lemma_expression_captured_more(*rhs, captured, more);
        },
        ExpressionView::Call(callee, args) => {
            lemma_expression_captured_more(*callee, captured, more);
            assert(expressions_captured(args, captured));
            assert forall|i: int| 0 <= i < args.len() implies (#[trigger] args[i]).captured(
                more,
            ) by {
                lemma_expression_captured_more(args[i], captured, more);
            }
            assert(expressions_captured(args, more));
        },
        _ => {},
    }
}

/// The same of a list of expressions.
pub proof fn lemma_expressions_captured_more(list: Seq<ExpressionView>, captured: nat, more: nat)
    requires
        expressions_captured(list, captured),
        captured <= more,
    ensures
        expressions_captured(list, more),
{
    assert forall|i: int| 0 <= i < list.len() implies (#[trigger] list[i]).captured(more) by {
        lemma_expression_captured_more(list[i], captured, more);
    }
}

/// The same of a list of references.
pub proof fn lemma_variables_captured_more(list: Seq<VariableView>, captured: nat, more: nat)
    requires
        variables_captured(list, captured),
        captured <= more,
    ensures
        variables_captured(list, more),
{
    assert forall|i: int| 0 <= i < list.len() implies variable_captured(
        #[trigger] list[i],
        more,
    ) by {
        assert(variable_captured(list[i], captured));
    }
}

/// The same of a statement.
pub proof fn lemma_statement_captured_more(s: StatementView, captured: nat, more: nat)
    requires
        s.captured(captured),
        captured <= more,
    ensures
        s.captured(more),
    decreases s,
{
    match s {
        StatementView::Print(e) => {
            lemma_expression_captured_more(e, captured, more);
        },
        StatementView::Expression(e) => {
            lemma_expression_captured_more(e, captured, more);
        },
        StatementView::Var(v, init) => {
            if let Some(e) = init {
                lemma_expression_captured_more(e, captured, more);
            }
        },
        StatementView::Fun(decl) => {
            assert(decl.captured(captured));
            lemma_variables_captured_more(decl.upvalues, captured, more);
            assert(decl.captured(more));
        },
        StatementView::Return(e) => {
            if let Some(e) = e {
                lemma_expression_captured_more(e, captured, more);
            }
        },
        StatementView::Block(body) => {
            assert(statements_captured(body, captured));
            assert forall|i: int| 0 <= i < body.len() implies (#[trigger] body[i]).captured(
                more,
            ) by {
                lemma_statement_captured_more(body[i], captured, more);
            }
            assert(statements_captured(body, more));
        },
        StatementView::While(cond, body) => {
            lemma_expression_captured_more(cond, captured, more);
            lemma_statement_captured_more(*body, captured, more);
        },
        StatementView::If(cond, then, otherwise) => {
            lemma_expression_captured_more(cond, captured, more);
            lemma_statement_captured_more(*then, captured, more);
            if let Some(s) = otherwise {
                lemma_statement_captured_more(*s, captured, more);
            }
        },
    }
}

/// The upvalues of the function that the scopes of a resolver stand in: those
/// that the innermost function scope lists, and none at top level.
pub open spec fn captured_of(scopes: Seq<ScopeView>) -> nat
    decreases scopes.len(),
{
    if scopes.len() == 0 {
        0
    } else if scopes.last().function {
        scopes.last().upvalues.len()
    } else {
        captured_of(scopes.drop_last())
    }
}

/// A stack of scopes that grew out of another: of the same shape, and no
/// scope lists fewer upvalues.
pub open spec fn grown(before: Seq<ScopeView>, after: Seq<ScopeView>) -> bool {
    &&& same_shape(before, after)
    &&& forall|k: int|
        0 <= k < before.len() ==> (#[trigger] before[k]).upvalues.len() <= after[k].upvalues.len()
}

/// The upvalues that each function scope lists are addresses where the
/// function is declared.
pub open spec fn scopes_captured(scopes: Seq<ScopeView>) -> bool {
    forall|f: int|
        0 <= f < scopes.len() ==> variables_captured(
            (#[trigger] scopes[f]).upvalues,
            captured_of(scopes.take(f)),
        )
}

/// A stack that grew stands in a function with no fewer upvalues, and so do
/// its parts.
pub proof fn lemma_captured_of_grown(before: Seq<ScopeView>, after: Seq<ScopeView>, n: int)
    requires
        grown(before, after),
        0 <= n <= before.len(),
    ensures
        captured_of(before.take(n)) <= captured_of(after.take(n)),
    decreases n,
{
    if n > 0 {
        assert(before.take(n).last() == before[n - 1]);
        assert(after.take(n).last() == after[n - 1]);
        assert(before.take(n).drop_last() =~= before.take(n - 1));
        assert(after.take(n).drop_last() =~= after.take(n - 1));
        assert(before[n - 1].function == after[n - 1].function);
        if !before[n - 1].function {
            lemma_captured_of_grown(before, after, n - 1);
        }
    }
}

/// The same of the whole stacks.
pub proof fn lemma_captured_grown(before: Seq<ScopeView>, after: Seq<ScopeView>)
    requires
        grown(before, after),
    ensures
        captured_of(before) <= captured_of(after),
{
    lemma_captured_of_grown(before, after, before.len() as int);
    assert(before.take(before.len() as int) =~= before);
    assert(after.take(after.len() as int) =~= after);
}

/// Growing goes on: what grew out of a stack that grew out of another grew
/// out of that.
pub proof fn lemma_grown_trans(a: Seq<ScopeView>, b: Seq<ScopeView>, c: Seq<ScopeView>)
    requires
        grown(a, b),
        grown(b, c),
    ensures
        grown(a, c),
{
    assert forall|k: int| 0 <= k < a.len() implies (#[trigger] a[k]).function == c[k].function
        && a[k].upvalues.len() <= c[k].upvalues.len() by {
        assert(a[k].function == b[k].function);
        assert(b[k].function == c[k].function);
        assert(a[k].upvalues.len() <= b[k].upvalues.len());
        assert(b[k].upvalues.len() <= c[k].upvalues.len());
    }
}

/// A stack grew out of itself.
pub proof fn lemma_grown_refl(a: Seq<ScopeView>)
    ensures
        grown(a, a),
{
}

/// The upvalues of a stack are addresses if each is one with the upvalues
/// that a stack had out of which this one grew.
pub proof fn lemma_scopes_captured_grown(before: Seq<ScopeView>, after: Seq<ScopeView>)
    requires
        grown(before, after),
        forall|f: int|
            0 <= f < after.len() ==> variables_captured(
                (#[trigger] after[f]).upvalues,
                captured_of(before.take(f)),
            ),
    ensures
        scopes_captured(after),
{
    assert forall|f: int| 0 <= f < after.len() implies variables_captured(
        (#[trigger] after[f]).upvalues,
        captured_of(after.take(f)),
    ) by {
        lemma_captured_of_grown(before, after, f);
        lemma_variables_captured_more(
            after[f].upvalues,
            captured_of(before.take(f)),
            captured_of(after.take(f)),
        );
    }
}

/// Carrying an address inwards: if the address is one where it starts, the
/// address that arrives is one in the innermost scope, and every upvalue that
/// was registered on the way is one where its function is declared.
pub proof fn lemma_capture_captured(scopes: Seq<ScopeView>, level: int, given: VariableView)
    requires
        0 <= level <= scopes.len(),
        scopes_captured(scopes),
        variable_captured(given, captured_of(scopes.take(level))),
    ensures
        grown(scopes, capture(scopes, level, given).0),
        scopes_captured(capture(scopes, level, given).0),
        variable_captured(
            capture(scopes, level, given).1,
            captured_of(capture(scopes, level, given).0),
        ),
    decreases scopes.len() - level,
{
    if level >= scopes.len() {
        assert(scopes.take(level) =~= scopes);
    } else {
        let inner = scopes.take(level + 1);
        assert(inner.last() == scopes[level]);
        assert(inner.drop_last() =~= scopes.take(level));
        if scopes[level].function {
            let scope = scopes[level];
            let next = scopes.update(
                level,
                ScopeView { upvalues: scope.upvalues.push(given), ..scope },
            );
            assert(grown(scopes, next));
            assert forall|f: int| 0 <= f < next.len() implies variables_captured(
                (#[trigger] next[f]).upvalues,
                captured_of(scopes.take(f)),
            ) by {
                assert(variables_captured(scopes[f].upvalues, captured_of(scopes.take(f))));
                if f == level {
                    assert forall|i: int| 0 <= i < next[f].upvalues.len() implies variable_captured(
                        #[trigger] next[f].upvalues[i],
                        captured_of(scopes.take(f)),
                    ) by {
                        if i < scope.upvalues.len() {
                            assert(variable_captured(
                                scope.upvalues[i],
                                captured_of(scopes.take(level)),
                            ));
                        }
                    }
                }
            }
            lemma_scopes_captured_grown(scopes, next);
            let carried = VariableView::Closure(scope.upvalues.len());
            let reached = next.take(level + 1);
            assert(reached.last() == next[level]);
            assert(captured_of(reached) == scope.upvalues.len() + 1);
            lemma_capture_captured(next, level + 1, carried);
            lemma_grown_trans(scopes, next, capture(next, level + 1, carried).0);
        } else {
            let carried = match given {
                VariableView::Scoped(depth, slot) => VariableView::Scoped(depth + 1, slot),
                other => other,
            };
            lemma_capture_captured(scopes, level + 1, carried);
        }
    }
}

/// A reference at a use site or at a declaration: what comes out is an
/// address where it stands if what went in, where it was an address already,
/// was one.
pub proof fn lemma_reference_captured(st: ResolverView, v: VariableView)
    requires
        scopes_captured(st.scopes),
        variable_captured(v, captured_of(st.scopes)),
    ensures
        grown(st.scopes, st.reference(v).0.scopes),
        scopes_captured(st.reference(v).0.scopes),
        variable_captured(st.reference(v).1, captured_of(st.reference(v).0.scopes)),
        grown(st.scopes, st.binding(v).0.scopes),
        scopes_captured(st.binding(v).0.scopes),
        variable_captured(st.binding(v).1, captured_of(st.binding(v).0.scopes)),
{
    if let VariableView::Unresolved(name) = v {
        if let Some((pos, slot)) = lookup(st.scopes, name) {
            law_lookup_is_innermost_declaration(st.scopes, name);
            let home = st.scopes.len() - 1 - pos;
            lemma_capture_captured(st.scopes, home + 1, VariableView::Scoped(0, slot));
        }
        if st.scopes.len() > 0 {
            let after = st.declare(name).0.scopes;
            assert(grown(st.scopes, after));
            assert forall|f: int| 0 <= f < after.len() implies variables_captured(
                (#[trigger] after[f]).upvalues,
                captured_of(st.scopes.take(f)),
            ) by {
                assert(variables_captured(st.scopes[f].upvalues, captured_of(st.scopes.take(f))));
            }
            lemma_scopes_captured_grown(st.scopes, after);
        }
    }
}

/// The same of the first `n` references of a list.
pub proof fn lemma_references_captured(st: ResolverView, list: Seq<VariableView>, n: nat)
    requires
        scopes_captured(st.scopes),
        variables_captured(list, captured_of(st.scopes)),
        n <= list.len(),
    ensures
        grown(st.scopes, resolve_references(st, list, n).0.scopes),
        scopes_captured(resolve_references(st, list, n).0.scopes),
        variables_captured(
            resolve_references(st, list, n).1,
            captured_of(resolve_references(st, list, n).0.scopes),
        ),
        resolve_references(st, list, n).1.len() == n,
    decreases n,
{
    if n > 0 {
        lemma_references_captured(st, list, (n - 1) as nat);
        let (st1, done) = resolve_references(st, list, (n - 1) as nat);
        lemma_captured_grown(st.scopes, st1.scopes);
        assert(variable_captured(list[n - 1], captured_of(st.scopes)));
        lemma_reference_captured(st1, list[n - 1]);
        let (st2, out) = resolve_references(st, list, n);
        lemma_captured_grown(st1.scopes, st2.scopes);
        lemma_grown_trans(st.scopes, st1.scopes, st2.scopes);
        assert forall|i: int| 0 <= i < out.len() implies variable_captured(
            #[trigger] out[i],
            captured_of(st2.scopes),
        ) by {
            if i < done.len() {
                assert(variable_captured(done[i], captured_of(st1.scopes)));
            }
        }
    }
}

/// An expression whose captures are addresses is resolved to one whose
/// captures are addresses.
pub proof fn lemma_expression_captured(st: ResolverView, e: ExpressionView)
    requires
        scopes_captured(st.scopes),
        e.captured(captured_of(st.scopes)),
    ensures
        grown(st.scopes, resolve_expression(st, e).0.scopes),
        scopes_captured(resolve_expression(st, e).0.scopes),
        resolve_expression(st, e).1.captured(captured_of(resolve_expression(st, e).0.scopes)),
    decreases e, 0nat,
{
    match e {
        ExpressionView::Literal(_) => {},
        ExpressionView::Variable(v) => {
            lemma_reference_captured(st, v);
        },
        ExpressionView::Binop(op, lhs, rhs) => {
            if op == Binop::Assignment {
                lemma_expression_captured(st, *rhs);
                let (st1, rhs1) = resolve_expression(st, *rhs);
                lemma_captured_grown(st.scopes, st1.scopes);
                assert(lhs.captured(captured_of(st.scopes)));
                let (st2, target) = match *lhs {
                    ExpressionView::Variable(v) => {
                        lemma_reference_captured(st1, v);
                        st1.reference(v)
                    },
                    _ => (st1, placeholder()),
                };
                lemma_captured_grown(st1.scopes, st2.scopes);
                lemma_grown_trans(st.scopes, st1.scopes, st2.scopes);
                lemma_expression_captured_more(
                    rhs1,
                    captured_of(st1.scopes),
                    captured_of(st2.scopes),
                );
                assert(ExpressionView::Variable(target).captured(captured_of(st2.scopes)));
            } else {
                lemma_expression_captured(st, *lhs);
                let (st1, lhs1) = resolve_expression(st, *lhs);
                lemma_captured_grown(st.scopes, st1.scopes);
                lemma_expression_captured_more(
                    *rhs,
                    captured_of(st.scopes),
                    captured_of(st1.scopes),
                );
                lemma_expression_captured(st1, *rhs);
                let st2 = resolve_expression(st1, *rhs).0;
                lemma_captured_grown(st1.scopes, st2.scopes);
                lemma_grown_trans(st.scopes, st1.scopes, st2.scopes);
                lemma_expression_captured_more(
                    lhs1,
                    captured_of(st1.scopes),
                    captured_of(st2.scopes),
                );
            }
        },
        ExpressionView::Call(callee, args) => {
            lemma_expression_captured(st, *callee);
            let (st1, callee1) = resolve_expression(st, *callee);
            lemma_captured_grown(st.scopes, st1.scopes);
            lemma_expressions_captured_more(
                args,
                captured_of(st.scopes),
                captured_of(st1.scopes),
            );
            lemma_expressions_captured(st1, args, args.len());
            let st2 = resolve_expressions(st1, args, args.len()).0;
            lemma_captured_grown(st1.scopes, st2.scopes);
            lemma_grown_trans(st.scopes, st1.scopes, st2.scopes);
            lemma_expression_captured_more(
                callee1,
                captured_of(st1.scopes),
                captured_of(st2.scopes),
            );
        },
    }
}

/// The same of the first `n` expressions of a list.
pub proof fn lemma_expressions_captured(st: ResolverView, list: Seq<ExpressionView>, n: nat)
    requires
        scopes_captured(st.scopes),
        expressions_captured(list, captured_of(st.scopes)),
        n <= list.len(),
    ensures
        grown(st.scopes, resolve_expressions(st, list, n).0.scopes),
        scopes_captured(resolve_expressions(st, list, n).0.scopes),
        expressions_captured(
            resolve_expressions(st, list, n).1,
            captured_of(resolve_expressions(st, list, n).0.scopes),
        ),
        resolve_expressions(st, list, n).1.len() == n,
    decreases list, n,
{
    if n > 0 {
        lemma_expressions_captured(st, list, (n - 1) as nat);
        let (st1, done) = resolve_expressions(st, list, (n - 1) as nat);
        lemma_captured_grown(st.scopes, st1.scopes);
        lemma_expression_captured_more(
            list[n - 1],
            captured_of(st.scopes),
            captured_of(st1.scopes),
        );
        lemma_expression_captured(st1, list[n - 1]);
        let (st2, out) = resolve_expressions(st, list, n);
        lemma_captured_grown(st1.scopes, st2.scopes);
        lemma_grown_trans(st.scopes, st1.scopes, st2.scopes);
        assert forall|i: int| 0 <= i < out.len() implies (#[trigger] out[i]).captured(
            captured_of(st2.scopes),
        ) by {
            if i < done.len() {
                lemma_expression_captured_more(
                    done[i],
                    captured_of(st1.scopes),
                    captured_of(st2.scopes),
                );
            }
        }
    } else {
        lemma_grown_refl(st.scopes);
    }
}

/// The same of an optional expression.
pub proof fn lemma_optional_captured(st: ResolverView, e: Option<ExpressionView>)
    requires
        scopes_captured(st.scopes),
        optional_captured(e, captured_of(st.scopes)),
    ensures
        grown(st.scopes, resolve_optional(st, e).0.scopes),
        scopes_captured(resolve_optional(st, e).0.scopes),
        optional_captured(
            resolve_optional(st, e).1,
            captured_of(resolve_optional(st, e).0.scopes),
        ),
    decreases e, 1nat,
{
    if let Some(e) = e {
        lemma_expression_captured(st, e);
    }
}

/// Opening a scope whose upvalues are addresses where it is opened.
pub proof fn lemma_enter_captured(st: ResolverView, scope: ScopeView)
    requires
        scopes_captured(st.scopes),
        variables_captured(scope.upvalues, captured_of(st.scopes)),
    ensures
        scopes_captured(st.enter(scope).scopes),
        captured_of(st.enter(scope).scopes) == (if scope.function {
            scope.upvalues.len()
        } else {
            captured_of(st.scopes)
        }),
{
    let after = st.enter(scope).scopes;
    assert(after.drop_last() =~= st.scopes);
    assert forall|f: int| 0 <= f < after.len() implies variables_captured(
        (#[trigger] after[f]).upvalues,
        captured_of(after.take(f)),
    ) by {
        if f < st.scopes.len() {
            assert(after.take(f) =~= st.scopes.take(f));
            assert(variables_captured(st.scopes[f].upvalues, captured_of(st.scopes.take(f))));
        } else {
            assert(after.take(f) =~= st.scopes);
        }
    }
}

/// Closing the innermost scope: the scopes that stay grew out of those that
/// were there before it was opened, and the upvalues that the closed scope
/// lists are addresses where it was opened.
pub proof fn lemma_leave_captured(before: Seq<ScopeView>, st: ResolverView)
    requires
        scopes_captured(st.scopes),
        st.scopes.len() == before.len() + 1,
        forall|k: int|
            0 <= k < before.len() ==> (#[trigger] before[k]).function == st.scopes[k].function
                && before[k].upvalues.len() <= st.scopes[k].upvalues.len(),
    ensures
        grown(before, st.leave().scopes),
        scopes_captured(st.leave().scopes),
        variables_captured(st.scopes.last().upvalues, captured_of(st.leave().scopes)),
        !st.scopes.last().function ==> captured_of(st.leave().scopes) == captured_of(st.scopes),
{
    let after = st.leave().scopes;
    assert(after =~= st.scopes.take(before.len() as int));
    assert(after =~= st.scopes.drop_last());
    assert forall|f: int| 0 <= f < after.len() implies variables_captured(
        (#[trigger] after[f]).upvalues,
        captured_of(after.take(f)),
    ) by {
        assert(after.take(f) =~= st.scopes.take(f));
        assert(variables_captured(st.scopes[f].upvalues, captured_of(st.scopes.take(f))));
    }
    assert(variables_captured(
        st.scopes[before.len() as int].upvalues,
        captured_of(st.scopes.take(before.len() as int)),
    ));
}

/// A function declaration whose captures are addresses is resolved to one
/// whose captures are addresses.
pub proof fn lemma_function_captured(st: ResolverView, decl: FunctionDeclView)
    requires
        scopes_captured(st.scopes),
        decl.captured(captured_of(st.scopes)),
    ensures
        grown(st.scopes, resolve_function(st, decl).0.scopes),
        scopes_captured(resolve_function(st, decl).0.scopes),
        resolve_function(st, decl).1.captured(captured_of(resolve_function(st, decl).0.scopes)),
    decreases decl, 0nat,
{
    lemma_reference_captured(st, decl.binding);
    let (st1, binding) = st.binding(decl.binding);
    lemma_captured_grown(st.scopes, st1.scopes);
    lemma_variables_captured_more(
        decl.upvalues,
        captured_of(st.scopes),
        captured_of(st1.scopes),
    );
    lemma_references_captured(st1, decl.upvalues, decl.upvalues.len());
    let (st2, upvalues) = resolve_references(st1, decl.upvalues, decl.upvalues.len());
    lemma_captured_grown(st1.scopes, st2.scopes);
    lemma_grown_trans(st.scopes, st1.scopes, st2.scopes);
    let scope = function_scope(decl.params, upvalues);
    let entered = st2.enter(scope);
    lemma_enter_captured(st2, scope);
    lemma_statements_captured(entered, decl.body, decl.body.len());
    let (st3, body) = resolve_statements(entered, decl.body, decl.body.len());
    assert forall|k: int| 0 <= k < st2.scopes.len() implies (#[trigger] st2.scopes[k]).function
        == st3.scopes[k].function && st2.scopes[k].upvalues.len()
        <= st3.scopes[k].upvalues.len() by {
        assert(entered.scopes[k] == st2.scopes[k]);
        assert(entered.scopes[k].function == st3.scopes[k].function);
        assert(entered.scopes[k].upvalues.len() <= st3.scopes[k].upvalues.len());
    }
    lemma_leave_captured(st2.scopes, st3);
    let left = st3.leave();
    lemma_grown_trans(st.scopes, st2.scopes, left.scopes);
    lemma_captured_grown(st.scopes, left.scopes);
    lemma_captured_grown(st1.scopes, st2.scopes);
    lemma_captured_grown(st2.scopes, left.scopes);
    assert(st3.scopes.last().function);
    assert(captured_of(st3.scopes) == st3.scopes.last().upvalues.len());
}

/// A statement whose captures are addresses is resolved to one whose
/// captures are addresses.
pub proof fn lemma_statement_captured(st: ResolverView, s: StatementView)
    requires
        scopes_captured(st.scopes),
        s.captured(captured_of(st.scopes)),
    ensures
        grown(st.scopes, resolve_statement(st, s).0.scopes),
        scopes_captured(resolve_statement(st, s).0.scopes),
        resolve_statement(st, s).1.captured(captured_of(resolve_statement(st, s).0.scopes)),
    decreases s, 0nat,
{
    match s {
        StatementView::Print(e) => {
            lemma_expression_captured(st, e);
        },
        StatementView::Expression(e) => {
            lemma_expression_captured(st, e);
        },
        StatementView::Var(v, init) => {
            lemma_optional_captured(st, init);
            let (st1, init1) = resolve_optional(st, init);
            lemma_captured_grown(st.scopes, st1.scopes);
            lemma_reference_captured(st1, v);
            let st2 = st1.binding(v).0;
            lemma_captured_grown(st1.scopes, st2.scopes);
            lemma_grown_trans(st.scopes, st1.scopes, st2.scopes);
            if let Some(e) = init1 {
                lemma_expression_captured_more(
                    e,
                    captured_of(st1.scopes),
                    captured_of(st2.scopes),
                );
            }
        },
        StatementView::Fun(decl) => {
            lemma_function_captured(st, decl);
        },
        StatementView::Return(e) => {
            lemma_optional_captured(st, e);
        },
        StatementView::Block(body) => {
            let entered = st.enter(block_scope());
            lemma_enter_captured(st, block_scope());
            lemma_statements_captured(entered, body, body.len());
            let st1 = resolve_statements(entered, body, body.len()).0;
            assert forall|k: int| 0 <= k < st.scopes.len() implies
                (#[trigger] st.scopes[k]).function
                == st1.scopes[k].function && st.scopes[k].upvalues.len()
                <= st1.scopes[k].upvalues.len() by {
                assert(entered.scopes[k] == st.scopes[k]);
                assert(entered.scopes[k].function == st1.scopes[k].function);
                assert(entered.scopes[k].upvalues.len() <= st1.scopes[k].upvalues.len());
            }
            assert(!st1.scopes.last().function) by {
                assert(entered.scopes[st.scopes.len() as int].function
                    == st1.scopes[st.scopes.len() as int].function);
            }
            lemma_leave_captured(st.scopes, st1);
        },
        StatementView::While(cond, body) => {
            lemma_expression_captured(st, cond);
            let (st1, cond1) = resolve_expression(st, cond);
            lemma_captured_grown(st.scopes, st1.scopes);
            lemma_statement_captured_more(
                *body,
                captured_of(st.scopes),
                captured_of(st1.scopes),
            );
            lemma_statement_captured(st1, *body);
            let st2 = resolve_statement(st1, *body).0;
            lemma_captured_grown(st1.scopes, st2.scopes);
            lemma_grown_trans(st.scopes, st1.scopes, st2.scopes);
            lemma_expression_captured_more(
                cond1,
                captured_of(st1.scopes),
                captured_of(st2.scopes),
            );
        },
        StatementView::If(cond, then, otherwise) => {
            lemma_expression_captured(st, cond);
            let (st1, cond1) = resolve_expression(st, cond);
            lemma_captured_grown(st.scopes, st1.scopes);
            lemma_statement_captured_more(
                *then,
                captured_of(st.scopes),
                captured_of(st1.scopes),
            );
            lemma_statement_captured(st1, *then);
            let (st2, then1) = resolve_statement(st1, *then);
            lemma_captured_grown(st1.scopes, st2.scopes);
            lemma_grown_trans(st.scopes, st1.scopes, st2.scopes);
            lemma_captured_grown(st.scopes, st2.scopes);
            match otherwise {
                Some(s) => {
                    lemma_statement_captured_more(
                        *s,
                        captured_of(st.scopes),
                        captured_of(st2.scopes),
                    );
                    lemma_statement_captured(st2, *s);
                    let st3 = resolve_statement(st2, *s).0;
                    lemma_captured_grown(st2.scopes, st3.scopes);
                    lemma_grown_trans(st.scopes, st2.scopes, st3.scopes);
                    lemma_captured_grown(st1.scopes, st2.scopes);
                    lemma_expression_captured_more(
                        cond1,
                        captured_of(st1.scopes),
                        captured_of(st3.scopes),
                    );
                    lemma_statement_captured_more(
                        then1,
                        captured_of(st2.scopes),
                        captured_of(st3.scopes),
                    );
                },
                None => {
                    lemma_expression_captured_more(
                        cond1,
                        captured_of(st1.scopes),
                        captured_of(st2.scopes),
                    );
                },
            }
        },
    }
}

/// The same of the first `n` statements of a list.
pub proof fn lemma_statements_captured(st: ResolverView, list: Seq<StatementView>, n: nat)
    requires
        scopes_captured(st.scopes),
        statements_captured(list, captured_of(st.scopes)),
        n <= list.len(),
    ensures
        grown(st.scopes, resolve_statements(st, list, n).0.scopes),
        scopes_captured(resolve_statements(st, list, n).0.scopes),
        statements_captured(
            resolve_statements(st, list, n).1,
            captured_of(resolve_statements(st, list, n).0.scopes),
        ),
        resolve_statements(st, list, n).1.len() == n,
    decreases list, n,
{
    if n > 0 {
        lemma_statements_captured(st, list, (n - 1) as nat);
        let (st1, done) = resolve_statements(st, list, (n - 1) as nat);
        lemma_captured_grown(st.scopes, st1.scopes);
        lemma_statement_captured_more(
            list[n - 1],
            captured_of(st.scopes),
            captured_of(st1.scopes),
        );
        lemma_statement_captured(st1, list[n - 1]);
        let (st2, out) = resolve_statements(st, list, n);
        lemma_captured_grown(st1.scopes, st2.scopes);
        lemma_grown_trans(st.scopes, st1.scopes, st2.scopes);
        assert forall|i: int| 0 <= i < out.len() implies (#[trigger] out[i]).captured(
            captured_of(st2.scopes),
        ) by {
            if i < done.len() {
                lemma_statement_captured_more(
                    done[i],
                    captured_of(st1.scopes),
                    captured_of(st2.scopes),
                );
            }
        }
    } else {
        lemma_grown_refl(st.scopes);
    }
}

/// Resolution counts its captures: every capture that it assigns has an
/// index below the number of upvalues that it records for the function
/// around the capture, and every upvalue that it records is an address where
/// its function is declared. The program that goes in may hold captures
/// already, if they are within the upvalues that it lists; a program as the
/// parser leaves it holds none.
pub proof fn law_resolution_counts_captures(st: ResolverView, program: ProgramView)
    requires
        program.captured(),
    ensures
        resolve_program(st, program).1.captured(),
{
    lemma_statements_captured(st.fresh(), program.statements, program.statements.len());
    law_resolution_leaves_no_bare_name(st, program);
    let after = resolve_program(st, program).0.scopes;
    assert(after.len() == 0);
}

} // verus!
