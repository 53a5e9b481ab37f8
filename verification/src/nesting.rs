//! Static nesting: how many frames a place in a program has around it, and
//! the proof that resolution gives no local address more parent links than
//! that.

use crate::ast::{Binop, ExpressionView, FunctionDeclView, ProgramView, StatementView, VariableView};
use crate::scoping::{
    block_scope, capture, function_scope, law_lookup_is_innermost_declaration, lookup, placeholder,
    resolve_expression, resolve_expressions, resolve_function, resolve_optional, resolve_program,
    resolve_references, resolve_statement, resolve_statements, ResolverView, ScopeView,
};
use vstd::prelude::*;

verus! {

/// A reference that can be followed where `depth` frames are around it: a
/// local address has fewer parent links than that.
pub open spec fn variable_reaches(v: VariableView, depth: nat) -> bool {
    v is Scoped ==> v->Scoped_0 < depth
}

/// The same of every reference of a list.
pub open spec fn variables_reach(list: Seq<VariableView>, depth: nat) -> bool {
    forall|i: int| 0 <= i < list.len() ==> variable_reaches(#[trigger] list[i], depth)
}

/// The same of every expression of a list.
pub open spec fn expressions_reach(list: Seq<ExpressionView>, depth: nat) -> bool
    decreases list,
{
    forall|i: int| 0 <= i < list.len() ==> (#[trigger] list[i]).reaches(depth)
}

/// The same of every statement of a list.
pub open spec fn statements_reach(list: Seq<StatementView>, depth: nat) -> bool
    decreases list,
{
    forall|i: int| 0 <= i < list.len() ==> (#[trigger] list[i]).reaches(depth)
}

impl ExpressionView {
    /// Every local address of the expression can be followed where `depth`
    /// frames are around the expression.
    pub open spec fn reaches(self, depth: nat) -> bool
        decreases self,
    {
        match self {
            ExpressionView::Literal(_) => true,
            ExpressionView::Binop(_, lhs, rhs) => lhs.reaches(depth) && rhs.reaches(depth),
            ExpressionView::Variable(v) => variable_reaches(v, depth),
            ExpressionView::Call(callee, args) => callee.reaches(depth) && expressions_reach(
                args,
                depth,
            ),
        }
    }
}

/// The same of an optional expression.
pub open spec fn optional_reaches(e: Option<ExpressionView>, depth: nat) -> bool {
    e is Some ==> e->0.reaches(depth)
}

impl FunctionDeclView {
    /// The binding and the upvalues can be followed where `depth` frames are
    /// around the declaration, and every local address of the body where
    /// the frames of a call of the function are around it: one frame for the
    /// body, and one more for each block.
    pub open spec fn reaches(self, depth: nat) -> bool
        decreases self,
    {
        &&& variable_reaches(self.binding, depth)
        &&& variables_reach(self.upvalues, depth)
        &&& statements_reach(self.body, 1)
    }
}

impl StatementView {
    /// Every local address of the statement can be followed where `depth`
    /// frames are around the statement. A block adds a frame; a function body
    /// starts with one frame.
    pub open spec fn reaches(self, depth: nat) -> bool
        decreases self,
    {
        match self {
            StatementView::Print(e) => e.reaches(depth),
            StatementView::Expression(e) => e.reaches(depth),
            StatementView::Var(v, init) => {
                &&& variable_reaches(v, depth)
                &&& init is Some ==> init->0.reaches(depth)
            },
            StatementView::Fun(decl) => decl.reaches(depth),
            StatementView::Return(e) => e is Some ==> e->0.reaches(depth),
            StatementView::Block(body) => statements_reach(body, depth + 1),
            StatementView::While(cond, body) => cond.reaches(depth) && body.reaches(depth),
            StatementView::If(cond, then, otherwise) => {
                &&& cond.reaches(depth)
                &&& then.reaches(depth)
                &&& otherwise is Some ==> otherwise->0.reaches(depth)
            },
        }
    }
}

impl ProgramView {
    /// Every local address of the program can be followed: the top level has
    /// no frame around it.
    pub open spec fn reaches(self) -> bool {
        statements_reach(self.statements, 0)
    }
}

/// The frames that the scopes of a resolver stand for: those of the
/// innermost function, one for its body and one for each block in it, or one
/// for each block at top level.
pub open spec fn frames_of(scopes: Seq<ScopeView>) -> nat
    decreases scopes.len(),
{
    if scopes.len() == 0 {
        0
    } else if scopes.last().function {
        1
    } else {
        frames_of(scopes.drop_last()) + 1
    }
}

/// Two stacks of scopes of one shape: as many scopes, and function scopes at
/// the same places.
pub open spec fn same_shape(a: Seq<ScopeView>, b: Seq<ScopeView>) -> bool {
    &&& a.len() == b.len()
    &&& forall|k: int| 0 <= k < a.len() ==> (#[trigger] a[k]).function == b[k].function
}

/// The upvalues that each function scope lists can be followed where the
/// function is declared.
pub open spec fn scopes_reach(scopes: Seq<ScopeView>) -> bool {
    forall|f: int|
        0 <= f < scopes.len() ==> variables_reach(
            (#[trigger] scopes[f]).upvalues,
            frames_of(scopes.take(f)),
        )
}

/// Stacks of one shape stand for as many frames, and so do their parts.
pub proof fn lemma_frames_of_shape(a: Seq<ScopeView>, b: Seq<ScopeView>, n: int)
    requires
        same_shape(a, b),
        0 <= n <= a.len(),
    ensures
        frames_of(a.take(n)) == frames_of(b.take(n)),
    decreases n,
{
    if n > 0 {
        assert(a.take(n).last() == a[n - 1]);
        assert(b.take(n).last() == b[n - 1]);
        assert(a.take(n).drop_last() =~= a.take(n - 1));
        assert(b.take(n).drop_last() =~= b.take(n - 1));
        if !a[n - 1].function {
            lemma_frames_of_shape(a, b, n - 1);
        }
    }
}

/// What holds of the upvalues of one stack holds of those of a stack of the
/// same shape whose function scopes list upvalues that can be followed.
pub proof fn lemma_scopes_reach_shape(before: Seq<ScopeView>, after: Seq<ScopeView>)
    requires
        same_shape(before, after),
        forall|f: int|
            0 <= f < after.len() ==> variables_reach(
                (#[trigger] after[f]).upvalues,
                frames_of(before.take(f)),
            ),
    ensures
        scopes_reach(after),
{
    assert forall|f: int| 0 <= f < after.len() implies variables_reach(
        (#[trigger] after[f]).upvalues,
        frames_of(after.take(f)),
    ) by {
        lemma_frames_of_shape(before, after, f);
    }
}

/// A stack with a scope open stands for at least one frame.
pub proof fn lemma_frames_of_open(scopes: Seq<ScopeView>)
    requires
        scopes.len() > 0,
    ensures
        frames_of(scopes) >= 1,
{
}

/// Carrying an address inwards: if the address can be followed where it
/// starts, the address that arrives can be followed in the innermost scope,
/// and every upvalue that was registered on the way can be followed where
/// its function is declared.
pub proof fn lemma_capture_reaches(scopes: Seq<ScopeView>, level: int, given: VariableView)
    requires
        0 <= level <= scopes.len(),
        scopes_reach(scopes),
        variable_reaches(given, frames_of(scopes.take(level))),
    ensures
        same_shape(scopes, capture(scopes, level, given).0),
        scopes_reach(capture(scopes, level, given).0),
        variable_reaches(capture(scopes, level, given).1, frames_of(scopes)),
    decreases scopes.len() - level,
{
    if level >= scopes.len() {
        assert(scopes.take(level) =~= scopes);
    } else {
        let inner = scopes.take(level + 1);
        assert(inner.last() == scopes[level]);
        assert(inner.drop_last() =~= scopes.take(level));
        if scopes[level].function {
            let scope = scopes[level];
            let next = scopes.update(
                level,
                ScopeView { upvalues: scope.upvalues.push(given), ..scope },
            );
            assert(same_shape(scopes, next));
            assert forall|f: int| 0 <= f < next.len() implies variables_reach(
                (#[trigger] next[f]).upvalues,
                frames_of(scopes.take(f)),
            ) by {
                if f == level {
                    assert(variables_reach(scopes[level].upvalues, frames_of(scopes.take(level))));
                    assert forall|i: int| 0 <= i < next[f].upvalues.len() implies variable_reaches(
                        #[trigger] next[f].upvalues[i],
                        frames_of(scopes.take(f)),
                    ) by {
                        if i < scope.upvalues.len() {
                            assert(variable_reaches(
                                scope.upvalues[i],
                                frames_of(scopes.take(level)),
                            ));
                        }
                    }
                } else {
                    assert(variables_reach(scopes[f].upvalues, frames_of(scopes.take(f))));
                }
            }
            lemma_scopes_reach_shape(scopes, next);
            let carried = VariableView::Closure(scope.upvalues.len());
            lemma_capture_reaches(next, level + 1, carried);
            let after = capture(next, level + 1, carried).0;
            lemma_frames_of_shape(scopes, next, scopes.len() as int);
            assert(scopes.take(scopes.len() as int) =~= scopes);
            assert(next.take(next.len() as int) =~= next);
            assert forall|k: int| 0 <= k < scopes.len() implies (#[trigger] scopes[k]).function
                == after[k].function by {
                assert(next[k].function == after[k].function);
            }
        } else {
            let carried = match given {
                VariableView::Scoped(depth, slot) => VariableView::Scoped(depth + 1, slot),
                other => other,
            };
            lemma_capture_reaches(scopes, level + 1, carried);
        }
    }
}

/// Resolving a use: the address can be followed where the use stands.
pub proof fn lemma_resolve_reaches(st: ResolverView, name: Seq<char>)
    requires
        scopes_reach(st.scopes),
    ensures
        same_shape(st.scopes, st.resolve(name).0.scopes),
        scopes_reach(st.resolve(name).0.scopes),
        variable_reaches(st.resolve(name).1, frames_of(st.scopes)),
{
    if let Some((pos, slot)) = lookup(st.scopes, name) {
        law_lookup_is_innermost_declaration(st.scopes, name);
        let home = st.scopes.len() - 1 - pos;
        lemma_frames_of_open(st.scopes.take(home + 1));
        lemma_capture_reaches(st.scopes, home + 1, VariableView::Scoped(0, slot));
    }
}

/// A reference at a use site or at a declaration: what comes out can be
/// followed if what went in, where it was an address already, could.
pub proof fn lemma_reference_reaches(st: ResolverView, v: VariableView)
    requires
        scopes_reach(st.scopes),
        variable_reaches(v, frames_of(st.scopes)),
    ensures
        same_shape(st.scopes, st.reference(v).0.scopes),
        scopes_reach(st.reference(v).0.scopes),
        variable_reaches(st.reference(v).1, frames_of(st.scopes)),
        same_shape(st.scopes, st.binding(v).0.scopes),
        scopes_reach(st.binding(v).0.scopes),
        variable_reaches(st.binding(v).1, frames_of(st.scopes)),
{
    if let VariableView::Unresolved(name) = v {
        lemma_resolve_reaches(st, name);
        if st.scopes.len() > 0 {
            let after = st.declare(name).0.scopes;
            assert(same_shape(st.scopes, after));
            assert forall|f: int| 0 <= f < after.len() implies variables_reach(
                (#[trigger] after[f]).upvalues,
                frames_of(st.scopes.take(f)),
            ) by {
                assert(variables_reach(st.scopes[f].upvalues, frames_of(st.scopes.take(f))));
            }
            lemma_scopes_reach_shape(st.scopes, after);
        }
    }
}

/// The same of the first `n` references of a list.
pub proof fn lemma_references_reach(st: ResolverView, list: Seq<VariableView>, n: nat)
    requires
        scopes_reach(st.scopes),
        variables_reach(list, frames_of(st.scopes)),
        n <= list.len(),
    ensures
        same_shape(st.scopes, resolve_references(st, list, n).0.scopes),
        scopes_reach(resolve_references(st, list, n).0.scopes),
        variables_reach(resolve_references(st, list, n).1, frames_of(st.scopes)),
        resolve_references(st, list, n).1.len() == n,
    decreases n,
{
    if n > 0 {
        lemma_references_reach(st, list, (n - 1) as nat);
        let (st1, done) = resolve_references(st, list, (n - 1) as nat);
        lemma_same_frames(st.scopes, st1.scopes);
        lemma_reference_reaches(st1, list[n - 1]);
        let out = resolve_references(st, list, n).1;
        assert forall|i: int| 0 <= i < out.len() implies variable_reaches(
            #[trigger] out[i],
            frames_of(st.scopes),
        ) by {
            if i < done.len() {
                assert(variable_reaches(done[i], frames_of(st.scopes)));
            }
        }
    }
}

/// Stacks of one shape stand for as many frames.
pub proof fn lemma_same_frames(a: Seq<ScopeView>, b: Seq<ScopeView>)
    requires
        same_shape(a, b),
    ensures
        frames_of(a) == frames_of(b),
{
    lemma_frames_of_shape(a, b, a.len() as int);
    assert(a.take(a.len() as int) =~= a);
    assert(b.take(b.len() as int) =~= b);
}

/// An expression whose addresses can be followed is resolved to one whose
/// addresses can be followed.
pub proof fn lemma_expression_reaches(st: ResolverView, e: ExpressionView)
    requires
        scopes_reach(st.scopes),
        e.reaches(frames_of(st.scopes)),
    ensures
        same_shape(st.scopes, resolve_expression(st, e).0.scopes),
        scopes_reach(resolve_expression(st, e).0.scopes),
        resolve_expression(st, e).1.reaches(frames_of(st.scopes)),
    decreases e, 0nat,
{
    match e {
        ExpressionView::Literal(_) => {},
        ExpressionView::Variable(v) => {
            lemma_reference_reaches(st, v);
        },
        ExpressionView::Binop(op, lhs, rhs) => {
            if op == Binop::Assignment {
                lemma_expression_reaches(st, *rhs);
                let st1 = resolve_expression(st, *rhs).0;
                lemma_same_frames(st.scopes, st1.scopes);
                assert(lhs.reaches(frames_of(st.scopes)));
                let target = match *lhs {
                    ExpressionView::Variable(v) => {
                        lemma_reference_reaches(st1, v);
                        st1.reference(v).1
                    },
                    _ => placeholder(),
                };
                assert(ExpressionView::Variable(target).reaches(frames_of(st.scopes)));
            } else {
                lemma_expression_reaches(st, *lhs);
                let st1 = resolve_expression(st, *lhs).0;
                lemma_same_frames(st.scopes, st1.scopes);
                lemma_expression_reaches(st1, *rhs);
            }
        },
        ExpressionView::Call(callee, args) => {
            lemma_expression_reaches(st, *callee);
            let st1 = resolve_expression(st, *callee).0;
            lemma_same_frames(st.scopes, st1.scopes);
            lemma_expressions_reach(st1, args, args.len());
        },
    }
}

/// The same of the first `n` expressions of a list.
pub proof fn lemma_expressions_reach(st: ResolverView, list: Seq<ExpressionView>, n: nat)
    requires
        scopes_reach(st.scopes),
        expressions_reach(list, frames_of(st.scopes)),
        n <= list.len(),
    ensures
        same_shape(st.scopes, resolve_expressions(st, list, n).0.scopes),
        scopes_reach(resolve_expressions(st, list, n).0.scopes),
        expressions_reach(resolve_expressions(st, list, n).1, frames_of(st.scopes)),
        resolve_expressions(st, list, n).1.len() == n,
    decreases list, n,
{
    if n > 0 {
        lemma_expressions_reach(st, list, (n - 1) as nat);
        let (st1, done) = resolve_expressions(st, list, (n - 1) as nat);
        lemma_same_frames(st.scopes, st1.scopes);
        lemma_expression_reaches(st1, list[n - 1]);
        let out = resolve_expressions(st, list, n).1;
        assert forall|i: int| 0 <= i < out.len() implies (#[trigger] out[i]).reaches(
            frames_of(st.scopes),
        ) by {
            if i < done.len() {
                assert(done[i].reaches(frames_of(st.scopes)));
            }
        }
    }
}

/// The same of an optional expression.
pub proof fn lemma_optional_reaches(st: ResolverView, e: Option<ExpressionView>)
    requires
        scopes_reach(st.scopes),
        optional_reaches(e, frames_of(st.scopes)),
    ensures
        same_shape(st.scopes, resolve_optional(st, e).0.scopes),
        scopes_reach(resolve_optional(st, e).0.scopes),
        optional_reaches(resolve_optional(st, e).1, frames_of(st.scopes)),
    decreases e, 1nat,
{
    if let Some(e) = e {
        lemma_expression_reaches(st, e);
    }
}

/// Opening a scope: a block scope adds a frame, a function scope starts
/// with one frame; the upvalues that the scope lists must be such as can be
/// followed where it is opened.
pub proof fn lemma_enter_reaches(st: ResolverView, scope: ScopeView)
    requires
        scopes_reach(st.scopes),
        variables_reach(scope.upvalues, frames_of(st.scopes)),
    ensures
        scopes_reach(st.enter(scope).scopes),
        frames_of(st.enter(scope).scopes) == (if scope.function {
            1
        } else {
            frames_of(st.scopes) + 1
        }),
{
    let after = st.enter(scope).scopes;
    assert(after.drop_last() =~= st.scopes);
    assert forall|f: int| 0 <= f < after.len() implies variables_reach(
        (#[trigger] after[f]).upvalues,
        frames_of(after.take(f)),
    ) by {
        if f < st.scopes.len() {
            assert(after.take(f) =~= st.scopes.take(f));
            assert(variables_reach(st.scopes[f].upvalues, frames_of(st.scopes.take(f))));
        } else {
            assert(after.take(f) =~= st.scopes);
        }
    }
}

/// Closing the innermost scope: the scopes that stay are as they were
/// before it was opened, in shape, and the upvalues that the closed scope
/// lists can be followed where it was opened.
pub proof fn lemma_leave_reaches(before: Seq<ScopeView>, st: ResolverView)
    requires
        scopes_reach(st.scopes),
        st.scopes.len() == before.len() + 1,
        forall|k: int|
            0 <= k < before.len() ==> (#[trigger] before[k]).function == st.scopes[k].function,
    ensures
        same_shape(before, st.leave().scopes),
        scopes_reach(st.leave().scopes),
        variables_reach(st.scopes.last().upvalues, frames_of(before)),
{
    let after = st.leave().scopes;
    assert(after =~= st.scopes.take(before.len() as int));
    assert forall|f: int| 0 <= f < after.len() implies variables_reach(
        (#[trigger] after[f]).upvalues,
        frames_of(after.take(f)),
    ) by {
        assert(after.take(f) =~= st.scopes.take(f));
        assert(variables_reach(st.scopes[f].upvalues, frames_of(st.scopes.take(f))));
    }
    assert(variables_reach(
        st.scopes[before.len() as int].upvalues,
        frames_of(st.scopes.take(before.len() as int)),
    ));
    lemma_same_frames(before, after);
}

/// A function declaration whose addresses can be followed is resolved to
/// one whose addresses can be followed.
pub proof fn lemma_function_reaches(st: ResolverView, decl: FunctionDeclView)
    requires
        scopes_reach(st.scopes),
        decl.reaches(frames_of(st.scopes)),
    ensures
        same_shape(st.scopes, resolve_function(st, decl).0.scopes),
        scopes_reach(resolve_function(st, decl).0.scopes),
        resolve_function(st, decl).1.reaches(frames_of(st.scopes)),
    decreases decl, 0nat,
{
    let depth = frames_of(st.scopes);
    lemma_reference_reaches(st, decl.binding);
    let (st1, binding) = st.binding(decl.binding);
    lemma_same_frames(st.scopes, st1.scopes);
    lemma_references_reach(st1, decl.upvalues, decl.upvalues.len());
    let (st2, upvalues) = resolve_references(st1, decl.upvalues, decl.upvalues.len());
    lemma_same_frames(st1.scopes, st2.scopes);
    let scope = function_scope(decl.params, upvalues);
    let entered = st2.enter(scope);
    lemma_enter_reaches(st2, scope);
    lemma_statements_reach(entered, decl.body, decl.body.len());
    let (st3, body) = resolve_statements(entered, decl.body, decl.body.len());
    assert forall|k: int| 0 <= k < st2.scopes.len() implies (#[trigger] st2.scopes[k]).function
        == st3.scopes[k].function by {
        assert(entered.scopes[k] == st2.scopes[k]);
        assert(entered.scopes[k].function == st3.scopes[k].function);
    }
    lemma_leave_reaches(st2.scopes, st3);
    assert forall|k: int| 0 <= k < st.scopes.len() implies (#[trigger] st.scopes[k]).function
        == st3.leave().scopes[k].function by {
        assert(st.scopes[k].function == st1.scopes[k].function);
        assert(st1.scopes[k].function == st2.scopes[k].function);
        assert(st2.scopes[k].function == st3.leave().scopes[k].function);
    }
}

/// A statement whose addresses can be followed is resolved to one whose
/// addresses can be followed.
pub proof fn lemma_statement_reaches(st: ResolverView, s: StatementView)
    requires
        scopes_reach(st.scopes),
        s.reaches(frames_of(st.scopes)),
    ensures
        same_shape(st.scopes, resolve_statement(st, s).0.scopes),
        scopes_reach(resolve_statement(st, s).0.scopes),
        resolve_statement(st, s).1.reaches(frames_of(st.scopes)),
    decreases s, 0nat,
{
    match s {
        StatementView::Print(e) => {
            lemma_expression_reaches(st, e);
        },
        StatementView::Expression(e) => {
            lemma_expression_reaches(st, e);
        },
        StatementView::Var(v, init) => {
            lemma_optional_reaches(st, init);
            let st1 = resolve_optional(st, init).0;
            lemma_same_frames(st.scopes, st1.scopes);
            lemma_reference_reaches(st1, v);
            let st2 = st1.binding(v).0;
            assert forall|k: int| 0 <= k < st.scopes.len() implies
                (#[trigger] st.scopes[k]).function
                == st2.scopes[k].function by {
                assert(st.scopes[k].function == st1.scopes[k].function);
            }
        },
        StatementView::Fun(decl) => {
            lemma_function_reaches(st, decl);
        },
        StatementView::Return(e) => {
            lemma_optional_reaches(st, e);
        },
        StatementView::Block(body) => {
            let entered = st.enter(block_scope());
            lemma_enter_reaches(st, block_scope());
            lemma_statements_reach(entered, body, body.len());
            let st1 = resolve_statements(entered, body, body.len()).0;
            assert forall|k: int| 0 <= k < st.scopes.len() implies
                (#[trigger] st.scopes[k]).function
                == st1.scopes[k].function by {
                assert(entered.scopes[k] == st.scopes[k]);
                assert(entered.scopes[k].function == st1.scopes[k].function);
            }
            lemma_leave_reaches(st.scopes, st1);
        },
        StatementView::While(cond, body) => {
            lemma_expression_reaches(st, cond);
            let st1 = resolve_expression(st, cond).0;
            lemma_same_frames(st.scopes, st1.scopes);
            lemma_statement_reaches(st1, *body);
            let st2 = resolve_statement(st1, *body).0;
            assert forall|k: int| 0 <= k < st.scopes.len() implies
                (#[trigger] st.scopes[k]).function
                == st2.scopes[k].function by {
                assert(st.scopes[k].function == st1.scopes[k].function);
            }
        },
        StatementView::If(cond, then, otherwise) => {
            lemma_expression_reaches(st, cond);
            let st1 = resolve_expression(st, cond).0;
            lemma_same_frames(st.scopes, st1.scopes);
            lemma_statement_reaches(st1, *then);
            let st2 = resolve_statement(st1, *then).0;
            assert forall|k: int| 0 <= k < st.scopes.len() implies
                (#[trigger] st.scopes[k]).function
                == st2.scopes[k].function by {
                assert(st.scopes[k].function == st1.scopes[k].function);
            }
            lemma_same_frames(st.scopes, st2.scopes);
            if let Some(s) = otherwise {
                lemma_statement_reaches(st2, *s);
                let st3 = resolve_statement(st2, *s).0;
                assert forall|k: int| 0 <= k < st.scopes.len() implies
                    (#[trigger] st.scopes[k]).function
                    == st3.scopes[k].function by {
                    assert(st.scopes[k].function == st2.scopes[k].function);
                }
            }
        },
    }
}

/// The same of the first `n` statements of a list.
pub proof fn lemma_statements_reach(st: ResolverView, list: Seq<StatementView>, n: nat)
    requires
        scopes_reach(st.scopes),
        statements_reach(list, frames_of(st.scopes)),
        n <= list.len(),
    ensures
        same_shape(st.scopes, resolve_statements(st, list, n).0.scopes),
        scopes_reach(resolve_statements(st, list, n).0.scopes),
        statements_reach(resolve_statements(st, list, n).1, frames_of(st.scopes)),
        resolve_statements(st, list, n).1.len() == n,
    decreases list, n,
{
    if n > 0 {
        lemma_statements_reach(st, list, (n - 1) as nat);
        let (st1, done) = resolve_statements(st, list, (n - 1) as nat);
        lemma_same_frames(st.scopes, st1.scopes);
        lemma_statement_reaches(st1, list[n - 1]);
        let (st2, out) = resolve_statements(st, list, n);
        assert forall|k: int| 0 <= k < st.scopes.len() implies (#[trigger] st.scopes[k]).function
            == st2.scopes[k].function by {
            assert(st.scopes[k].function == st1.scopes[k].function);
        }
        assert forall|i: int| 0 <= i < out.len() implies (#[trigger] out[i]).reaches(
            frames_of(st.scopes),
        ) by {
            if i < done.len() {
                assert(done[i].reaches(frames_of(st.scopes)));
            }
        }
    }
}

/// Resolution mirrors the nesting of the program: every local address that
/// it assigns has fewer parent links than there are frames around the place
/// where it stands, and every upvalue that it records can be followed where
/// its function is declared. The program that goes in may hold addresses
/// already, if they can be followed; a program as the parser leaves it holds
/// none.
pub proof fn law_resolution_mirrors_nesting(st: ResolverView, program: ProgramView)
    requires
        program.reaches(),
    ensures
        resolve_program(st, program).1.reaches(),
{
    lemma_statements_reach(st.fresh(), program.statements, program.statements.len());
}

} // verus!
