//! The rules of static resolution, as mathematical functions from a resolver
//! state and a syntax tree to the next state and the rewritten tree.

use crate::ast::{
    Binop, expressions_resolved, ExpressionView, FunctionDeclView, ProgramView, statements_resolved,
    StatementView, variables_resolved, VariableView,
};
use vstd::prelude::*;

verus! {

/// What resolution can object to.
#[derive(Debug, PartialEq, Eq, Clone, Copy, Structural)]
pub enum ResolutionError {
    /// The left side of an assignment is not a variable.
    InvalidAssignmentTarget,
}

/// One lexical scope: the names declared in it, in declaration order, so that
/// a name's slot is its position. A function scope marks the boundary of a
/// function body and collects, as addresses in the declaring context, the
/// variables that the body captures.
pub ghost struct ScopeView {
    pub names: Seq<Seq<char>>,
    pub function: bool,
    pub upvalues: Seq<VariableView>,
}

/// The state of a resolver: the global names of the session, the stack of
/// open scopes (innermost last) and the errors collected so far.
pub ghost struct ResolverView {
    pub globals: Set<Seq<char>>,
    pub scopes: Seq<ScopeView>,
    pub errors: Seq<ResolutionError>,
}

/// The name that stands in for an assignment target that is no variable.
pub open spec fn placeholder() -> VariableView {
    VariableView::Global(Seq::empty())
}

/// The slot of the latest declaration of `name` among `names`.
pub open spec fn slot_of(names: Seq<Seq<char>>, name: Seq<char>) -> Option<nat>
    decreases names.len(),
{
    if names.len() == 0 {
        None
    } else if names.last() == name {
        Some((names.len() - 1) as nat)
    } else {
        slot_of(names.drop_last(), name)
    }
}

/// The innermost scope that declares `name`: how many scopes lie between it
/// and the innermost one, and the slot of the name in it.
pub open spec fn lookup(scopes: Seq<ScopeView>, name: Seq<char>) -> Option<(nat, nat)>
    decreases scopes.len(),
{
    if scopes.len() == 0 {
        None
    } else {
        match slot_of(scopes.last().names, name) {
            Some(slot) => Some((0, slot)),
            None => match lookup(scopes.drop_last(), name) {
                Some((pos, slot)) => Some((pos + 1, slot)),
                None => None,
            },
        }
    }
}

/// Carries an address inwards from the scope below `level` to the innermost
/// scope. Passing a block scope adds one parent link to a local address.
/// Passing a function scope registers the address as a new upvalue of that
/// function and continues with the upvalue's index.
pub open spec fn capture(scopes: Seq<ScopeView>, level: int, address: VariableView) -> (
    Seq<ScopeView>,
    VariableView,
)
    decreases scopes.len() - level,
{
    if level < 0 || level >= scopes.len() {
        (scopes, address)
    } else if scopes[level].function {
        let scope = scopes[level];
        capture(
            scopes.update(
                level,
                ScopeView { upvalues: scope.upvalues.push(address), ..scope },
            ),
            level + 1,
            VariableView::Closure(scope.upvalues.len()),
        )
    } else {
        capture(
            scopes,
            level + 1,
            match address {
                VariableView::Scoped(depth, slot) => VariableView::Scoped(depth + 1, slot),
                other => other,
            },
        )
    }
}

impl ResolverView {
    /// The state with `name` declared: at top level a global name, else the
    /// next slot of the innermost scope.
    pub open spec fn declare(self, name: Seq<char>) -> (ResolverView, VariableView) {
        if self.scopes.len() == 0 {
            (
                ResolverView { globals: self.globals.insert(name), ..self },
                VariableView::Global(name),
            )
        } else {
            let top = self.scopes.last();
            (
                ResolverView {
                    scopes: self.scopes.update(
                        self.scopes.len() - 1,
                        ScopeView { names: top.names.push(name), ..top },
                    ),
                    ..self
                },
                VariableView::Scoped(0, top.names.len()),
            )
        }
    }

    /// The address of a use of `name`: local where the declaring scope lies in
    /// the same function, captured where a function boundary lies between,
    /// global where no scope declares the name.
    pub open spec fn resolve(self, name: Seq<char>) -> (ResolverView, VariableView) {
        match lookup(self.scopes, name) {
            None => (self, VariableView::Global(name)),
            Some((pos, slot)) => {
                let home = self.scopes.len() - 1 - pos;
                let (scopes, address) = capture(
                    self.scopes,
                    home + 1,
                    VariableView::Scoped(0, slot),
                );
                (ResolverView { scopes, ..self }, address)
            },
        }
    }

    /// A reference at a use site: a bare name is resolved, an address stays.
    pub open spec fn reference(self, v: VariableView) -> (ResolverView, VariableView) {
        match v {
            VariableView::Unresolved(name) => self.resolve(name),
            _ => (self, v),
        }
    }

    /// A reference at a declaration: a bare name is declared, an address
    /// stays.
    pub open spec fn binding(self, v: VariableView) -> (ResolverView, VariableView) {
        match v {
            VariableView::Unresolved(name) => self.declare(name),
            _ => (self, v),
        }
    }

    /// The state with one more scope, innermost.
    pub open spec fn enter(self, scope: ScopeView) -> ResolverView {
        ResolverView { scopes: self.scopes.push(scope), ..self }
    }

    /// The state without its innermost scope, if one is open.
    pub open spec fn leave(self) -> ResolverView {
        if self.scopes.len() == 0 {
            self
        } else {
            ResolverView { scopes: self.scopes.drop_last(), ..self }
        }
    }

    /// The state with one more error.
    pub open spec fn blame(self, error: ResolutionError) -> ResolverView {
        ResolverView { errors: self.errors.push(error), ..self }
    }

    /// The state in which a program starts: the global names kept, no scope
    /// open, no error.
    pub open spec fn fresh(self) -> ResolverView {
        ResolverView { globals: self.globals, scopes: Seq::empty(), errors: Seq::empty() }
    }
}

/// An empty block scope.
pub open spec fn block_scope() -> ScopeView {
    ScopeView { names: Seq::empty(), function: false, upvalues: Seq::empty() }
}

/// The scope of a function body: the parameters in slots `0..arity`, and the
/// upvalues that the declaration already lists.
pub open spec fn function_scope(params: Seq<Seq<char>>, upvalues: Seq<VariableView>) -> ScopeView {
    ScopeView { names: params, function: true, upvalues }
}

/// Resolution of an expression, depth first and left to right. An assignment
/// resolves its right side first and then its target; a target that is no
/// variable is an error, and the placeholder stands in for it.
pub open spec fn resolve_expression(st: ResolverView, e: ExpressionView) -> (
    ResolverView,
    ExpressionView,
)
    decreases e, 0nat,
{
    match e {
        ExpressionView::Literal(_) => (st, e),
        ExpressionView::Variable(v) => {
            let (st1, v1) = st.reference(v);
            (st1, ExpressionView::Variable(v1))
        },
        ExpressionView::Binop(op, lhs, rhs) => {
            if op == Binop::Assignment {
                let (st1, rhs1) = resolve_expression(st, *rhs);
                let (st2, target) = match *lhs {
                    ExpressionView::Variable(v) => st1.reference(v),
                    _ => (st1.blame(ResolutionError::InvalidAssignmentTarget), placeholder()),
                };
                (
                    st2,
                    ExpressionView::Binop(
                        op,
                        Box::new(ExpressionView::Variable(target)),
                        Box::new(rhs1),
                    ),
                )
            } else {
                let (st1, lhs1) = resolve_expression(st, *lhs);
                let (st2, rhs1) = resolve_expression(st1, *rhs);
                (st2, ExpressionView::Binop(op, Box::new(lhs1), Box::new(rhs1)))
            }
        },
        ExpressionView::Call(callee, args) => {
            let (st1, callee1) = resolve_expression(st, *callee);
            let (st2, args1) = resolve_expressions(st1, args, args.len());
            (st2, ExpressionView::Call(Box::new(callee1), args1))
        },
    }
}

/// Resolution of the first `n` expressions of a list, in order.
pub open spec fn resolve_expressions(st: ResolverView, list: Seq<ExpressionView>, n: nat) -> (
    ResolverView,
    Seq<ExpressionView>,
)
    decreases list, n,
{
    if n == 0 || n > list.len() {
        (st, Seq::empty())
    } else {
        let (st1, done) = resolve_expressions(st, list, (n - 1) as nat);
        let (st2, e) = resolve_expression(st1, list[n - 1]);
        (st2, done.push(e))
    }
}

/// Resolution of an optional expression.
pub open spec fn resolve_optional(st: ResolverView, e: Option<ExpressionView>) -> (
    ResolverView,
    Option<ExpressionView>,
)
    decreases e, 1nat,
{
    match e {
        Some(e) => {
            let (st1, e1) = resolve_expression(st, e);
            (st1, Some(e1))
        },
        None => (st, None),
    }
}

/// Resolution, at use sites, of the first `n` references of a list, in order.
pub open spec fn resolve_references(st: ResolverView, list: Seq<VariableView>, n: nat) -> (
    ResolverView,
    Seq<VariableView>,
)
    decreases n,
{
    if n == 0 || n > list.len() {
        (st, Seq::empty())
    } else {
        let (st1, done) = resolve_references(st, list, (n - 1) as nat);
        let (st2, v) = st1.reference(list[n - 1]);
        (st2, done.push(v))
    }
}

/// Resolution of a function declaration: the name is declared first, so that
/// the body can refer to it; upvalues that the declaration already lists are
/// resolved where the declaration stands; the body is resolved in a function
/// scope that holds the parameters; the upvalues that the body registered are
/// recorded in the declaration, after those it listed.
pub open spec fn resolve_function(st: ResolverView, decl: FunctionDeclView) -> (
    ResolverView,
    FunctionDeclView,
)
    decreases decl, 0nat,
{
    let (st1, binding) = st.binding(decl.binding);
    let (st2, upvalues) = resolve_references(st1, decl.upvalues, decl.upvalues.len());
    let (st3, body) = resolve_statements(
        st2.enter(function_scope(decl.params, upvalues)),
        decl.body,
        decl.body.len(),
    );
    (
        st3.leave(),
        FunctionDeclView { binding, body, upvalues: st3.scopes.last().upvalues, ..decl },
    )
}

/// Resolution of a statement. A declaration resolves its initializer before
/// it declares its name. A block is resolved in a scope of its own.
pub open spec fn resolve_statement(st: ResolverView, s: StatementView) -> (
    ResolverView,
    StatementView,
)
    decreases s, 0nat,
{
    match s {
        StatementView::Print(e) => {
            let (st1, e1) = resolve_expression(st, e);
            (st1, StatementView::Print(e1))
        },
        StatementView::Expression(e) => {
            let (st1, e1) = resolve_expression(st, e);
            (st1, StatementView::Expression(e1))
        },
        StatementView::Var(v, init) => {
            let (st1, init1) = resolve_optional(st, init);
            let (st2, v1) = st1.binding(v);
            (st2, StatementView::Var(v1, init1))
        },
        StatementView::Fun(decl) => {
            let (st1, decl1) = resolve_function(st, decl);
            (st1, StatementView::Fun(decl1))
        },
        StatementView::Return(e) => {
            let (st1, e1) = resolve_optional(st, e);
            (st1, StatementView::Return(e1))
        },
        StatementView::Block(body) => {
            let (st1, body1) = resolve_statements(st.enter(block_scope()), body, body.len());
            (st1.leave(), StatementView::Block(body1))
        },
        StatementView::While(cond, body) => {
            let (st1, cond1) = resolve_expression(st, cond);
            let (st2, body1) = resolve_statement(st1, *body);
            (st2, StatementView::While(cond1, Box::new(body1)))
        },
        StatementView::If(cond, then, otherwise) => {
            let (st1, cond1) = resolve_expression(st, cond);
            let (st2, then1) = resolve_statement(st1, *then);
            match otherwise {
                Some(s) => {
                    let (st3, s1) = resolve_statement(st2, *s);
                    (st3, StatementView::If(cond1, Box::new(then1), Some(Box::new(s1))))
                },
                None => (st2, StatementView::If(cond1, Box::new(then1), None)),
            }
        },
    }
}

/// Resolution of the first `n` statements of a list, in order.
pub open spec fn resolve_statements(st: ResolverView, list: Seq<StatementView>, n: nat) -> (
    ResolverView,
    Seq<StatementView>,
)
    decreases list, n,
{
    if n == 0 || n > list.len() {
        (st, Seq::empty())
    } else {
        let (st1, done) = resolve_statements(st, list, (n - 1) as nat);
        let (st2, s) = resolve_statement(st1, list[n - 1]);
        (st2, done.push(s))
    }
}

/// Resolution of a program: its statements in order, from a fresh state.
pub open spec fn resolve_program(st: ResolverView, program: ProgramView) -> (
    ResolverView,
    ProgramView,
)
{
    let (st1, statements) = resolve_statements(
        st.fresh(),
        program.statements,
        program.statements.len(),
    );
    (st1, ProgramView { statements })
}

/// A slot is the latest declaration of its name: the name stands at the slot
/// and at no later slot, and a name that has no slot stands nowhere.
pub proof fn law_slot_is_latest_declaration(names: Seq<Seq<char>>, name: Seq<char>)
    ensures
        match slot_of(names, name) {
            Some(slot) => {
                &&& slot < names.len()
                &&& names[slot as int] == name
                &&& forall|j: int| slot < j < names.len() ==> names[j] != name
            },
            None => forall|j: int| 0 <= j < names.len() ==> names[j] != name,
        },
    decreases names.len(),
{
    if names.len() > 0 && names.last() != name {
        let earlier = names.drop_last();
        law_slot_is_latest_declaration(earlier, name);
        assert forall|j: int| 0 <= j < earlier.len() implies earlier[j] == names[j] by {}
        match slot_of(earlier, name) {
            Some(slot) => {
                assert forall|j: int| slot < j < names.len() implies names[j] != name by {
                    if j < earlier.len() {
                        assert(earlier[j] != name);
                    }
                }
            },
            None => {
                assert forall|j: int| 0 <= j < names.len() implies names[j] != name by {
                    if j < earlier.len() {
                        assert(earlier[j] != name);
                    }
                }
            },
        }
    }
}

/// Shadowing: a lookup finds the innermost scope that declares the name, and
/// in it the latest declaration. No scope further in declares the name, and a
/// name that is not found is declared in no scope.
pub proof fn law_lookup_is_innermost_declaration(scopes: Seq<ScopeView>, name: Seq<char>)
    ensures
        match lookup(scopes, name) {
            Some((pos, slot)) => {
                &&& pos < scopes.len()
                &&& slot_of(scopes[scopes.len() - 1 - pos].names, name) == Some(slot)
                &&& forall|k: int|
                    scopes.len() - 1 - pos < k < scopes.len() ==> slot_of(
                        (#[trigger] scopes[k]).names,
                        name,
                    ) is None
            },
            None => forall|k: int|
                0 <= k < scopes.len() ==> slot_of((#[trigger] scopes[k]).names, name) is None,
        },
    decreases scopes.len(),
{
    if scopes.len() > 0 && slot_of(scopes.last().names, name) is None {
        let outer = scopes.drop_last();
        law_lookup_is_innermost_declaration(outer, name);
        match lookup(outer, name) {
            Some((pos, slot)) => {
                assert(outer[outer.len() - 1 - pos] == scopes[scopes.len() - 1 - (pos + 1)]);
                assert forall|k: int| scopes.len() - 1 - (pos + 1) < k < scopes.len() implies
                    slot_of(
                    (#[trigger] scopes[k]).names,
                    name,
                ) is None by {
                    if k < outer.len() {
                        assert(outer[k] == scopes[k]);
                    }
                }
            },
            None => {
                assert forall|k: int| 0 <= k < scopes.len() implies slot_of(
                    (#[trigger] scopes[k]).names,
                    name,
                ) is None by {
                    if k < outer.len() {
                        assert(outer[k] == scopes[k]);
                    }
                }
            },
        }
    }
}

/// The innermost function scope at or above `level`, or `level - 1` if there
/// is none.
pub open spec fn innermost_function(scopes: Seq<ScopeView>, level: int) -> int
    decreases scopes.len() - level,
{
    if level < 0 || level >= scopes.len() {
        level - 1
    } else {
        let further = innermost_function(scopes, level + 1);
        if further > level {
            further
        } else if scopes[level].function {
            level
        } else {
            level - 1
        }
    }
}

/// Addressing modes: an address that is carried inwards through block scopes
/// only stays local and gains one parent link for each scope. An address that
/// is carried through a function boundary becomes a capture: it is the newest
/// upvalue of the innermost function that was crossed. No name is declared
/// on the way, and no scope is opened or closed.
pub proof fn law_capture_addresses(scopes: Seq<ScopeView>, level: int, depth: nat, slot: nat)
    requires
        0 <= level <= scopes.len(),
    ensures
        ({
            let (after, address) = capture(scopes, level, VariableView::Scoped(depth, slot));
            let f = innermost_function(scopes, level);
            &&& after.len() == scopes.len()
            &&& forall|k: int|
                0 <= k < scopes.len() ==> (#[trigger] after[k]).names == scopes[k].names
                    && after[k].function == scopes[k].function
            &&& f < level ==> after == scopes && address == VariableView::Scoped(
                (depth + scopes.len() - level) as nat,
                slot,
            )
            &&& f >= level ==> {
                &&& f < scopes.len()
                &&& scopes[f].function
                &&& address == VariableView::Closure(scopes[f].upvalues.len())
                &&& after[f].upvalues.len() == scopes[f].upvalues.len() + 1
            }
        }),
{
    lemma_capture_addresses(scopes, level, VariableView::Scoped(depth, slot));
    lemma_innermost_function(scopes, scopes, level);
    let after = capture(scopes, level, VariableView::Scoped(depth, slot)).0;
    if innermost_function(scopes, level) < level {
        assert(after =~= scopes);
    }
}

/// The same of any address that is carried inwards.
pub proof fn lemma_capture_addresses(scopes: Seq<ScopeView>, level: int, given: VariableView)
    requires
        0 <= level <= scopes.len(),
    ensures
        ({
            let (after, address) = capture(scopes, level, given);
            let f = innermost_function(scopes, level);
            &&& after.len() == scopes.len()
            &&& forall|k: int|
                0 <= k < scopes.len() ==> (#[trigger] after[k]).names == scopes[k].names
                    && after[k].function == scopes[k].function
            &&& forall|k: int| 0 <= k < level ==> (#[trigger] after[k]) == scopes[k]
            &&& forall|k: int|
                level <= k < scopes.len() && !scopes[k].function ==> (#[trigger] after[k])
                    == scopes[k]
            &&& forall|k: int|
                level <= k < scopes.len() && scopes[k].function ==> (#[trigger] after[k]).upvalues.len()
                    == scopes[k].upvalues.len() + 1
            &&& f < level ==> address == match given {
                VariableView::Scoped(depth, slot) => VariableView::Scoped(
                    (depth + scopes.len() - level) as nat,
                    slot,
                ),
                other => other,
            }
            &&& f >= level ==> {
                &&& f < scopes.len()
                &&& scopes[f].function
                &&& address == VariableView::Closure(scopes[f].upvalues.len())
            }
        }),
    decreases scopes.len() - level,
{
    if level < scopes.len() {
        let (next, carried) = if scopes[level].function {
            let scope = scopes[level];
            (
                scopes.update(level, ScopeView { upvalues: scope.upvalues.push(given), ..scope }),
                VariableView::Closure(scope.upvalues.len()),
            )
        } else {
            (
                scopes,
                match given {
                    VariableView::Scoped(depth, slot) => VariableView::Scoped(depth + 1, slot),
                    other => other,
                },
            )
        };
        lemma_capture_addresses(next, level + 1, carried);
        lemma_innermost_function(scopes, next, level + 1);
        let (after, address) = capture(scopes, level, given);
        assert((after, address) == capture(next, level + 1, carried));
        assert forall|k: int| 0 <= k < scopes.len() implies (#[trigger] after[k]).names
            == scopes[k].names && after[k].function == scopes[k].function by {
            assert(after[k].names == next[k].names);
        }
        assert forall|k: int| 0 <= k < level implies (#[trigger] after[k]) == scopes[k] by {
            assert(after[k] == next[k]);
        }
        assert forall|k: int|
            level <= k < scopes.len() && !scopes[k].function implies (#[trigger] after[k])
            == scopes[k] by {
            assert(after[k] == next[k]);
        }
        assert forall|k: int|
            level <= k < scopes.len() && scopes[k].function implies (#[trigger] after[k]).upvalues.len()
            == scopes[k].upvalues.len() + 1 by {
            if k == level {
                assert(after[k] == next[k]);
            } else {
                assert(after[k].upvalues.len() == next[k].upvalues.len() + 1);
            }
        }
    }
}

/// The three addressing modes: a name that no open scope declares is
/// global; a name whose innermost declaration lies in the function that uses
/// it is local, with one parent link for each scope between; a name whose
/// innermost declaration lies beyond a function boundary is captured, as the
/// newest upvalue of the function that uses it. Resolving a use declares
/// nothing and collects no error.
pub proof fn law_use_has_one_of_three_addresses(st: ResolverView, name: Seq<char>)
    ensures
        st.resolve(name).0.globals == st.globals,
        st.resolve(name).0.errors == st.errors,
        st.resolve(name).0.scopes.len() == st.scopes.len(),
        match lookup(st.scopes, name) {
            None => st.resolve(name) == (st, VariableView::Global(name)),
            Some((pos, slot)) => {
                let home = st.scopes.len() - 1 - pos;
                let f = innermost_function(st.scopes, home + 1);
                &&& 0 <= home < st.scopes.len()
                &&& f <= home ==> st.resolve(name) == (st, VariableView::Scoped(pos, slot))
                &&& f > home ==> {
                    &&& f < st.scopes.len()
                    &&& st.scopes[f].function
                    &&& st.resolve(name).1 == VariableView::Closure(st.scopes[f].upvalues.len())
                    &&& st.resolve(name).0.scopes[f].upvalues.len() == st.scopes[f].upvalues.len()
                        + 1
                }
            },
        },
{
    law_lookup_is_innermost_declaration(st.scopes, name);
    if let Some((pos, slot)) = lookup(st.scopes, name) {
        law_capture_addresses(st.scopes, st.scopes.len() - 1 - pos + 1, 0, slot);
    }
}

/// The innermost function scope depends on which scopes are function scopes,
/// and on nothing else.
pub proof fn lemma_innermost_function(a: Seq<ScopeView>, b: Seq<ScopeView>, level: int)
    requires
        a.len() == b.len(),
        forall|k: int| 0 <= k < a.len() ==> (#[trigger] a[k]).function == b[k].function,
    ensures
        innermost_function(a, level) == innermost_function(b, level),
        innermost_function(a, level) >= level - 1,
        innermost_function(a, level) < a.len() || level > a.len(),
        0 <= level <= innermost_function(a, level) ==> a[innermost_function(a, level)].function,
        innermost_function(a, level) < level ==> forall|k: int|
            0 <= level <= k < a.len() ==> !(#[trigger] a[k]).function,
    decreases a.len() - level,
{
    if 0 <= level < a.len() {
        lemma_innermost_function(a, b, level + 1);
        assert(a[level].function == b[level].function);
    }
}

/// The upvalues that the scopes of a stack list are all addresses.
pub open spec fn upvalues_resolved(scopes: Seq<ScopeView>) -> bool {
    forall|i: int| 0 <= i < scopes.len() ==> variables_resolved((#[trigger] scopes[i]).upvalues)
}

/// Carrying an address inwards keeps the number of scopes and registers
/// addresses only.
pub proof fn lemma_capture_resolved(scopes: Seq<ScopeView>, level: int, address: VariableView)
    requires
        upvalues_resolved(scopes),
        address.resolved(),
    ensures
        capture(scopes, level, address).0.len() == scopes.len(),
        upvalues_resolved(capture(scopes, level, address).0),
        capture(scopes, level, address).1.resolved(),
    decreases scopes.len() - level,
{
    if level < 0 || level >= scopes.len() {
    } else if scopes[level].function {
        let scope = scopes[level];
        let next = scopes.update(
            level,
            ScopeView { upvalues: scope.upvalues.push(address), ..scope },
        );
        assert(upvalues_resolved(next)) by {
            assert forall|i: int| 0 <= i < next.len() implies variables_resolved(
                (#[trigger] next[i]).upvalues,
            ) by {
                assert(variables_resolved(scopes[i].upvalues));
            }
        }
        lemma_capture_resolved(next, level + 1, VariableView::Closure(scope.upvalues.len()));
    } else {
        lemma_capture_resolved(
            scopes,
            level + 1,
            match address {
                VariableView::Scoped(depth, slot) => VariableView::Scoped(depth + 1, slot),
                other => other,
            },
        );
    }
}

/// A reference leaves resolution with an address, at a use site as at a
/// declaration.
pub proof fn lemma_reference_resolved(st: ResolverView, v: VariableView)
    requires
        upvalues_resolved(st.scopes),
    ensures
        st.reference(v).1.resolved(),
        st.reference(v).0.scopes.len() == st.scopes.len(),
        upvalues_resolved(st.reference(v).0.scopes),
        st.binding(v).1.resolved(),
        st.binding(v).0.scopes.len() == st.scopes.len(),
        upvalues_resolved(st.binding(v).0.scopes),
{
    if let VariableView::Unresolved(name) = v {
        if let Some((pos, slot)) = lookup(st.scopes, name) {
            lemma_capture_resolved(
                st.scopes,
                st.scopes.len() - 1 - pos + 1,
                VariableView::Scoped(0, slot),
            );
        }
        if st.scopes.len() > 0 {
            let after = st.declare(name).0.scopes;
            assert forall|i: int| 0 <= i < after.len() implies variables_resolved(
                (#[trigger] after[i]).upvalues,
            ) by {
                assert(variables_resolved(st.scopes[i].upvalues));
            }
        }
    }
}

/// The first `n` references of a list leave resolution with addresses.
pub proof fn lemma_references_resolved(st: ResolverView, list: Seq<VariableView>, n: nat)
    requires
        upvalues_resolved(st.scopes),
        n <= list.len(),
    ensures
        resolve_references(st, list, n).1.len() == n,
        variables_resolved(resolve_references(st, list, n).1),
        resolve_references(st, list, n).0.scopes.len() == st.scopes.len(),
        upvalues_resolved(resolve_references(st, list, n).0.scopes),
    decreases n,
{
    if n > 0 {
        lemma_references_resolved(st, list, (n - 1) as nat);
        lemma_reference_resolved(resolve_references(st, list, (n - 1) as nat).0, list[n - 1]);
    }
}

/// Whatever expression goes in, a resolved expression comes out; the number
/// of open scopes stays.
pub proof fn lemma_expression_resolved(st: ResolverView, e: ExpressionView)
    requires
        upvalues_resolved(st.scopes),
    ensures
        resolve_expression(st, e).1.resolved(),
        resolve_expression(st, e).0.scopes.len() == st.scopes.len(),
        upvalues_resolved(resolve_expression(st, e).0.scopes),
    decreases e, 0nat,
{
    match e {
        ExpressionView::Literal(_) => {
        },
        ExpressionView::Variable(v) => {
            lemma_reference_resolved(st, v);
        },
        ExpressionView::Binop(op, lhs, rhs) => {
            if op == Binop::Assignment {
                lemma_expression_resolved(st, *rhs);
                let st1 = resolve_expression(st, *rhs).0;
                let target = match *lhs {
                    ExpressionView::Variable(v) => {
                        lemma_reference_resolved(st1, v);
                        st1.reference(v).1
                    },
                    _ => placeholder(),
                };
                assert(ExpressionView::Variable(target).resolved());
                } else {
                lemma_expression_resolved(st, *lhs);
                lemma_expression_resolved(resolve_expression(st, *lhs).0, *rhs);
                }
        },
        ExpressionView::Call(callee, args) => {
            lemma_expression_resolved(st, *callee);
            lemma_expressions_resolved(resolve_expression(st, *callee).0, args, args.len());
        },
    }
}

/// The same of the first `n` expressions of a list, of which `n` come out.
pub proof fn lemma_expressions_resolved(st: ResolverView, list: Seq<ExpressionView>, n: nat)
    requires
        upvalues_resolved(st.scopes),
        n <= list.len(),
    ensures
        resolve_expressions(st, list, n).1.len() == n,
        expressions_resolved(resolve_expressions(st, list, n).1),
        resolve_expressions(st, list, n).0.scopes.len() == st.scopes.len(),
        upvalues_resolved(resolve_expressions(st, list, n).0.scopes),
    decreases list, n,
{
    if n > 0 {
        lemma_expressions_resolved(st, list, (n - 1) as nat);
        lemma_expression_resolved(resolve_expressions(st, list, (n - 1) as nat).0, list[n - 1]);
    }
}

/// The same of an optional expression.
pub proof fn lemma_optional_resolved(st: ResolverView, e: Option<ExpressionView>)
    requires
        upvalues_resolved(st.scopes),
    ensures
        resolve_optional(st, e).1 is Some ==> resolve_optional(st, e).1->0.resolved(),
        resolve_optional(st, e).0.scopes.len() == st.scopes.len(),
        upvalues_resolved(resolve_optional(st, e).0.scopes),
    decreases e, 1nat,
{
    if let Some(e) = e {
        lemma_expression_resolved(st, e);
    }
}

/// The same of a function declaration.
pub proof fn lemma_function_resolved(st: ResolverView, decl: FunctionDeclView)
    requires
        upvalues_resolved(st.scopes),
    ensures
        resolve_function(st, decl).1.resolved(),
        resolve_function(st, decl).0.scopes.len() == st.scopes.len(),
        upvalues_resolved(resolve_function(st, decl).0.scopes),
    decreases decl, 0nat,
{
    lemma_reference_resolved(st, decl.binding);
    let st1 = st.binding(decl.binding).0;
    lemma_references_resolved(st1, decl.upvalues, decl.upvalues.len());
    let (st2, upvalues) = resolve_references(st1, decl.upvalues, decl.upvalues.len());
    let inner = st2.enter(function_scope(decl.params, upvalues));
    assert(upvalues_resolved(inner.scopes)) by {
        assert forall|i: int| 0 <= i < inner.scopes.len() implies variables_resolved(
            (#[trigger] inner.scopes[i]).upvalues,
        ) by {
            if i < st2.scopes.len() {
                assert(variables_resolved(st2.scopes[i].upvalues));
            }
        }
    }
    lemma_statements_resolved(inner, decl.body, decl.body.len());
    let st3 = resolve_statements(inner, decl.body, decl.body.len()).0;
    assert(variables_resolved(st3.scopes[st3.scopes.len() - 1].upvalues));
    lemma_leave_resolved(st3);
}

/// Closing the innermost scope keeps what the others list.
pub proof fn lemma_leave_resolved(st: ResolverView)
    requires
        upvalues_resolved(st.scopes),
        st.scopes.len() > 0,
    ensures
        upvalues_resolved(st.leave().scopes),
        st.leave().scopes.len() == st.scopes.len() - 1,
{
    let after = st.leave().scopes;
    assert forall|i: int| 0 <= i < after.len() implies variables_resolved(
        (#[trigger] after[i]).upvalues,
    ) by {
        assert(variables_resolved(st.scopes[i].upvalues));
    }
}

/// Opening a block scope keeps what the others list.
pub proof fn lemma_enter_block_resolved(st: ResolverView)
    requires
        upvalues_resolved(st.scopes),
    ensures
        upvalues_resolved(st.enter(block_scope()).scopes),
{
    let after = st.enter(block_scope()).scopes;
    assert forall|i: int| 0 <= i < after.len() implies variables_resolved(
        (#[trigger] after[i]).upvalues,
    ) by {
        if i < st.scopes.len() {
            assert(variables_resolved(st.scopes[i].upvalues));
        }
    }
}

/// Whatever statement goes in, a resolved statement comes out; the number of
/// open scopes stays.
pub proof fn lemma_statement_resolved(st: ResolverView, s: StatementView)
    requires
        upvalues_resolved(st.scopes),
    ensures
        resolve_statement(st, s).1.resolved(),
        resolve_statement(st, s).0.scopes.len() == st.scopes.len(),
        upvalues_resolved(resolve_statement(st, s).0.scopes),
    decreases s, 0nat,
{
    match s {
        StatementView::Print(e) => {
            lemma_expression_resolved(st, e);
        },
        StatementView::Expression(e) => {
            lemma_expression_resolved(st, e);
        },
        StatementView::Var(v, init) => {
            lemma_optional_resolved(st, init);
            lemma_reference_resolved(resolve_optional(st, init).0, v);
        },
        StatementView::Fun(decl) => {
            lemma_function_resolved(st, decl);
        },
        StatementView::Return(e) => {
            lemma_optional_resolved(st, e);
        },
        StatementView::Block(body) => {
            lemma_enter_block_resolved(st);
            lemma_statements_resolved(st.enter(block_scope()), body, body.len());
            lemma_leave_resolved(resolve_statements(st.enter(block_scope()), body, body.len()).0);
        },
        StatementView::While(cond, body) => {
            lemma_expression_resolved(st, cond);
            lemma_statement_resolved(resolve_expression(st, cond).0, *body);
        },
        StatementView::If(cond, then, otherwise) => {
            lemma_expression_resolved(st, cond);
            let st1 = resolve_expression(st, cond).0;
            lemma_statement_resolved(st1, *then);
            if let Some(s) = otherwise {
                lemma_statement_resolved(resolve_statement(st1, *then).0, *s);
            }
        },
    }
}

/// The same of the first `n` statements of a list, of which `n` come out.
pub proof fn lemma_statements_resolved(st: ResolverView, list: Seq<StatementView>, n: nat)
    requires
        upvalues_resolved(st.scopes),
        n <= list.len(),
    ensures
        resolve_statements(st, list, n).1.len() == n,
        statements_resolved(resolve_statements(st, list, n).1),
        resolve_statements(st, list, n).0.scopes.len() == st.scopes.len(),
        upvalues_resolved(resolve_statements(st, list, n).0.scopes),
    decreases list, n,
{
    if n > 0 {
        lemma_statements_resolved(st, list, (n - 1) as nat);
        lemma_statement_resolved(resolve_statements(st, list, (n - 1) as nat).0, list[n - 1]);
    }
}

/// No bare name survives resolution: whatever program goes in and whatever
/// the resolver has seen before, every reference of the program that comes
/// out carries an address, every assignment in it writes to a reference, and
/// no scope is left open.
pub proof fn law_resolution_leaves_no_bare_name(st: ResolverView, program: ProgramView)
    ensures
        resolve_program(st, program).1.resolved(),
        resolve_program(st, program).0.scopes.len() == 0,
{
    lemma_statements_resolved(st.fresh(), program.statements, program.statements.len());
}

/// Resolving a resolved expression changes neither the expression nor the
/// state.
pub proof fn lemma_expression_fixed(st: ResolverView, e: ExpressionView)
    requires
        e.resolved(),
    ensures
        resolve_expression(st, e) == (st, e),
    decreases e, 0nat,
{
    match e {
        ExpressionView::Literal(_) => {},
        ExpressionView::Variable(v) => {},
        ExpressionView::Binop(op, lhs, rhs) => {
            if op == Binop::Assignment {
                lemma_expression_fixed(st, *rhs);
                assert(lhs.resolved());
            } else {
                lemma_expression_fixed(st, *lhs);
                lemma_expression_fixed(st, *rhs);
            }
        },
        ExpressionView::Call(callee, args) => {
            lemma_expression_fixed(st, *callee);
            lemma_expressions_fixed(st, args, args.len());
            assert(args.take(args.len() as int) =~= args);
        },
    }
}

/// The same of the first `n` expressions of a list.
pub proof fn lemma_expressions_fixed(st: ResolverView, list: Seq<ExpressionView>, n: nat)
    requires
        expressions_resolved(list),
        n <= list.len(),
    ensures
        resolve_expressions(st, list, n) == (st, list.take(n as int)),
    decreases list, n,
{
    if n > 0 {
        lemma_expressions_fixed(st, list, (n - 1) as nat);
        lemma_expression_fixed(st, list[n - 1]);
        assert(list.take(n - 1).push(list[n - 1]) =~= list.take(n as int));
    } else {
        assert(list.take(0) =~= Seq::empty());
    }
}

/// The same of the first `n` references of a list.
pub proof fn lemma_references_fixed(st: ResolverView, list: Seq<VariableView>, n: nat)
    requires
        variables_resolved(list),
        n <= list.len(),
    ensures
        resolve_references(st, list, n) == (st, list.take(n as int)),
    decreases n,
{
    if n > 0 {
        lemma_references_fixed(st, list, (n - 1) as nat);
        assert(list[n - 1].resolved());
        assert(list.take(n - 1).push(list[n - 1]) =~= list.take(n as int));
    } else {
        assert(list.take(0) =~= Seq::empty());
    }
}

/// The same of a function declaration.
pub proof fn lemma_function_fixed(st: ResolverView, decl: FunctionDeclView)
    requires
        decl.resolved(),
    ensures
        resolve_function(st, decl) == (st, decl),
    decreases decl, 0nat,
{
    lemma_references_fixed(st, decl.upvalues, decl.upvalues.len());
    assert(decl.upvalues.take(decl.upvalues.len() as int) =~= decl.upvalues);
    let inner = st.enter(function_scope(decl.params, decl.upvalues));
    lemma_statements_fixed(inner, decl.body, decl.body.len());
    assert(decl.body.take(decl.body.len() as int) =~= decl.body);
    assert(inner.scopes.drop_last() =~= st.scopes);
}

/// Resolving a resolved statement changes neither the statement nor the
/// state.
pub proof fn lemma_statement_fixed(st: ResolverView, s: StatementView)
    requires
        s.resolved(),
    ensures
        resolve_statement(st, s) == (st, s),
    decreases s, 0nat,
{
    match s {
        StatementView::Print(e) => {
            lemma_expression_fixed(st, e);
        },
        StatementView::Expression(e) => {
            lemma_expression_fixed(st, e);
        },
        StatementView::Var(v, init) => {
            if let Some(e) = init {
                lemma_expression_fixed(st, e);
            }
        },
        StatementView::Fun(decl) => {
            lemma_function_fixed(st, decl);
        },
        StatementView::Return(e) => {
            if let Some(e) = e {
                lemma_expression_fixed(st, e);
            }
        },
        StatementView::Block(body) => {
            let inner = st.enter(block_scope());
            lemma_statements_fixed(inner, body, body.len());
            assert(body.take(body.len() as int) =~= body);
            assert(inner.scopes.drop_last() =~= st.scopes);
        },
        StatementView::While(cond, body) => {
            lemma_expression_fixed(st, cond);
            lemma_statement_fixed(st, *body);
        },
        StatementView::If(cond, then, otherwise) => {
            lemma_expression_fixed(st, cond);
            lemma_statement_fixed(st, *then);
            if let Some(s) = otherwise {
                lemma_statement_fixed(st, *s);
            }
        },
    }
}

/// The same of the first `n` statements of a list.
pub proof fn lemma_statements_fixed(st: ResolverView, list: Seq<StatementView>, n: nat)
    requires
        statements_resolved(list),
        n <= list.len(),
    ensures
        resolve_statements(st, list, n) == (st, list.take(n as int)),
    decreases list, n,
{
    if n > 0 {
        lemma_statements_fixed(st, list, (n - 1) as nat);
        lemma_statement_fixed(st, list[n - 1]);
        assert(list.take(n - 1).push(list[n - 1]) =~= list.take(n as int));
    } else {
        assert(list.take(0) =~= Seq::empty());
    }
}

/// Resolution is idempotent: a resolved program is a fixed point. Resolving
/// it returns the same program, declares no name, collects no error and
/// leaves the state in which every program starts.
pub proof fn law_resolved_program_is_fixed_point(st: ResolverView, program: ProgramView)
    requires
        program.resolved(),
    ensures
        resolve_program(st, program) == (st.fresh(), program),
{
    lemma_statements_fixed(st.fresh(), program.statements, program.statements.len());
    assert(program.statements.take(program.statements.len() as int) =~= program.statements);
}

/// Resolving twice is resolving once: the program that resolution returns is
/// a fixed point, whatever went in.
pub proof fn law_resolution_is_idempotent(st: ResolverView, program: ProgramView)
    ensures
        ({
            let (st1, once) = resolve_program(st, program);
            resolve_program(st1, once) == (st1.fresh(), once)
        }),
{
    law_resolution_leaves_no_bare_name(st, program);
    let (st1, once) = resolve_program(st, program);
    law_resolved_program_is_fixed_point(st1, once);
}

} // verus!
