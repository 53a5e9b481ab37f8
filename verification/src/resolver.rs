//! The resolver: a static pass over a program that declares names in lexical
//! scopes and rewrites every variable reference into its address.

use crate::ast::{
    Binop, duplicate_names, Expression, expression_views, ExpressionView, FunctionDecl, name_views,
    Program, Statement, statement_views, StatementView, Variable, variable_views, VariableView,
};
use crate::scoping::{
    block_scope, capture, function_scope, law_resolution_leaves_no_bare_name,
    law_use_has_one_of_three_addresses, lookup, ResolutionError, resolve_expression,
    resolve_expressions, resolve_function, resolve_optional, resolve_program, resolve_references,
    resolve_statement, resolve_statements, ResolverView, ScopeView, slot_of,
};
use crate::runnable::law_resolution_returns_runnable;
use vstd::prelude::*;

verus! {

/// One lexical scope of the resolver.
#[derive(Debug)]
pub struct Scope {
    names: Vec<String>,
    function: bool,
    upvalues: Vec<Variable>,
}

impl View for Scope {
    type V = ScopeView;

    closed spec fn view(&self) -> ScopeView {
        ScopeView {
            names: name_views(self.names@),
            function: self.function,
            upvalues: variable_views(self.upvalues@),
        }
    }
}

impl Default for Scope {
    /// An empty block scope.
    fn default() -> (scope: Scope)
        ensures
            scope@ == block_scope(),
    {
        let scope = Scope { names: Vec::new(), function: false, upvalues: Vec::new() };
        assert(scope@.names =~= Seq::empty());
        assert(scope@.upvalues =~= Seq::empty());
        scope
    }
}

impl Scope {
    /// The scope of a function body with these parameters and upvalues.
    pub fn function(params: Vec<String>, upvalues: Vec<Variable>) -> (scope: Scope)
        ensures
            scope@ == function_scope(name_views(params@), variable_views(upvalues@)),
    {
        Scope { names: params, function: true, upvalues }
    }

    /// The slot of the latest declaration of `name` in this scope.
    pub fn get(&self, name: &String) -> (slot: Option<usize>)
        ensures
            match slot {
                Some(slot) => slot_of(self@.names, name@) == Some(slot as nat),
                None => slot_of(self@.names, name@) is None,
            },
    {
        let ghost names = self@.names;
        let mut i: usize = self.names.len();
        assert(names.take(i as int) =~= names);
        while i > 0
            invariant
                i <= self.names.len(),
                names == name_views(self.names@),
                slot_of(names, name@) == slot_of(names.take(i as int), name@),
            decreases i,
        {
            i -= 1;
            proof {
                let prefix = names.take(i + 1);
                assert(prefix.last() == self.names[i as int]@);
                assert(prefix.drop_last() =~= names.take(i as int));
            }
            if self.names[i] == *name {
                return Some(i);
            }
        }
        assert(names.take(0).len() == 0);
        None
    }

    /// Declares `name` in the next slot of this scope, and returns the slot.
    pub fn add(&mut self, name: &String) -> (slot: usize)
        ensures
            slot == old(self)@.names.len(),
            final(self)@ == (ScopeView { names: old(self)@.names.push(name@), ..old(self)@ }),
    {
        let slot = self.names.len();
        self.names.push(name.clone());
        assert(name_views(self.names@) =~= name_views(old(self).names@).push(name@));
        slot
    }
}

/// The views of a stack of scopes, outermost first.
pub closed spec fn scope_views(stack: Seq<Scope>) -> Seq<ScopeView> {
    Seq::new(stack.len(), |i: int| stack[i]@)
}

/// The resolver of one session: the global names declared so far, and, while
/// a program is being resolved, the open scopes and the errors collected.
pub struct Resolver {
    globals: Vec<String>,
    stack: Vec<Scope>,
    errors: Vec<ResolutionError>,
}

impl View for Resolver {
    type V = ResolverView;

    closed spec fn view(&self) -> ResolverView {
        ResolverView {
            globals: name_views(self.globals@).to_set(),
            scopes: scope_views(self.stack@),
            errors: self.errors@,
        }
    }
}

impl Resolver {
    /// A resolver that has seen nothing.
    pub fn new() -> (resolver: Resolver)
        ensures
            resolver@ == (ResolverView {
                globals: Set::empty(),
                scopes: Seq::empty(),
                errors: Seq::empty(),
            }),
    {
        let resolver = Resolver { globals: Vec::new(), stack: Vec::new(), errors: Vec::new() };
        assert(resolver@.globals =~= Set::empty());
        assert(resolver@.scopes =~= Seq::empty());
        resolver
    }

    /// Resolves a program from a fresh scope stack, keeping the global names
    /// of earlier programs. The resolved program is returned if no error was
    /// collected, and the errors otherwise, so that a program with an error
    /// cannot reach execution.
    pub fn run(&mut self, prog: Program) -> (result: Result<Program, Vec<ResolutionError>>)
        ensures
            final(self)@ == resolve_program(old(self)@, prog@).0.fresh(),
            match result {
                Ok(resolved) => {
                    &&& resolve_program(old(self)@, prog@).0.errors.len() == 0
                    &&& resolved@ == resolve_program(old(self)@, prog@).1
                    &&& resolved@.resolved()
                    &&& prog@.raw() ==> resolved@.runnable()
                },
                Err(errors) => {
                    &&& errors@.len() > 0
                    &&& errors@ == resolve_program(old(self)@, prog@).0.errors
                },
            },
    {
        self.stack = Vec::new();
        self.errors = Vec::new();
        assert(self@ =~= old(self)@.fresh()) by {
            assert(self@.scopes =~= Seq::empty());
        }
        let resolved = self.visit_program(&prog);
        proof {
            law_resolution_leaves_no_bare_name(old(self)@, prog@);
            if prog@.raw() {
                law_resolution_returns_runnable(old(self)@, prog@);
            }
        }
        let mut errors: Vec<ResolutionError> = Vec::new();
        core::mem::swap(&mut self.errors, &mut errors);
        assert(self@ =~= resolve_program(old(self)@, prog@).0.fresh()) by {
            assert(self@.scopes =~= Seq::empty());
        }
        if errors.len() == 0 {
            Ok(resolved)
        } else {
            Err(errors)
        }
    }

    /// Opens a block scope.
    pub fn enter_scope(&mut self)
        ensures
            final(self)@ == old(self)@.enter(block_scope()),
    {
        self.stack.push(Scope::default());
        assert(self@.scopes =~= old(self)@.scopes.push(block_scope()));
    }

    /// Closes the innermost scope, if one is open.
    pub fn leave_scope(&mut self)
        ensures
            final(self)@ == old(self)@.leave(),
    {
        self.stack.pop();
        proof {
            if old(self).stack.len() > 0 {
                assert(self@.scopes =~= old(self)@.scopes.drop_last());
            }
        }
    }

    /// The innermost scope.
    pub fn current_scope(&mut self) -> (scope: &mut Scope)
        requires
            old(self)@.scopes.len() > 0,
        ensures
            scope@ == old(self)@.scopes.last(),
            final(self)@ == (ResolverView {
                scopes: old(self)@.scopes.update(
                    old(self)@.scopes.len() - 1,
                    final(scope)@,
                ),
                ..old(self)@
            }),
    {
        let top = self.stack.len() - 1;
        proof {
            lemma_scope_views_update();
        }
        &mut self.stack[top]
    }

    /// Whether no scope is open: the resolver is at top level.
    pub fn is_root(&self) -> (root: bool)
        ensures
            root == (self@.scopes.len() == 0),
    {
        self.stack.len() == 0
    }

    /// Declares `name`: at top level as a global name of the session, else in
    /// the next slot of the innermost scope.
    pub fn define_var(&mut self, name: &String) -> (address: Variable)
        ensures
            (final(self)@, address@) == old(self)@.declare(name@),
    {
        if self.is_root() {
            self.remember_global(name);
            Variable::Global(name.clone())
        } else {
            let slot = self.current_scope().add(name);
            Variable::Scoped(0, slot)
        }
    }

    /// Adds `name` to the global names of the session.
    fn remember_global(&mut self, name: &String)
        ensures
            final(self)@ == (ResolverView {
                globals: old(self)@.globals.insert(name@),
                ..old(self)@
            }),
    {
        let mut known = false;
        let mut i: usize = 0;
        while i < self.globals.len()
            invariant
                i <= self.globals.len(),
                known <==> exists|j: int| 0 <= j < i && self.globals[j]@ == name@,
            decreases self.globals.len() - i,
        {
            if self.globals[i] == *name {
                known = true;
            }
            i += 1;
        }
        let ghost before = name_views(self.globals@);
        if known {
            let ghost j = choose|j: int| 0 <= j < self.globals.len() && self.globals[j]@ == name@;
            assert(before[j] == name@);
            assert(before.to_set() =~= before.to_set().insert(name@));
        } else {
            self.globals.push(name.clone());
            let ghost after = name_views(self.globals@);
            assert(after =~= before.push(name@));
            assert(after.to_set() =~= before.to_set().insert(name@)) by {
                assert forall|n: Seq<char>| after.to_set().contains(n) implies
                    before.to_set().insert(
                    name@,
                ).contains(n) by {
                    let k = choose|k: int| 0 <= k < after.len() && after[k] == n;
                    if k < before.len() {
                        assert(before[k] == n);
                    }
                }
                assert forall|n: Seq<char>| before.to_set().insert(name@).contains(
                    n,
                ) implies after.to_set().contains(n) by {
                    if n == name@ {
                        assert(after[before.len() as int] == n);
                    } else {
                        let k = choose|k: int| 0 <= k < before.len() && before[k] == n;
                        assert(after[k] == n);
                    }
                }
            }
        }
    }

    /// The innermost scope that declares `name`: how many scopes lie between
    /// it and the innermost one, and the slot of the name in it.
    pub fn lookup_scope(&self, name: &String) -> (found: Option<(usize, usize)>)
        ensures
            match found {
                Some((pos, slot)) => {
                    &&& lookup(self@.scopes, name@) == Some((pos as nat, slot as nat))
                    &&& pos < self@.scopes.len()
                },
                None => lookup(self@.scopes, name@) is None,
            },
    {
        let ghost scopes = self@.scopes;
        let mut i: usize = self.stack.len();
        assert(scopes.take(i as int) =~= scopes);
        while i > 0
            invariant
                i <= self.stack.len(),
                scopes == scope_views(self.stack@),
                match lookup(scopes.take(i as int), name@) {
                    Some((pos, slot)) => lookup(scopes, name@) == Some(
                        ((pos + self.stack.len() - i) as nat, slot),
                    ),
                    None => lookup(scopes, name@) is None,
                },
            decreases i,
        {
            i -= 1;
            proof {
                let prefix = scopes.take(i + 1);
                assert(prefix.last() == self.stack[i as int]@);
                assert(prefix.drop_last() =~= scopes.take(i as int));
            }
            if let Some(slot) = self.stack[i].get(name) {
                return Some((self.stack.len() - 1 - i, slot));
            }
        }
        assert(scopes.take(0).len() == 0);
        None
    }

    /// The address of a use of `name`: local where the declaring scope lies in
    /// the function that uses it, captured through every function boundary
    /// that lies between, global where no open scope declares it.
    pub fn resolve_var(&mut self, name: &String) -> (address: Variable)
        ensures
            (final(self)@, address@) == old(self)@.resolve(name@),
    {
        match self.lookup_scope(name) {
            None => Variable::Global(name.clone()),
            Some((pos, slot)) => {
                let home = self.stack.len() - 1 - pos;
                let mut address = Variable::Scoped(0, slot);
                let mut level: usize = home + 1;
                while level < self.stack.len()
                    invariant
                        home < level <= self.stack.len(),
                        self.stack.len() == old(self).stack.len(),
                        self.globals == old(self).globals,
                        self.errors == old(self).errors,
                        address is Scoped ==> address->Scoped_0 < level,
                        capture(self@.scopes, level as int, address@) == capture(
                            old(self)@.scopes,
                            home + 1,
                            VariableView::Scoped(0, slot as nat),
                        ),
                    decreases self.stack.len() - level,
                {
                    let ghost before = self@.scopes;
                    if self.stack[level].function {
                        let scope = &mut self.stack[level];
                        let index = scope.upvalues.len();
                        scope.upvalues.push(address);
                        proof {
                            let entered = ScopeView {
                                upvalues: before[level as int].upvalues.push(address@),
                                ..before[level as int]
                            };
                            assert(self.stack[level as int]@.upvalues =~= entered.upvalues);
                            assert(self@.scopes =~= before.update(level as int, entered));
                        }
                        address = Variable::Closure(index);
                    } else {
                        address =
                        match address {
                            Variable::Scoped(depth, slot) => Variable::Scoped(depth + 1, slot),
                            other => other,
                        };
                    }
                    level += 1;
                }
                assert(self@ == (ResolverView { scopes: self@.scopes, ..old(self)@ }));
                address
            },
        }
    }

    /// A reference at a use site: a bare name is resolved, an address is
    /// kept.
    pub fn visit_variable(&mut self, name: &Variable) -> (expr: Expression)
        ensures
            final(self)@ == old(self)@.reference(name@).0,
            expr@ == ExpressionView::Variable(old(self)@.reference(name@).1),
            final(self)@.scopes.len() == old(self)@.scopes.len(),
    {
        Expression::Variable(self.use_site(name))
    }

    /// The address for a reference at a use site.
    fn use_site(&mut self, name: &Variable) -> (address: Variable)
        ensures
            (final(self)@, address@) == old(self)@.reference(name@),
            final(self)@.scopes.len() == old(self)@.scopes.len(),
    {
        proof {
            if let VariableView::Unresolved(n) = name@ {
                law_use_has_one_of_three_addresses(old(self)@, n);
            }
        }
        match name {
            Variable::Unresolved(name) => self.resolve_var(name),
            other => other.duplicate(),
        }
    }

    /// The address for a reference at a declaration: a bare name is declared,
    /// an address is kept.
    fn declaration(&mut self, name: &Variable) -> (address: Variable)
        ensures
            (final(self)@, address@) == old(self)@.binding(name@),
            final(self)@.scopes.len() == old(self)@.scopes.len(),
    {
        match name {
            Variable::Unresolved(name) => self.define_var(name),
            other => other.duplicate(),
        }
    }

    /// Resolves an optional expression.
    fn visit_optional(&mut self, expr: &Option<Expression>) -> (out: Option<Expression>)
        ensures
            final(self)@ == resolve_optional(old(self)@, option_view(*expr)).0,
            option_view(out) == resolve_optional(old(self)@, option_view(*expr)).1,
            final(self)@.scopes.len() == old(self)@.scopes.len(),
        decreases expr, 1nat,
    {
        match expr {
            Some(e) => Some(self.visit_expr(e)),
            None => None,
        }
    }

    /// Resolves a declaration of a variable: the initializer first, then the
    /// name.
    pub fn visit_var(&mut self, name: &Variable, val: &Option<Expression>) -> (out: Statement)
        ensures
            (final(self)@, out@) == resolve_statement(
                old(self)@,
                StatementView::Var(name@, option_view(*val)),
            ),
            final(self)@.scopes.len() == old(self)@.scopes.len(),
        decreases val, 2nat,
    {
        let val = self.visit_optional(val);
        let name = self.declaration(name);
        Statement::Var(name, val)
    }

    /// Resolves a block in a scope of its own.
    pub fn visit_block(&mut self, body: &Vec<Statement>) -> (out: Statement)
        ensures
            (final(self)@, out@) == resolve_statement(
                old(self)@,
                StatementView::Block(statement_views(body@)),
            ),
            final(self)@.scopes.len() == old(self)@.scopes.len(),
        decreases body, 1nat,
    {
        self.enter_scope();
        let body = self.visit_statements(body);
        self.leave_scope();
        Statement::Block(body)
    }

    /// Resolves a function declaration: declares its name, then resolves its
    /// body in a function scope that holds the parameters, and records the
    /// upvalues that the body captured.
    pub fn visit_fun(&mut self, decl: &FunctionDecl) -> (out: Statement)
        ensures
            (final(self)@, out@) == resolve_statement(
                old(self)@,
                StatementView::Fun(decl@),
            ),
            final(self)@.scopes.len() == old(self)@.scopes.len(),
        decreases decl, 1nat,
    {
        let binding = self.declaration(&decl.binding);
        let listed = self.visit_upvalues(&decl.upvalues);
        let ghost declared = self@;
        let ghost scope = function_scope(decl@.params, variable_views(listed@));
        self.stack.push(Scope::function(duplicate_names(&decl.params), listed));
        assert(self@ == declared.enter(scope)) by {
            assert(self@.scopes =~= declared.scopes.push(scope));
        }
        let body = self.visit_statements(&decl.body);
        let ghost inner = self@;
        let Scope { upvalues, .. } = self.stack.pop().unwrap();
        assert(self@ == inner.leave()) by {
            assert(self@.scopes =~= inner.scopes.drop_last());
        }
        let resolved = FunctionDecl {
            name: decl.name.clone(),
            params: duplicate_names(&decl.params),
            body,
            binding,
            upvalues,
        };
        assert((self@, resolved@) == resolve_function(old(self)@, decl@));
        Statement::Fun(resolved)
    }

    /// Resolves, where the declaration stands, the upvalues that a function
    /// declaration already lists.
    fn visit_upvalues(&mut self, list: &Vec<Variable>) -> (out: Vec<Variable>)
        ensures
            (final(self)@, variable_views(out@)) == resolve_references(
                old(self)@,
                variable_views(list@),
                list.len() as nat,
            ),
            final(self)@.scopes.len() == old(self)@.scopes.len(),
    {
        let mut out: Vec<Variable> = Vec::new();
        let mut i: usize = 0;
        assert(variable_views(out@) =~= Seq::empty());
        while i < list.len()
            invariant
                i <= list.len(),
                (self@, variable_views(out@)) == resolve_references(
                    old(self)@,
                    variable_views(list@),
                    i as nat,
                ),
                self@.scopes.len() == old(self)@.scopes.len(),
            decreases list.len() - i,
        {
            let ghost done = variable_views(out@);
            let v = self.use_site(&list[i]);
            out.push(v);
            assert(variable_views(out@) =~= done.push(v@));
            i += 1;
        }
        out
    }

    /// Resolves a statement.
    pub fn visit_statement(&mut self, st: &Statement) -> (out: Statement)
        ensures
            (final(self)@, out@) == resolve_statement(old(self)@, st@),
            final(self)@.scopes.len() == old(self)@.scopes.len(),
        decreases st, 0nat,
    {
        match st {
            Statement::Print(expr) => Statement::Print(self.visit_expr(expr)),
            Statement::Expression(expr) => Statement::Expression(self.visit_expr(expr)),
            Statement::Var(name, val) => self.visit_var(name, val),
            Statement::Fun(decl) => self.visit_fun(decl),
            Statement::Return(expr) => Statement::Return(self.visit_optional(expr)),
            Statement::Block(body) => self.visit_block(body),
            Statement::While(cond, body) => {
                let cond = self.visit_expr(cond);
                let body = self.visit_statement(body);
                Statement::While(cond, Box::new(body))
            },
            Statement::If(cond, then, otherwise) => {
                let cond = self.visit_expr(cond);
                let then = self.visit_statement(then);
                let otherwise = match &**otherwise {
                    Some(s) => Some(self.visit_statement(s)),
                    None => None,
                };
                Statement::If(cond, Box::new(then), Box::new(otherwise))
            },
        }
    }

    /// Resolves the statements of a list, in order.
    pub fn visit_statements(&mut self, list: &Vec<Statement>) -> (out: Vec<Statement>)
        ensures
            (final(self)@, statement_views(out@)) == resolve_statements(
                old(self)@,
                statement_views(list@),
                list.len() as nat,
            ),
            final(self)@.scopes.len() == old(self)@.scopes.len(),
        decreases list, 0nat,
    {
        let mut out: Vec<Statement> = Vec::new();
        let mut i: usize = 0;
        assert(statement_views(out@) =~= Seq::empty());
        while i < list.len()
            invariant
                i <= list.len(),
                (self@, statement_views(out@)) == resolve_statements(
                    old(self)@,
                    statement_views(list@),
                    i as nat,
                ),
                self@.scopes.len() == old(self)@.scopes.len(),
            decreases list.len() - i,
        {
            let ghost done = statement_views(out@);
            let s = self.visit_statement(&list[i]);
            out.push(s);
            assert(statement_views(out@) =~= done.push(s@));
            i += 1;
        }
        out
    }

    /// Resolves an expression, depth first and left to right; an assignment
    /// resolves its right side before its target.
    pub fn visit_expr(&mut self, expr: &Expression) -> (out: Expression)
        ensures
            (final(self)@, out@) == resolve_expression(old(self)@, expr@),
            final(self)@.scopes.len() == old(self)@.scopes.len(),
        decreases expr, 0nat,
    {
        match expr {
            Expression::Literal(bits) => Expression::Literal(*bits),
            Expression::Variable(name) => self.visit_variable(name),
            Expression::Binop(op, lhs, rhs) => {
                if *op == Binop::Assignment {
                    let rhs = self.visit_expr(rhs);
                    let ghost st1 = self@;
                    let target = match &**lhs {
                        Expression::Variable(name) => self.use_site(name),
                        _ => {
                            self.errors.push(ResolutionError::InvalidAssignmentTarget);
                            assert(self@ == st1.blame(ResolutionError::InvalidAssignmentTarget));
                            Variable::Global(String::new())
                        },
                    };
                    let target = Expression::Variable(target);
                    assert(target@ is Variable);
                    Expression::Binop(*op, Box::new(target), Box::new(rhs))
                } else {
                    let lhs = self.visit_expr(lhs);
                    let rhs = self.visit_expr(rhs);
                    Expression::Binop(*op, Box::new(lhs), Box::new(rhs))
                }
            },
            Expression::Call(callee, args) => {
                let callee = self.visit_expr(callee);
                let args = self.visit_exprs(args);
                Expression::Call(Box::new(callee), args)
            },
        }
    }

    /// Resolves the expressions of a list, in order.
    pub fn visit_exprs(&mut self, list: &Vec<Expression>) -> (out: Vec<Expression>)
        ensures
            (final(self)@, expression_views(out@)) == resolve_expressions(
                old(self)@,
                expression_views(list@),
                list.len() as nat,
            ),
            final(self)@.scopes.len() == old(self)@.scopes.len(),
        decreases list, 0nat,
    {
        let mut out: Vec<Expression> = Vec::new();
        let mut i: usize = 0;
        assert(expression_views(out@) =~= Seq::empty());
        while i < list.len()
            invariant
                i <= list.len(),
                (self@, expression_views(out@)) == resolve_expressions(
                    old(self)@,
                    expression_views(list@),
                    i as nat,
                ),
                self@.scopes.len() == old(self)@.scopes.len(),
            decreases list.len() - i,
        {
            let ghost done = expression_views(out@);
            let e = self.visit_expr(&list[i]);
            out.push(e);
            assert(expression_views(out@) =~= done.push(e@));
            i += 1;
        }
        out
    }

    /// Resolves the statements of a program, in order, in the scopes that are
    /// open.
    pub fn visit_program(&mut self, prog: &Program) -> (out: Program)
        ensures
            final(self)@ == resolve_statements(
                old(self)@,
                prog@.statements,
                prog@.statements.len(),
            ).0,
            out@.statements == resolve_statements(
                old(self)@,
                prog@.statements,
                prog@.statements.len(),
            ).1,
            final(self)@.scopes.len() == old(self)@.scopes.len(),
    {
        Program::new(self.visit_statements(prog.statements()))
    }
}

/// Replacing one scope of a stack replaces its view in the views of the stack.
proof fn lemma_scope_views_update()
    ensures
        forall|stack: Seq<Scope>, i: int, scope: Scope|
            0 <= i < stack.len() ==> #[trigger] scope_views(stack.update(i, scope))
                == scope_views(stack).update(i, scope@),
{
    assert forall|stack: Seq<Scope>, i: int, scope: Scope| 0 <= i < stack.len() implies
        #[trigger] scope_views(
        stack.update(i, scope),
    ) == scope_views(stack).update(i, scope@) by {
        assert(scope_views(stack.update(i, scope)) =~= scope_views(stack).update(i, scope@));
    }
}

/// The view of an optional expression.
pub open spec fn option_view(e: Option<Expression>) -> Option<ExpressionView> {
    match e {
        Some(e) => Some(e@),
        None => None,
    }
}

} // verus!
