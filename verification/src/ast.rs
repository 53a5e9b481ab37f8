//! The syntax model: programs, statements, expressions and variable
//! references, each with the mathematical value that contracts speak of.

use vstd::prelude::*;

verus! {

/// The binary operators of the language.
#[derive(Debug, PartialEq, Eq, Clone, Copy, Structural)]
pub enum Binop {
    Add,
    Sub,
    Mul,
    Div,
    Equal,
    NotEqual,
    Greater,
    GreaterEqual,
    Less,
    LessEqual,
    Assignment,
}

impl Binop {
    /// `> >= < <=`: defined on two values of one kind.
    pub open spec fn is_relational(self) -> bool {
        self == Binop::Greater || self == Binop::GreaterEqual || self == Binop::Less || self
            == Binop::LessEqual
    }
}

/// A reference to a variable: a bare name as the parser leaves it, or one of
/// the three addresses that resolution assigns.
///
/// `Scoped(depth, slot)` is reached by following `depth` parent links from the
/// current local frame and indexing `slot` there. `Closure(slot)` indexes the
/// captured cells of the function that is executing.
#[derive(Debug, PartialEq, Clone)]
pub enum Variable {
    Unresolved(String),
    Scoped(usize, usize),
    Closure(usize),
    Global(String),
}

/// The mathematical value of a [`Variable`].
pub ghost enum VariableView {
    Unresolved(Seq<char>),
    Scoped(nat, nat),
    Closure(nat),
    Global(Seq<char>),
}

impl VariableView {
    /// The reference carries an address.
    pub open spec fn resolved(self) -> bool {
        !(self is Unresolved)
    }
}

impl View for Variable {
    type V = VariableView;

    open spec fn view(&self) -> VariableView {
        match *self {
            Variable::Unresolved(name) => VariableView::Unresolved(name@),
            Variable::Scoped(depth, slot) => VariableView::Scoped(depth as nat, slot as nat),
            Variable::Closure(slot) => VariableView::Closure(slot as nat),
            Variable::Global(name) => VariableView::Global(name@),
        }
    }
}

impl Variable {
    /// A copy with the same mathematical value.
    pub fn duplicate(&self) -> (copy: Variable)
        ensures
            copy@ == self@,
    {
        match self {
            Variable::Unresolved(name) => Variable::Unresolved(name.clone()),
            Variable::Scoped(depth, slot) => Variable::Scoped(*depth, *slot),
            Variable::Closure(slot) => Variable::Closure(*slot),
            Variable::Global(name) => Variable::Global(name.clone()),
        }
    }

    /// Whether the reference carries an address.
    pub fn is_resolved(&self) -> (yes: bool)
        ensures
            yes == self@.resolved(),
    {
        match self {
            Variable::Unresolved(_) => false,
            _ => true,
        }
    }
}

/// The views of a list of references, in order.
pub open spec fn variable_views(list: Seq<Variable>) -> Seq<VariableView> {
    Seq::new(list.len(), |i: int| list[i]@)
}

/// Every reference of the list carries an address.
pub open spec fn variables_resolved(list: Seq<VariableView>) -> bool {
    forall|i: int| 0 <= i < list.len() ==> (#[trigger] list[i]).resolved()
}

/// The views of a list of names, in order.
pub open spec fn name_views(list: Seq<String>) -> Seq<Seq<char>> {
    Seq::new(list.len(), |i: int| list[i]@)
}

/// A copy of a list of references, with the same views.
pub fn duplicate_variables(list: &Vec<Variable>) -> (copy: Vec<Variable>)
    ensures
        variable_views(copy@) == variable_views(list@),
{
    let mut copy: Vec<Variable> = Vec::new();
    let mut i: usize = 0;
    while i < list.len()
        invariant
            i <= list.len(),
            copy.len() == i,
            forall|j: int| 0 <= j < i ==> copy[j]@ == list[j]@,
        decreases list.len() - i,
    {
        copy.push(list[i].duplicate());
        i += 1;
    }
    assert(variable_views(copy@) =~= variable_views(list@));
    copy
}

/// A copy of a list of names, with the same views.
pub fn duplicate_names(list: &Vec<String>) -> (copy: Vec<String>)
    ensures
        name_views(copy@) == name_views(list@),
{
    let mut copy: Vec<String> = Vec::new();
    let mut i: usize = 0;
    while i < list.len()
        invariant
            i <= list.len(),
            copy.len() == i,
            forall|j: int| 0 <= j < i ==> copy[j]@ == list[j]@,
        decreases list.len() - i,
    {
        copy.push(list[i].clone());
        i += 1;
    }
    assert(name_views(copy@) =~= name_views(list@));
    copy
}

/// An expression. A literal holds the bit pattern of its double-precision
/// number; the library carries numbers and never computes with them.
#[derive(Debug, PartialEq)]
pub enum Expression {
    Literal(u64),
    Binop(Binop, Box<Expression>, Box<Expression>),
    Variable(Variable),
    Call(Box<Expression>, Vec<Expression>),
}

/// The mathematical value of an [`Expression`].
pub ghost enum ExpressionView {
    Literal(u64),
    Binop(Binop, Box<ExpressionView>, Box<ExpressionView>),
    Variable(VariableView),
    Call(Box<ExpressionView>, Seq<ExpressionView>),
}

/// The views of a list of expressions, in order.
pub open spec fn expression_views(list: Seq<Expression>) -> Seq<ExpressionView>
    decreases list,
{
    Seq::new(
        list.len(),
        |i: int|
            if 0 <= i < list.len() {
                list[i].model()
            } else {
                ExpressionView::Literal(0)
            },
    )
}

/// Every expression of the list is resolved.
pub open spec fn expressions_resolved(list: Seq<ExpressionView>) -> bool
    decreases list,
{
    forall|i: int| 0 <= i < list.len() ==> (#[trigger] list[i]).resolved()
}

impl ExpressionView {
    /// No reference in the expression is a bare name, and every assignment
    /// writes to a reference.
    pub open spec fn resolved(self) -> bool
        decreases self,
    {
        match self {
            ExpressionView::Literal(_) => true,
            ExpressionView::Binop(op, lhs, rhs) => {
                &&& lhs.resolved()
                &&& rhs.resolved()
                &&& op == Binop::Assignment ==> *lhs is Variable
            },
            ExpressionView::Variable(v) => v.resolved(),
            ExpressionView::Call(callee, args) => callee.resolved() && expressions_resolved(args),
        }
    }
}

impl Expression {
    /// The mathematical value of the expression.
    pub open spec fn model(&self) -> ExpressionView
        decreases self,
    {
        match self {
            Expression::Literal(bits) => ExpressionView::Literal(*bits),
            Expression::Binop(op, lhs, rhs) => ExpressionView::Binop(
                *op,
                Box::new(lhs.model()),
                Box::new(rhs.model()),
            ),
            Expression::Variable(v) => ExpressionView::Variable(v@),
            Expression::Call(callee, args) => ExpressionView::Call(
                Box::new(callee.model()),
                expression_views(args@),
            ),
        }
    }

    /// Whether no reference in the expression is a bare name and every
    /// assignment writes to a reference.
    pub fn is_resolved(&self) -> (yes: bool)
        ensures
            yes == self@.resolved(),
        decreases self,
    {
        match self {
            Expression::Literal(_) => true,
            Expression::Binop(op, lhs, rhs) => {
                let target = match &**lhs {
                    Expression::Variable(_) => true,
                    _ => *op != Binop::Assignment,
                };
                target && lhs.is_resolved() && rhs.is_resolved()
            },
            Expression::Variable(v) => v.is_resolved(),
            Expression::Call(callee, args) => callee.is_resolved() && expressions_are_resolved(args),
        }
    }

    /// A copy with the same mathematical value.
    pub fn duplicate(&self) -> (copy: Expression)
        ensures
            copy@ == self@,
        decreases self,
    {
        match self {
            Expression::Literal(bits) => Expression::Literal(*bits),
            Expression::Binop(op, lhs, rhs) => Expression::Binop(
                *op,
                Box::new(lhs.duplicate()),
                Box::new(rhs.duplicate()),
            ),
            Expression::Variable(v) => Expression::Variable(v.duplicate()),
            Expression::Call(callee, args) => Expression::Call(
                Box::new(callee.duplicate()),
                duplicate_expressions(args),
            ),
        }
    }
}

/// Whether every expression of the list is resolved.
pub fn expressions_are_resolved(list: &Vec<Expression>) -> (yes: bool)
    ensures
        yes == expressions_resolved(expression_views(list@)),
    decreases list,
{
    let mut i: usize = 0;
    while i < list.len()
        invariant
            i <= list.len(),
            forall|j: int| 0 <= j < i ==> list[j]@.resolved(),
        decreases list.len() - i,
    {
        if !list[i].is_resolved() {
            assert(!expression_views(list@)[i as int].resolved());
            return false;
        }
        i += 1;
    }
    true
}

impl Clone for Expression {
    fn clone(&self) -> (copy: Expression)
        ensures
            copy@ == self@,
    {
        self.duplicate()
    }
}

impl View for Expression {
    type V = ExpressionView;

    open spec fn view(&self) -> ExpressionView {
        self.model()
    }
}

/// A copy of a list of expressions, with the same views.
pub fn duplicate_expressions(list: &Vec<Expression>) -> (copy: Vec<Expression>)
    ensures
        expression_views(copy@) == expression_views(list@),
    decreases list,
{
    let mut copy: Vec<Expression> = Vec::new();
    let mut i: usize = 0;
    while i < list.len()
        invariant
            i <= list.len(),
            copy.len() == i,
            forall|j: int| 0 <= j < i ==> copy[j]@ == list[j]@,
        decreases list.len() - i,
    {
        copy.push(list[i].duplicate());
        i += 1;
    }
    assert(expression_views(copy@) =~= expression_views(list@));
    copy
}

/// A function declaration. `binding` is where the function value is stored
/// when the declaration executes, and `upvalues` lists, as addresses in the
/// declaring context, the variables that the body captures. The parser leaves
/// `binding` as the bare name and `upvalues` empty.
#[derive(Debug, PartialEq)]
pub struct FunctionDecl {
    pub name: String,
    pub params: Vec<String>,
    pub body: Vec<Statement>,
    pub binding: Variable,
    pub upvalues: Vec<Variable>,
}

/// The mathematical value of a [`FunctionDecl`].
pub ghost struct FunctionDeclView {
    pub name: Seq<char>,
    pub params: Seq<Seq<char>>,
    pub body: Seq<StatementView>,
    pub binding: VariableView,
    pub upvalues: Seq<VariableView>,
}

/// A statement.
#[derive(Debug, PartialEq)]
pub enum Statement {
    Print(Expression),
    Expression(Expression),
    Var(Variable, Option<Expression>),
    Fun(FunctionDecl),
    Return(Option<Expression>),
    Block(Vec<Statement>),
    While(Expression, Box<Statement>),
    If(Expression, Box<Statement>, Box<Option<Statement>>),
}

/// The mathematical value of a [`Statement`].
pub ghost enum StatementView {
    Print(ExpressionView),
    Expression(ExpressionView),
    Var(VariableView, Option<ExpressionView>),
    Fun(FunctionDeclView),
    Return(Option<ExpressionView>),
    Block(Seq<StatementView>),
    While(ExpressionView, Box<StatementView>),
    If(ExpressionView, Box<StatementView>, Option<Box<StatementView>>),
}

/// The views of a list of statements, in order.
pub open spec fn statement_views(list: Seq<Statement>) -> Seq<StatementView>
    decreases list,
{
    Seq::new(
        list.len(),
        |i: int|
            if 0 <= i < list.len() {
                list[i].model()
            } else {
                StatementView::Block(Seq::empty())
            },
    )
}

/// Every statement of the list is resolved.
pub open spec fn statements_resolved(list: Seq<StatementView>) -> bool
    decreases list,
{
    forall|i: int| 0 <= i < list.len() ==> (#[trigger] list[i]).resolved()
}

impl FunctionDeclView {
    /// The binding, the captured addresses and the body are resolved.
    pub open spec fn resolved(self) -> bool
        decreases self,
    {
        &&& self.binding.resolved()
        &&& variables_resolved(self.upvalues)
        &&& statements_resolved(self.body)
    }
}

impl StatementView {
    /// No reference in the statement is a bare name, and every assignment
    /// writes to a reference.
    pub open spec fn resolved(self) -> bool
        decreases self,
    {
        match self {
            StatementView::Print(e) => e.resolved(),
            StatementView::Expression(e) => e.resolved(),
            StatementView::Var(v, init) => v.resolved() && (init is Some ==> init->0.resolved()),
            StatementView::Fun(decl) => decl.resolved(),
            StatementView::Return(e) => e is Some ==> e->0.resolved(),
            StatementView::Block(body) => statements_resolved(body),
            StatementView::While(cond, body) => cond.resolved() && body.resolved(),
            StatementView::If(cond, then, otherwise) => {
                &&& cond.resolved()
                &&& then.resolved()
                &&& otherwise is Some ==> otherwise->0.resolved()
            },
        }
    }
}

impl FunctionDecl {
    /// A declaration as the parser leaves it: bound by name, capturing
    /// nothing yet.
    pub fn new(name: String, params: Vec<String>, body: Vec<Statement>) -> (decl: FunctionDecl)
        ensures
            decl@ == (FunctionDeclView {
                name: name@,
                params: name_views(params@),
                body: statement_views(body@),
                binding: VariableView::Unresolved(name@),
                upvalues: Seq::empty(),
            }),
    {
        let binding = Variable::Unresolved(name.clone());
        let decl = FunctionDecl { name, params, body, binding, upvalues: Vec::new() };
        assert(decl.model().upvalues =~= Seq::empty());
        decl
    }

    /// The mathematical value of the declaration.
    pub open spec fn model(&self) -> FunctionDeclView
        decreases self,
    {
        FunctionDeclView {
            name: self.name@,
            params: name_views(self.params@),
            body: statement_views(self.body@),
            binding: self.binding@,
            upvalues: variable_views(self.upvalues@),
        }
    }

    /// Whether the binding, the captured addresses and the body are
    /// resolved.
    pub fn is_resolved(&self) -> (yes: bool)
        ensures
            yes == self@.resolved(),
        decreases self,
    {
        self.binding.is_resolved() && variables_are_resolved(&self.upvalues)
            && statements_are_resolved(&self.body)
    }

    /// A copy with the same mathematical value.
    pub fn duplicate(&self) -> (copy: FunctionDecl)
        ensures
            copy@ == self@,
        decreases self,
    {
        FunctionDecl {
            name: self.name.clone(),
            params: duplicate_names(&self.params),
            body: duplicate_statements(&self.body),
            binding: self.binding.duplicate(),
            upvalues: duplicate_variables(&self.upvalues),
        }
    }
}

impl Clone for FunctionDecl {
    fn clone(&self) -> (copy: FunctionDecl)
        ensures
            copy@ == self@,
    {
        self.duplicate()
    }
}

impl View for FunctionDecl {
    type V = FunctionDeclView;

    open spec fn view(&self) -> FunctionDeclView {
        self.model()
    }
}

impl Statement {
    /// The mathematical value of the statement.
    pub open spec fn model(&self) -> StatementView
        decreases self,
    {
        match self {
            Statement::Print(e) => StatementView::Print(e@),
            Statement::Expression(e) => StatementView::Expression(e@),
            Statement::Var(v, init) => StatementView::Var(
                v@,
                match init {
                    Some(e) => Some(e@),
                    None => None,
                },
            ),
            Statement::Fun(decl) => StatementView::Fun(decl.model()),
            Statement::Return(e) => StatementView::Return(
                match e {
                    Some(e) => Some(e@),
                    None => None,
                },
            ),
            Statement::Block(body) => StatementView::Block(statement_views(body@)),
            Statement::While(cond, body) => StatementView::While(cond@, Box::new(body.model())),
            Statement::If(cond, then, otherwise) => StatementView::If(
                cond@,
                Box::new(then.model()),
                match **otherwise {
                    Some(s) => Some(Box::new(s.model())),
                    None => None,
                },
            ),
        }
    }

    /// Whether no reference in the statement is a bare name and every
    /// assignment writes to a reference.
    pub fn is_resolved(&self) -> (yes: bool)
        ensures
            yes == self@.resolved(),
        decreases self,
    {
        match self {
            Statement::Print(e) => e.is_resolved(),
            Statement::Expression(e) => e.is_resolved(),
            Statement::Var(v, init) => v.is_resolved() && match init {
                Some(e) => e.is_resolved(),
                None => true,
            },
            Statement::Fun(decl) => decl.is_resolved(),
            Statement::Return(e) => match e {
                Some(e) => e.is_resolved(),
                None => true,
            },
            Statement::Block(body) => statements_are_resolved(body),
            Statement::While(cond, body) => cond.is_resolved() && body.is_resolved(),
            Statement::If(cond, then, otherwise) => cond.is_resolved() && then.is_resolved()
                && match &**otherwise {
                Some(s) => s.is_resolved(),
                None => true,
            },
        }
    }

    /// A copy with the same mathematical value.
    pub fn duplicate(&self) -> (copy: Statement)
        ensures
            copy@ == self@,
        decreases self,
    {
        match self {
            Statement::Print(e) => Statement::Print(e.duplicate()),
            Statement::Expression(e) => Statement::Expression(e.duplicate()),
            Statement::Var(v, init) => {
                let init = match init {
                    Some(e) => Some(e.duplicate()),
                    None => None,
                };
                Statement::Var(v.duplicate(), init)
            },
            Statement::Fun(decl) => Statement::Fun(decl.duplicate()),
            Statement::Return(e) => {
                let e = match e {
                    Some(e) => Some(e.duplicate()),
                    None => None,
                };
                Statement::Return(e)
            },
            Statement::Block(body) => Statement::Block(duplicate_statements(body)),
            Statement::While(cond, body) => Statement::While(
                cond.duplicate(),
                Box::new(body.duplicate()),
            ),
            Statement::If(cond, then, otherwise) => {
                let otherwise = match &**otherwise {
                    Some(s) => Some(s.duplicate()),
                    None => None,
                };
                Statement::If(cond.duplicate(), Box::new(then.duplicate()), Box::new(otherwise))
            },
        }
    }
}

/// Whether every statement of the list is resolved.
pub fn statements_are_resolved(list: &Vec<Statement>) -> (yes: bool)
    ensures
        yes == statements_resolved(statement_views(list@)),
    decreases list,
{
    let mut i: usize = 0;
    while i < list.len()
        invariant
            i <= list.len(),
            forall|j: int| 0 <= j < i ==> list[j]@.resolved(),
        decreases list.len() - i,
    {
        if !list[i].is_resolved() {
            assert(!statement_views(list@)[i as int].resolved());
            return false;
        }
        i += 1;
    }
    true
}

/// Whether every reference of the list carries an address.
pub fn variables_are_resolved(list: &Vec<Variable>) -> (yes: bool)
    ensures
        yes == variables_resolved(variable_views(list@)),
{
    let mut i: usize = 0;
    while i < list.len()
        invariant
            i <= list.len(),
            forall|j: int| 0 <= j < i ==> list[j]@.resolved(),
        decreases list.len() - i,
    {
        if !list[i].is_resolved() {
            assert(!variable_views(list@)[i as int].resolved());
            return false;
        }
        i += 1;
    }
    true
}

impl Clone for Statement {
    fn clone(&self) -> (copy: Statement)
        ensures
            copy@ == self@,
    {
        self.duplicate()
    }
}

impl View for Statement {
    type V = StatementView;

    open spec fn view(&self) -> StatementView {
        self.model()
    }
}

/// A copy of a list of statements, with the same views.
pub fn duplicate_statements(list: &Vec<Statement>) -> (copy: Vec<Statement>)
    ensures
        statement_views(copy@) == statement_views(list@),
    decreases list,
{
    let mut copy: Vec<Statement> = Vec::new();
    let mut i: usize = 0;
    while i < list.len()
        invariant
            i <= list.len(),
            copy.len() == i,
            forall|j: int| 0 <= j < i ==> copy[j]@ == list[j]@,
        decreases list.len() - i,
    {
        copy.push(list[i].duplicate());
        i += 1;
    }
    assert(statement_views(copy@) =~= statement_views(list@));
    copy
}

/// A program: the statements submitted in one cycle of resolving and
/// executing.
#[derive(Debug, PartialEq)]
pub struct Program {
    statements: Vec<Statement>,
}

/// The mathematical value of a [`Program`].
pub ghost struct ProgramView {
    pub statements: Seq<StatementView>,
}

impl ProgramView {
    /// Every statement is resolved.
    pub open spec fn resolved(self) -> bool {
        statements_resolved(self.statements)
    }
}

impl View for Program {
    type V = ProgramView;

    closed spec fn view(&self) -> ProgramView {
        ProgramView { statements: statement_views(self.statements@) }
    }
}

impl Clone for Program {
    fn clone(&self) -> (copy: Program)
        ensures
            copy@ == self@,
    {
        self.duplicate()
    }
}

impl Program {
    /// The program that holds `statements`, in order.
    pub fn new(statements: Vec<Statement>) -> (program: Program)
        ensures
            program@.statements == statement_views(statements@),
    {
        Program { statements }
    }

    /// The statements, in order.
    pub fn statements(&self) -> (statements: &Vec<Statement>)
        ensures
            statement_views(statements@) == self@.statements,
    {
        &self.statements
    }

    /// Whether the program is resolved, and so fit to be executed.
    pub fn is_resolved(&self) -> (yes: bool)
        ensures
            yes == self@.resolved(),
    {
        statements_are_resolved(&self.statements)
    }

    /// A copy with the same mathematical value.
    pub fn duplicate(&self) -> (copy: Program)
        ensures
            copy@ == self@,
    {
        Program { statements: duplicate_statements(&self.statements) }
    }

    /// The statements, by value.
    pub fn into_statements(self) -> (statements: Vec<Statement>)
        ensures
            statement_views(statements@) == self@.statements,
    {
        self.statements
    }
}

} // verus!
