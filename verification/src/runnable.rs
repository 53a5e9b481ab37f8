//! From the parser to the machine: what resolution makes of a program as the
//! parser leaves it is fit to run, and a machine that runs such programs
//! only stays healthy, so that every address leads where it says.

use crate::ast::{ExpressionView, FunctionDeclView, ProgramView, StatementView, VariableView};
use crate::capturing::{expressions_captured, law_resolution_counts_captures, statements_captured};
use crate::closures::{
    law_capture_finds_its_cell, law_load_keeps_machine_closed, law_resume_keeps_machine_closed,
    law_step_keeps_machine_closed, value_fits,
};
use crate::levels::{
    law_address_finds_its_frame, law_load_keeps_machine_leveled, law_step_keeps_machine_leveled,
};
use crate::machine::{ControlView, KontView, MachineView};
use crate::nesting::{expressions_reach, law_resolution_mirrors_nesting, statements_reach};
use crate::object::ValueView;
use crate::order::{
    kont_resolved, law_load_puts_machine_in_order, law_resume_keeps_machine_in_order,
    law_step_keeps_machine_in_order,
};
use crate::scoping::{law_resolution_leaves_no_bare_name, resolve_program, ResolverView};
use crate::soundness::{
    law_load_keeps_machine_sound, law_resume_keeps_machine_sound, law_step_keeps_machine_sound,
    lemma_locate_sound, value_within,
};
use vstd::prelude::*;

verus! {

/// Every expression of the list is as the parser leaves it.
pub open spec fn expressions_raw(list: Seq<ExpressionView>) -> bool
    decreases list,
{
    forall|i: int| 0 <= i < list.len() ==> (#[trigger] list[i]).raw()
}

/// Every statement of the list is as the parser leaves it.
pub open spec fn statements_raw(list: Seq<StatementView>) -> bool
    decreases list,
{
    forall|i: int| 0 <= i < list.len() ==> (#[trigger] list[i]).raw()
}

impl ExpressionView {
    /// The expression is as the parser leaves it: every reference is a bare
    /// name.
    pub open spec fn raw(self) -> bool
        decreases self,
    {
        match self {
            ExpressionView::Literal(_) => true,
            ExpressionView::Binop(_, lhs, rhs) => lhs.raw() && rhs.raw(),
            ExpressionView::Variable(v) => v is Unresolved,
            ExpressionView::Call(callee, args) => callee.raw() && expressions_raw(args),
        }
    }
}

impl FunctionDeclView {
    /// The declaration is as the parser leaves it: bound by a bare name, with
    /// no upvalue listed.
    pub open spec fn raw(self) -> bool
        decreases self,
    {
        &&& self.binding is Unresolved
        &&& self.upvalues.len() == 0
        &&& statements_raw(self.body)
    }
}

impl StatementView {
    /// The statement is as the parser leaves it: every reference is a bare
    /// name, and no function declaration lists an upvalue.
    pub open spec fn raw(self) -> bool
        decreases self,
    {
        match self {
            StatementView::Print(e) => e.raw(),
            StatementView::Expression(e) => e.raw(),
            StatementView::Var(v, init) => v is Unresolved && (init is Some ==> init->0.raw()),
            StatementView::Fun(decl) => decl.raw(),
            StatementView::Return(e) => e is Some ==> e->0.raw(),
            StatementView::Block(body) => statements_raw(body),
            StatementView::While(cond, body) => cond.raw() && body.raw(),
            StatementView::If(cond, then, otherwise) => {
                &&& cond.raw()
                &&& then.raw()
                &&& otherwise is Some ==> otherwise->0.raw()
            },
        }
    }
}

impl ProgramView {
    /// The program is as the parser leaves it.
    pub open spec fn raw(self) -> bool {
        statements_raw(self.statements)
    }

    /// The program is fit to run: it is resolved, every local address in it
    /// has fewer parent links than there are frames around it, and every
    /// capture in it has an index below the number of upvalues of the
    /// function around it.
    pub open spec fn runnable(self) -> bool {
        &&& self.resolved()
        &&& self.reaches()
        &&& self.captured()
    }
}

/// An expression as the parser leaves it holds no address, so none that
/// could lead nowhere.
pub proof fn lemma_raw_expression(e: ExpressionView, depth: nat, captured: nat)
    requires
        e.raw(),
    ensures
        e.reaches(depth),
        e.captured(captured),
    decreases e,
{
    match e {
        ExpressionView::Binop(_, lhs, rhs) => {
            lemma_raw_expression(*lhs, depth, captured);
            lemma_raw_expression(*rhs, depth, captured);
        },
        ExpressionView::Call(callee, args) => {
            lemma_raw_expression(*callee, depth, captured);
            assert(expressions_raw(args));
            assert forall|i: int| 0 <= i < args.len() implies (#[trigger] args[i]).reaches(depth)
                && args[i].captured(captured) by {
                lemma_raw_expression(args[i], depth, captured);
            }
            assert(expressions_reach(args, depth));
            assert(expressions_captured(args, captured));
        },
        _ => {},
    }
}

/// The same of a statement.
pub proof fn lemma_raw_statement(s: StatementView, depth: nat, captured: nat)
    requires
        s.raw(),
    ensures
        s.reaches(depth),
        s.captured(captured),
    decreases s,
{
    match s {
        StatementView::Print(e) => {
            lemma_raw_expression(e, depth, captured);
        },
        StatementView::Expression(e) => {
            lemma_raw_expression(e, depth, captured);
        },
        StatementView::Var(v, init) => {
            if let Some(e) = init {
                lemma_raw_expression(e, depth, captured);
            }
        },
        StatementView::Fun(decl) => {
            assert(decl.raw());
            lemma_raw_statements(decl.body, 1, 0);
            assert(decl.reaches(depth));
            assert(decl.captured(captured));
        },
        StatementView::Return(e) => {
            if let Some(e) = e {
                lemma_raw_expression(e, depth, captured);
            }
        },
        StatementView::Block(body) => {
            lemma_raw_statements(body, depth + 1, captured);
        },
        StatementView::While(cond, body) => {
            lemma_raw_expression(cond, depth, captured);
            lemma_raw_statement(*body, depth, captured);
        },
        StatementView::If(cond, then, otherwise) => {
            lemma_raw_expression(cond, depth, captured);
            lemma_raw_statement(*then, depth, captured);
            if let Some(s) = otherwise {
                lemma_raw_statement(*s, depth, captured);
            }
        },
    }
}

/// The same of a list of statements.
pub proof fn lemma_raw_statements(list: Seq<StatementView>, depth: nat, captured: nat)
    requires
        statements_raw(list),
    ensures
        statements_reach(list, depth),
        statements_captured(list, captured),
    decreases list,
{
    assert forall|i: int| 0 <= i < list.len() implies (#[trigger] list[i]).reaches(depth)
        && list[i].captured(captured) by {
        lemma_raw_statement(list[i], depth, captured);
    }
}

/// Resolution makes a program fit to run: whatever the resolver has seen
/// before, the program that it returns for a program as the parser leaves it
/// is resolved, its local addresses mirror the nesting of its blocks and
/// functions, and its captures are within the upvalues that it records.
pub proof fn law_resolution_returns_runnable(st: ResolverView, program: ProgramView)
    requires
        program.raw(),
    ensures
        resolve_program(st, program).1.runnable(),
{
    lemma_raw_statements(program.statements, 0, 0);
    law_resolution_leaves_no_bare_name(st, program);
    law_resolution_mirrors_nesting(st, program);
    law_resolution_counts_captures(st, program);
}

impl MachineView {
    /// The machine is healthy: nothing that it refers to is missing, its
    /// code is resolved and its continuations fit each other, the frames
    /// that its code will walk will be there, and so will the cells that its
    /// code will take from the function that is executing.
    pub open spec fn healthy(self) -> bool {
        &&& self.sound()
        &&& self.orderly()
        &&& self.leveled()
        &&& self.closed()
    }

    /// Whether the machine can be resumed with a value: the value refers to
    /// nothing that the machine does not have. A number, a boolean, a string
    /// and `nil` refer to nothing.
    pub open spec fn accepts(self, value: ValueView) -> bool {
        &&& value_within(value, self.cells.len(), self.code.len())
        &&& value_fits(value, self.code)
    }
}

/// The machine of a new session is healthy.
pub proof fn law_initial_machine_is_healthy()
    ensures
        MachineView::initial().healthy(),
{
}

/// Loading a program that is fit to run leaves a healthy machine healthy,
/// whatever was pending.
pub proof fn law_load_keeps_machine_healthy(m: MachineView, program: ProgramView)
    requires
        m.healthy(),
        program.runnable(),
    ensures
        m.load(program.statements).healthy(),
{
    law_load_keeps_machine_sound(m, program.statements);
    law_load_puts_machine_in_order(m, program.statements);
    law_load_keeps_machine_leveled(m, program.statements);
    law_load_keeps_machine_closed(m, program.statements);
}

/// A step leaves a healthy machine healthy.
pub proof fn law_step_keeps_machine_healthy(m: MachineView)
    requires
        m.healthy(),
    ensures
        m.step().0.healthy(),
{
    law_step_keeps_machine_sound(m);
    law_step_keeps_machine_in_order(m);
    law_step_keeps_machine_leveled(m);
    law_step_keeps_machine_closed(m);
}

/// Resuming with a value that the machine accepts leaves a healthy machine
/// healthy.
pub proof fn law_resume_keeps_machine_healthy(m: MachineView, value: ValueView)
    requires
        m.healthy(),
        m.accepts(value),
    ensures
        m.resume(value).healthy(),
{
    law_resume_keeps_machine_sound(m, value);
    law_resume_keeps_machine_in_order(m, value);
    law_resume_keeps_machine_closed(m, value);
}

/// What health is for. When a healthy machine takes up a variable, the
/// variable is resolved; if its address is local, the frame that the address
/// names exists, and if it is a capture, the function that is executing
/// lists its cell: following the address adds no frame and no captured cell,
/// and the cell that is found exists.
pub proof fn law_healthy_machine_follows_addresses(m: MachineView, v: VariableView)
    requires
        m.healthy(),
        m.control == ControlView::Eval(ExpressionView::Variable(v)),
    ensures
        v.resolved(),
        v matches VariableView::Scoped(depth, _) ==> depth < m.frames.len(),
        v matches VariableView::Closure(slot) ==> slot < m.captures.len(),
        m.locate(v).0.frames.len() == m.frames.len(),
        m.locate(v).0.captures == m.captures,
        m.locate(v).1 < m.locate(v).0.cells.len(),
{
    law_address_finds_its_frame(m, v);
    law_capture_finds_its_cell(m, v);
    lemma_locate_sound(m, v);
    match v {
        VariableView::Scoped(depth, slot) => {},
        VariableView::Closure(slot) => {},
        _ => {},
    }
}

/// The same when a healthy machine is about to assign to a variable or to
/// bind one.
pub proof fn law_healthy_machine_writes_to_addresses(m: MachineView, v: VariableView)
    requires
        m.healthy(),
        m.control is Value,
        m.konts.len() > 0,
        m.konts.last() == KontView::Assign(v) || m.konts.last() == KontView::Bind(v),
    ensures
        v.resolved(),
        v matches VariableView::Scoped(depth, _) ==> depth < m.frames.len(),
        v matches VariableView::Closure(slot) ==> slot < m.captures.len(),
        m.locate(v).0.frames.len() == m.frames.len(),
        m.locate(v).0.captures == m.captures,
        m.locate(v).1 < m.locate(v).0.cells.len(),
{
    assert(kont_resolved(m.konts[m.konts.len() - 1]));
    law_address_finds_its_frame(m, v);
    law_capture_finds_its_cell(m, v);
    lemma_locate_sound(m, v);
}

/// A healthy machine never calls a function value whose declaration is
/// missing: the declaration of every function value that it holds is kept,
/// and has as many upvalues as the value has captured cells.
pub proof fn law_healthy_machine_knows_its_functions(m: MachineView, value: ValueView)
    requires
        m.healthy(),
        m.control == ControlView::Value(value),
        value is Function,
    ensures
        value->code < m.code.len(),
        value->captures.len() == m.code[value->code as int].upvalues.len(),
        forall|i: int| 0 <= i < value->captures.len() ==> value->captures[i] < m.cells.len(),
{
}

} // verus!
