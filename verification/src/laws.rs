//! Laws of the machine: how variables, cells and calls behave in every
//! state.

use crate::ast::{ExpressionView, FunctionDeclView, StatementView, VariableView};
use crate::machine::{
    ActionView, ControlView, fill, grow_frames, KontView, MachineView, RuntimeErrorView,
};
use crate::object::ValueView;
use crate::soundness::{
    lemma_capture_sound, lemma_fill, lemma_locate, lemma_locate_sound, lemma_within_grows,
};
use vstd::prelude::*;

verus! {

/// A local address: one that denotes a cell.
pub open spec fn is_local(v: VariableView) -> bool {
    v is Scoped || v is Closure
}

/// Sharing: a local address keeps its cell. Whoever locates it again, at the
/// same place, gets the same cell, and the machine as it is: so two
/// functions that capture one variable hold one cell, and each sees what the
/// other writes.
pub proof fn law_address_keeps_its_cell(m: MachineView, v: VariableView)
    requires
        is_local(v),
    ensures
        ({
            let (located, id) = m.locate(v);
            located.locate(v) == (located, id)
        }),
{
    let (located, id) = m.locate(v);
    match v {
        VariableView::Scoped(depth, slot) => {
            let frames = grow_frames(m.frames, depth);
            let index = frames.len() - 1 - depth;
            lemma_fill(m.cells, frames[index], slot);
            let (cells, frame) = fill(m.cells, frames[index], slot);
            assert(located.frames == frames.update(index, frame));
            assert(grow_frames(located.frames, depth) == located.frames);
            lemma_fill(located.cells, located.frames[index], slot);
            assert(located.frames.update(index, frame) =~= located.frames);
        },
        VariableView::Closure(slot) => {
            lemma_fill(m.cells, m.captures, slot);
            lemma_fill(located.cells, located.captures, slot);
        },
        _ => {},
    }
}

/// Assignment binds: a variable that was written, whatever its address,
/// reads as the value that was written, and that read changes nothing.
pub proof fn law_read_after_write(m: MachineView, v: VariableView, value: ValueView)
    requires
        m.sound(),
    ensures
        m.write(v, value).read(v) == (
            m.write(v, value),
            Ok::<ValueView, RuntimeErrorView>(value),
        ),
{
    if is_local(v) {
        let (located, id) = m.locate(v);
        lemma_locate(m, v);
        lemma_locate_sound(m, v);
        law_address_keeps_its_cell(m, v);
        let written = located.store(id, value);
        assert(written.frames == located.frames && written.captures == located.captures);
        match v {
            VariableView::Scoped(depth, slot) => {
                let index = located.frames.len() - 1 - depth;
                let frames = grow_frames(m.frames, depth);
                lemma_fill(m.cells, frames[index], slot);
                assert(grow_frames(written.frames, depth) == written.frames);
                lemma_fill(written.cells, written.frames[index], slot);
                assert(written.frames.update(index, written.frames[index]) =~= written.frames);
            },
            VariableView::Closure(slot) => {
                lemma_fill(m.cells, m.captures, slot);
                lemma_fill(written.cells, written.captures, slot);
            },
            _ => {},
        }
        assert(written.locate(v) == (written, id));
    } else {
        let name = match v {
            VariableView::Global(name) => name,
            VariableView::Unresolved(name) => name,
            _ => Seq::empty(),
        };
        assert(m.write(v, value).globals.contains_key(name));
    }
}

/// Independence: a write to a local variable changes the cell of that
/// variable and no other cell that there was, and no global.
pub proof fn law_write_changes_one_cell(m: MachineView, v: VariableView, value: ValueView)
    requires
        m.sound(),
        is_local(v),
    ensures
        ({
            let id = m.locate(v).1;
            let written = m.write(v, value);
            &&& written.cell(id) == value
            &&& forall|other: nat| other != id ==> written.cell(other) == m.cell(other)
            &&& written.globals == m.globals
        }),
{
    lemma_locate(m, v);
    lemma_locate_sound(m, v);
}

/// Independence: a call of a function gives every parameter a cell that did
/// not exist before the call, and leaves every cell that did as it was. So
/// the locals of two invocations of one function are never the same cells.
pub proof fn law_invocation_gets_new_cells(
    m: MachineView,
    callee: ValueView,
    args: Seq<ValueView>,
)
    requires
        callee is Function,
        callee->code < m.code.len(),
        args.len() == m.code[callee->code as int].params.len(),
    ensures
        ({
            let (called, action) = m.invoke(callee, args);
            &&& action == ActionView::Continue
            &&& called.frames.len() == 1
            &&& called.frames[0].len() == args.len()
            &&& called.captures == callee->captures
            &&& forall|slot: int|
                0 <= slot < args.len() ==> {
                    &&& (#[trigger] called.frames[0][slot]) >= m.cells.len()
                    &&& called.cell(called.frames[0][slot]) == args[slot]
                }
            &&& forall|id: nat| id < m.cells.len() ==> called.cell(id) == m.cell(id)
            &&& called.konts.last() == (KontView::Body {
                frames: m.frames,
                captures: m.captures,
                pending: m.code[callee->code as int].body,
            })
        }),
{
}

/// A call with the wrong number of arguments fails with the number of
/// parameters and the number of arguments, and executes none of the
/// function's body: the machine is at rest, with nothing pending, and its
/// globals and cells are as they were.
pub proof fn law_arity_mismatch(m: MachineView, callee: ValueView, args: Seq<ValueView>)
    requires
        callee is Function,
        callee->code < m.code.len(),
        args.len() != m.code[callee->code as int].params.len(),
    ensures
        m.invoke(callee, args) == (
            m.halt(),
            ActionView::Failed(
                RuntimeErrorView::ArityMismatch(
                    m.code[callee->code as int].params.len(),
                    args.len(),
                ),
            ),
        ),
        m.halt().konts.len() == 0,
        m.halt().control is Idle,
        m.halt().cells == m.cells,
        m.halt().globals == m.globals,
{
}

/// Reading a global is an error exactly when the global was never assigned,
/// and the error names it.
pub proof fn law_undefined_global(m: MachineView, name: Seq<char>)
    ensures
        !m.globals.contains_key(name) ==> m.evaluate(
            ExpressionView::Variable(VariableView::Global(name)),
        ) == (m.halt(), ActionView::Failed(RuntimeErrorView::UndefinedVariable(name))),
        m.globals.contains_key(name) ==> m.evaluate(
            ExpressionView::Variable(VariableView::Global(name)),
        ) == (m.goto(ControlView::Value(m.globals[name])), ActionView::Continue),
{
}

/// Truthiness: an `if` takes its first branch for every condition but `nil`
/// and `false`, the number zero included, and its second branch, if it has
/// one, for those two.
pub proof fn law_branch_follows_truthiness(
    m: MachineView,
    then: StatementView,
    otherwise: StatementView,
    value: ValueView,
)
    ensures
        ({
            let next = m.apply(KontView::Branch(then, Some(otherwise)), value).0;
            let falsy = value is Nil || value == ValueView::Bool(false);
            &&& !falsy ==> next.control == ControlView::Exec(then)
            &&& falsy ==> next.control == ControlView::Exec(otherwise)
        }),
        ValueView::Number(0).truthy(),
{
}

/// Assignment is an expression: the value that is assigned is the value of
/// the assignment, and the variable holds it afterwards.
pub proof fn law_assignment_yields_its_value(m: MachineView, v: VariableView, value: ValueView)
    requires
        m.sound(),
    ensures
        ({
            let (next, action) = m.apply(KontView::Assign(v), value);
            &&& action == ActionView::Continue
            &&& next.control == ControlView::Value(value)
            &&& next.read(v).1 == Ok::<ValueView, RuntimeErrorView>(value)
        }),
{
    law_read_after_write(m, v, value);
    let written = m.write(v, value);
    let next = written.goto(ControlView::Value(value));
    lemma_read_ignores_control(written, ControlView::Value(value), v);
}

/// What is to do next has no part in reading a variable.
pub proof fn lemma_read_ignores_control(m: MachineView, control: ControlView, v: VariableView)
    ensures
        m.goto(control).read(v) == (m.read(v).0.goto(control), m.read(v).1),
{
    lemma_locate(m, v);
    lemma_locate(m.goto(control), v);
}

/// A function declaration binds a function that refers to the declaration
/// and has one captured cell for each upvalue.
pub proof fn law_declaration_captures_each_upvalue(m: MachineView, decl: FunctionDeclView)
    requires
        m.sound(),
    ensures
        ({
            let (captured, cells) = m.capture(decl.upvalues, decl.upvalues.len());
            &&& cells.len() == decl.upvalues.len()
            &&& m.declare(decl).code == captured.code.push(decl)
            &&& m.declare(decl).read(decl.binding).1 == Ok::<ValueView, RuntimeErrorView>(
                ValueView::Function { name: decl.name, code: captured.code.len(), captures: cells },
            )
        }),
{
    lemma_capture_sound(m, decl.upvalues, decl.upvalues.len());
    let (captured, cells) = m.capture(decl.upvalues, decl.upvalues.len());
    let kept = MachineView { code: captured.code.push(decl), ..captured };
    lemma_within_grows(
        captured,
        captured.cells.len(),
        captured.code.len(),
        captured.cells.len(),
        kept.code.len(),
    );
    let function = ValueView::Function {
        name: decl.name,
        code: captured.code.len(),
        captures: cells,
    };
    law_read_after_write(kept, decl.binding, function);
    lemma_locate(kept, decl.binding);
}

} // verus!
