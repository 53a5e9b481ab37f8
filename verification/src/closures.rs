//! Closures hold what their bodies capture: wherever the machine follows a
//! capture of a resolved program, the captured cell is listed by the
//! function that is executing.

use crate::ast::{Binop, ExpressionView, FunctionDeclView, StatementView, VariableView};
use crate::capturing::{
    expressions_captured, statements_captured, variable_captured, variables_captured,
};
use crate::machine::{ControlView, grow_frames, KontView, MachineView};
use crate::object::ValueView;
use crate::order::takes_value;
use crate::soundness::lemma_fill;
use vstd::prelude::*;

verus! {

/// A function value fits its declaration: the declaration is kept, and the
/// value lists one cell for each upvalue of the declaration.
pub open spec fn value_fits(value: ValueView, code: Seq<FunctionDeclView>) -> bool {
    value is Function ==> {
        &&& value->code < code.len()
        &&& value->captures.len() == code[value->code as int].upvalues.len()
    }
}

/// The same of every value of a list.
pub open spec fn values_fit(list: Seq<ValueView>, code: Seq<FunctionDeclView>) -> bool {
    forall|i: int| 0 <= i < list.len() ==> value_fits(#[trigger] list[i], code)
}

/// The same of the value in what is to do next.
pub open spec fn control_fits(control: ControlView, code: Seq<FunctionDeclView>) -> bool {
    match control {
        ControlView::Value(value) => value_fits(value, code),
        ControlView::Done(Some(value)) => value_fits(value, code),
        ControlView::AwaitNative(args) => values_fit(args, code),
        _ => true,
    }
}

/// The same of the values in a continuation.
pub open spec fn kont_fits(kont: KontView, code: Seq<FunctionDeclView>) -> bool {
    match kont {
        KontView::BinopApply(_, value) => value_fits(value, code),
        KontView::Args { callee, done, .. } => value_fits(callee, code) && values_fit(done, code),
        _ => true,
    }
}

/// The code that a continuation holds stands in a function with `captured`
/// upvalues.
pub open spec fn kont_captured(kont: KontView, captured: nat) -> bool {
    match kont {
        KontView::BinopRight(_, rhs) => rhs.captured(captured),
        KontView::Assign(v) => variable_captured(v, captured),
        KontView::Callee(args) => expressions_captured(args, captured),
        KontView::Args { pending, .. } => expressions_captured(pending, captured),
        KontView::Bind(v) => variable_captured(v, captured),
        KontView::Branch(then, otherwise) => {
            &&& then.captured(captured)
            &&& otherwise is Some ==> otherwise->0.captured(captured)
        },
        KontView::Loop(cond, body) => cond.captured(captured) && body.captured(captured),
        KontView::Again(cond, body) => cond.captured(captured) && body.captured(captured),
        KontView::Program(pending) => statements_captured(pending, captured),
        KontView::Block(pending) => statements_captured(pending, captured),
        KontView::Body { pending, .. } => statements_captured(pending, captured),
        _ => true,
    }
}

/// The number of captured cells when a continuation has ended, if there are
/// `captured` while it is the innermost: a function body brings the
/// captured cells of the caller back.
pub open spec fn captured_below(kont: KontView, captured: nat) -> nat {
    match kont {
        KontView::Body { captures, .. } => captures.len(),
        _ => captured,
    }
}

/// The code of every continuation stands in the function that will be
/// executing when the continuation goes on, and its values fit.
pub open spec fn konts_closed(
    konts: Seq<KontView>,
    captured: nat,
    code: Seq<FunctionDeclView>,
) -> bool
    decreases konts.len(),
{
    if konts.len() == 0 {
        true
    } else {
        &&& kont_captured(konts.last(), captured)
        &&& kont_fits(konts.last(), code)
        &&& konts_closed(konts.drop_last(), captured_below(konts.last(), captured), code)
    }
}

/// The body of every declaration that is kept stands in the declared
/// function.
pub open spec fn code_closed(code: Seq<FunctionDeclView>) -> bool {
    forall|c: int|
        0 <= c < code.len() ==> statements_captured(
            (#[trigger] code[c]).body,
            code[c].upvalues.len(),
        )
}

/// Every global fits its declaration.
pub open spec fn globals_fit(
    globals: Map<Seq<char>, ValueView>,
    code: Seq<FunctionDeclView>,
) -> bool {
    forall|name: Seq<char>| #[trigger] globals.contains_key(name) ==> value_fits(globals[name], code)
}

impl MachineView {
    /// Every function value lists one cell for each upvalue of its
    /// declaration, and every capture in the code that the machine holds
    /// has a cell in the list of the function that will be executing when
    /// the machine comes to it.
    pub open spec fn closed(self) -> bool {
        &&& code_closed(self.code)
        &&& values_fit(self.cells, self.code)
        &&& globals_fit(self.globals, self.code)
        &&& control_fits(self.control, self.code)
        &&& konts_closed(self.konts, self.captures.len(), self.code)
        &&& match self.control {
            ControlView::Eval(e) => e.captured(self.captures.len()),
            ControlView::Exec(s) => s.captured(self.captures.len()),
            _ => true,
        }
    }
}

/// A value that fits the declarations that are kept fits them when one more
/// is kept.
pub proof fn lemma_value_fits_more(
    value: ValueView,
    code: Seq<FunctionDeclView>,
    decl: FunctionDeclView,
)
    requires
        value_fits(value, code),
    ensures
        value_fits(value, code.push(decl)),
{
}

/// The same of a list of values.
pub proof fn lemma_values_fit_more(
    list: Seq<ValueView>,
    code: Seq<FunctionDeclView>,
    decl: FunctionDeclView,
)
    requires
        values_fit(list, code),
    ensures
        values_fit(list, code.push(decl)),
{
    assert forall|i: int| 0 <= i < list.len() implies value_fits(
        #[trigger] list[i],
        code.push(decl),
    ) by {
        lemma_value_fits_more(list[i], code, decl);
    }
}

/// The same of a stack of continuations.
pub proof fn lemma_konts_closed_more(
    konts: Seq<KontView>,
    captured: nat,
    code: Seq<FunctionDeclView>,
    decl: FunctionDeclView,
)
    requires
        konts_closed(konts, captured, code),
    ensures
        konts_closed(konts, captured, code.push(decl)),
    decreases konts.len(),
{
    if konts.len() > 0 {
        match konts.last() {
            KontView::BinopApply(_, value) => {
                lemma_value_fits_more(value, code, decl);
            },
            KontView::Args { callee, done, .. } => {
                lemma_value_fits_more(callee, code, decl);
                lemma_values_fit_more(done, code, decl);
            },
            _ => {},
        }
        lemma_konts_closed_more(
            konts.drop_last(),
            captured_below(konts.last(), captured),
            code,
            decl,
        );
    }
}

/// A continuation can be added where its code stands and its values fit.
pub proof fn lemma_push_closed(
    konts: Seq<KontView>,
    kont: KontView,
    captured: nat,
    code: Seq<FunctionDeclView>,
)
    requires
        konts_closed(konts, captured_below(kont, captured), code),
        kont_captured(kont, captured),
        kont_fits(kont, code),
    ensures
        konts_closed(konts.push(kont), captured, code),
{
    assert(konts.push(kont).drop_last() =~= konts);
}

/// The statements after the first of a list that stands in a function stand
/// in it, and so does the first.
pub proof fn lemma_rest_captured(list: Seq<StatementView>, captured: nat)
    requires
        statements_captured(list, captured),
        list.len() > 0,
    ensures
        list[0].captured(captured),
        statements_captured(list.drop_first(), captured),
{
    let rest = list.drop_first();
    assert forall|i: int| 0 <= i < rest.len() implies (#[trigger] rest[i]).captured(captured) by {
        assert(list[i + 1].captured(captured));
    }
}

/// The same of a list of expressions.
pub proof fn lemma_rest_expressions_captured(list: Seq<ExpressionView>, captured: nat)
    requires
        expressions_captured(list, captured),
        list.len() > 0,
    ensures
        list[0].captured(captured),
        expressions_captured(list.drop_first(), captured),
{
    let rest = list.drop_first();
    assert forall|i: int| 0 <= i < rest.len() implies (#[trigger] rest[i]).captured(captured) by {
        assert(list[i + 1].captured(captured));
    }
}

/// Following a capture that the function lists creates no captured cell:
/// the cell is there. No address changes the declarations, the
/// continuations or the globals, and the cells that are added hold `nil`.
pub proof fn law_capture_finds_its_cell(m: MachineView, v: VariableView)
    requires
        variable_captured(v, m.captures.len()),
        values_fit(m.cells, m.code),
    ensures
        m.locate(v).0.captures.len() == m.captures.len(),
        v is Closure ==> m.locate(v).0 == m && m.locate(v).1 == m.captures[v->Closure_0 as int],
        m.locate(v).0.code == m.code,
        m.locate(v).0.konts == m.konts,
        m.locate(v).0.control == m.control,
        m.locate(v).0.globals == m.globals,
        values_fit(m.locate(v).0.cells, m.code),
        value_fits(m.locate(v).0.cell(m.locate(v).1), m.code),
{
    let located = m.locate(v).0;
    match v {
        VariableView::Scoped(depth, slot) => {
            let frames = grow_frames(m.frames, depth);
            let index = frames.len() - 1 - depth;
            lemma_fill(m.cells, frames[index], slot);
        },
        VariableView::Closure(slot) => {
            lemma_fill(m.cells, m.captures, slot);
        },
        _ => {},
    }
    assert forall|i: int| 0 <= i < located.cells.len() implies value_fits(
        #[trigger] located.cells[i],
        m.code,
    ) by {
        if i < m.cells.len() {
            assert(value_fits(m.cells[i], m.code));
        }
    }
}

/// Reading and writing a variable whose capture, if it is one, the function
/// lists: the captured cells stay as many, the value that is read fits, and
/// a value that fits can be written.
pub proof fn lemma_access_closed(m: MachineView, v: VariableView, value: ValueView)
    requires
        variable_captured(v, m.captures.len()),
        values_fit(m.cells, m.code),
        globals_fit(m.globals, m.code),
        value_fits(value, m.code),
    ensures
        m.read(v).0.captures.len() == m.captures.len(),
        m.read(v).0.code == m.code,
        m.read(v).0.konts == m.konts,
        m.read(v).0.control == m.control,
        values_fit(m.read(v).0.cells, m.code),
        globals_fit(m.read(v).0.globals, m.code),
        m.read(v).1 is Ok ==> value_fits(m.read(v).1->Ok_0, m.code),
        m.write(v, value).captures.len() == m.captures.len(),
        m.write(v, value).code == m.code,
        m.write(v, value).konts == m.konts,
        m.write(v, value).control == m.control,
        values_fit(m.write(v, value).cells, m.code),
        globals_fit(m.write(v, value).globals, m.code),
{
    law_capture_finds_its_cell(m, v);
    match v {
        VariableView::Global(name) | VariableView::Unresolved(name) => {
            let globals = m.globals.insert(name, value);
            assert forall|n: Seq<char>| #[trigger] globals.contains_key(n) implies value_fits(
                globals[n],
                m.code,
            ) by {
                if n != name {
                    assert(m.globals.contains_key(n));
                }
            }
        },
        _ => {
            let (located, id) = m.locate(v);
            let written = located.store(id, value);
            assert forall|i: int| 0 <= i < written.cells.len() implies value_fits(
                #[trigger] written.cells[i],
                m.code,
            ) by {
                if i != id {
                    assert(value_fits(located.cells[i], m.code));
                }
            }
        },
    }
}

/// Capturing upvalues that the function lists: one cell is captured for
/// each, and the captured cells of the function that is executing stay as
/// many.
pub proof fn lemma_capture_closed(m: MachineView, upvalues: Seq<VariableView>, n: nat)
    requires
        variables_captured(upvalues, m.captures.len()),
        values_fit(m.cells, m.code),
        n <= upvalues.len(),
    ensures
        m.capture(upvalues, n).1.len() == n,
        m.capture(upvalues, n).0.captures.len() == m.captures.len(),
        m.capture(upvalues, n).0.code == m.code,
        m.capture(upvalues, n).0.konts == m.konts,
        m.capture(upvalues, n).0.control == m.control,
        m.capture(upvalues, n).0.globals == m.globals,
        values_fit(m.capture(upvalues, n).0.cells, m.code),
    decreases n,
{
    if n > 0 {
        lemma_capture_closed(m, upvalues, (n - 1) as nat);
        let m1 = m.capture(upvalues, (n - 1) as nat).0;
        assert(variable_captured(upvalues[n - 1], m.captures.len()));
        law_capture_finds_its_cell(m1, upvalues[n - 1]);
    }
}

/// The parts of a closed machine that a step leaves alone while it changes
/// what is to do next and the continuations.
pub open spec fn stores_closed(m: MachineView) -> bool {
    &&& code_closed(m.code)
    &&& values_fit(m.cells, m.code)
    &&& globals_fit(m.globals, m.code)
}

/// Returning a value that fits leaves the machine closed.
pub proof fn lemma_unwind_closed(m: MachineView, value: ValueView, captured: nat)
    requires
        stores_closed(m),
        konts_closed(m.konts, captured, m.code),
        value_fits(value, m.code),
    ensures
        m.unwind(value).0.closed(),
    decreases m.konts.len(),
{
    if m.konts.len() > 0 {
        match m.konts.last() {
            KontView::Body { .. } => {},
            _ => {
                lemma_unwind_closed(m.pop(), value, captured_below(m.konts.last(), captured));
            },
        }
    }
}

/// Calling a value that fits on arguments that fit leaves the machine
/// closed.
pub proof fn lemma_invoke_closed(m: MachineView, callee: ValueView, args: Seq<ValueView>)
    requires
        stores_closed(m),
        konts_closed(m.konts, m.captures.len(), m.code),
        value_fits(callee, m.code),
        values_fit(args, m.code),
    ensures
        m.invoke(callee, args).0.closed(),
{
    match callee {
        ValueView::Function { code, captures, .. } => {
            if code < m.code.len() && args.len() == m.code[code as int].params.len() {
                let called = m.invoke(callee, args).0;
                let kont = KontView::Body {
                    frames: m.frames,
                    captures: m.captures,
                    pending: m.code[code as int].body,
                };
                assert(statements_captured(
                    m.code[code as int].body,
                    m.code[code as int].upvalues.len(),
                ));
                lemma_push_closed(m.konts, kont, captures.len(), m.code);
                assert forall|i: int| 0 <= i < called.cells.len() implies value_fits(
                    #[trigger] called.cells[i],
                    m.code,
                ) by {
                    if i < m.cells.len() {
                        assert(value_fits(m.cells[i], m.code));
                    } else {
                        assert(value_fits(args[i - m.cells.len()], m.code));
                    }
                }
            }
        },
        _ => {},
    }
}

/// Beginning to evaluate an expression that stands in the function that is
/// executing leaves the machine closed.
pub proof fn lemma_evaluate_closed(m: MachineView, e: ExpressionView)
    requires
        stores_closed(m),
        konts_closed(m.konts, m.captures.len(), m.code),
        e.captured(m.captures.len()),
    ensures
        m.evaluate(e).0.closed(),
{
    let captured = m.captures.len();
    match e {
        ExpressionView::Literal(_) => {},
        ExpressionView::Variable(v) => {
            lemma_access_closed(m, v, ValueView::Nil);
        },
        ExpressionView::Binop(op, lhs, rhs) => {
            if op == Binop::Assignment {
                if let ExpressionView::Variable(v) = *lhs {
                    assert(lhs.captured(captured));
                    lemma_push_closed(m.konts, KontView::Assign(v), captured, m.code);
                }
            } else {
                lemma_push_closed(m.konts, KontView::BinopRight(op, *rhs), captured, m.code);
            }
        },
        ExpressionView::Call(callee, args) => {
            lemma_push_closed(m.konts, KontView::Callee(args), captured, m.code);
        },
    }
}

/// Beginning to execute a statement that stands in the function that is
/// executing leaves the machine closed.
pub proof fn lemma_execute_closed(m: MachineView, s: StatementView)
    requires
        stores_closed(m),
        konts_closed(m.konts, m.captures.len(), m.code),
        s.captured(m.captures.len()),
    ensures
        m.execute(s).0.closed(),
{
    let captured = m.captures.len();
    match s {
        StatementView::Print(e) => {
            lemma_push_closed(m.konts, KontView::Print, captured, m.code);
        },
        StatementView::Expression(e) => {
            lemma_push_closed(m.konts, KontView::Echo, captured, m.code);
        },
        StatementView::Var(v, init) => {
            lemma_push_closed(m.konts, KontView::Bind(v), captured, m.code);
        },
        StatementView::Fun(decl) => {
            assert(decl.captured(captured));
            lemma_capture_closed(m, decl.upvalues, decl.upvalues.len());
            let (taken, cells) = m.capture(decl.upvalues, decl.upvalues.len());
            let kept = MachineView { code: taken.code.push(decl), ..taken };
            let function = ValueView::Function {
                name: decl.name,
                code: taken.code.len(),
                captures: cells,
            };
            lemma_values_fit_more(taken.cells, m.code, decl);
            lemma_konts_closed_more(m.konts, captured, m.code, decl);
            assert forall|n: Seq<char>| #[trigger] kept.globals.contains_key(n) implies value_fits(
                kept.globals[n],
                kept.code,
            ) by {
                lemma_value_fits_more(m.globals[n], m.code, decl);
            }
            assert forall|c: int| 0 <= c < kept.code.len() implies statements_captured(
                (#[trigger] kept.code[c]).body,
                kept.code[c].upvalues.len(),
            ) by {
                if c < m.code.len() {
                    assert(statements_captured(m.code[c].body, m.code[c].upvalues.len()));
                }
            }
            assert(value_fits(function, kept.code));
            lemma_access_closed(kept, decl.binding, function);
        },
        StatementView::Return(e) => match e {
            Some(e) => {
                lemma_push_closed(m.konts, KontView::Return, captured, m.code);
            },
            None => {
                lemma_unwind_closed(m, ValueView::Nil, captured);
            },
        },
        StatementView::Block(body) => {
            lemma_push_closed(m.konts, KontView::Block(body), captured, m.code);
        },
        StatementView::While(cond, body) => {
            lemma_push_closed(m.konts, KontView::Loop(cond, *body), captured, m.code);
        },
        StatementView::If(cond, then, otherwise) => {
            lemma_push_closed(
                m.konts,
                KontView::Branch(
                    *then,
                    match otherwise {
                        Some(s) => Some(*s),
                        None => None,
                    },
                ),
                captured,
                m.code,
            );
        },
    }
}

/// Handing a value that fits to a continuation that waits for one leaves
/// the machine closed.
pub proof fn lemma_apply_closed(m: MachineView, kont: KontView, value: ValueView)
    requires
        stores_closed(m),
        konts_closed(m.konts, m.captures.len(), m.code),
        kont_captured(kont, m.captures.len()),
        kont_fits(kont, m.code),
        value_fits(value, m.code),
        takes_value(kont),
    ensures
        m.apply(kont, value).0.closed(),
{
    let captured = m.captures.len();
    match kont {
        KontView::BinopRight(op, rhs) => {
            lemma_push_closed(m.konts, KontView::BinopApply(op, value), captured, m.code);
        },
        KontView::BinopApply(op, lhs) => {},
        KontView::Assign(v) => {
            lemma_access_closed(m, v, value);
        },
        KontView::Callee(args) => {
            if value.callable() {
                if args.len() == 0 {
                    lemma_invoke_closed(m, value, Seq::empty());
                } else {
                    lemma_rest_expressions_captured(args, captured);
                    lemma_push_closed(
                        m.konts,
                        KontView::Args {
                            callee: value,
                            done: Seq::empty(),
                            pending: args.drop_first(),
                        },
                        captured,
                        m.code,
                    );
                }
            }
        },
        KontView::Args { callee, done, pending } => {
            let values = done.push(value);
            assert forall|i: int| 0 <= i < values.len() implies value_fits(
                #[trigger] values[i],
                m.code,
            ) by {
                if i < done.len() {
                    assert(value_fits(done[i], m.code));
                }
            }
            if pending.len() == 0 {
                lemma_invoke_closed(m, callee, values);
            } else {
                lemma_rest_expressions_captured(pending, captured);
                lemma_push_closed(
                    m.konts,
                    KontView::Args { callee, done: values, pending: pending.drop_first() },
                    captured,
                    m.code,
                );
            }
        },
        KontView::Print => {},
        KontView::Echo => {},
        KontView::Bind(v) => {
            lemma_access_closed(m, v, value);
        },
        KontView::Branch(then, otherwise) => {
            lemma_push_closed(m.konts, KontView::Quiet, captured, m.code);
        },
        KontView::Loop(cond, body) => {
            lemma_push_closed(m.konts, KontView::Again(cond, body), captured, m.code);
        },
        KontView::Return => {
            lemma_unwind_closed(m, value, captured);
        },
        _ => {},
    }
}

/// Telling a continuation that waits for it that a statement is done leaves
/// the machine closed.
pub proof fn lemma_complete_closed(m: MachineView, kont: KontView, result: Option<ValueView>)
    requires
        stores_closed(m),
        konts_closed(m.konts, captured_below(kont, m.captures.len()), m.code),
        kont_captured(kont, m.captures.len()),
        kont_fits(kont, m.code),
        result is Some ==> value_fits(result->0, m.code),
        !takes_value(kont),
    ensures
        m.complete(kont, result).0.closed(),
{
    let captured = m.captures.len();
    match kont {
        KontView::Program(pending) => {
            if pending.len() > 0 {
                lemma_rest_captured(pending, captured);
                lemma_push_closed(
                    m.konts,
                    KontView::Program(pending.drop_first()),
                    captured,
                    m.code,
                );
            }
        },
        KontView::Block(pending) => {
            if pending.len() > 0 {
                lemma_rest_captured(pending, captured);
                lemma_push_closed(m.konts, KontView::Block(pending.drop_first()), captured, m.code);
            }
        },
        KontView::Body { frames, captures, pending } => {
            if pending.len() > 0 {
                lemma_rest_captured(pending, captured);
                lemma_push_closed(
                    m.konts,
                    KontView::Body { frames, captures, pending: pending.drop_first() },
                    captured,
                    m.code,
                );
            }
        },
        KontView::Again(cond, body) => {
            lemma_push_closed(m.konts, KontView::Loop(cond, body), captured, m.code);
        },
        KontView::Quiet => {},
        _ => {},
    }
}

/// Loading a program whose captures are within the upvalues that it lists
/// leaves a closed machine closed.
pub proof fn law_load_keeps_machine_closed(m: MachineView, statements: Seq<StatementView>)
    requires
        stores_closed(m),
        statements_captured(statements, 0),
    ensures
        m.load(statements).closed(),
{
    let konts = seq![KontView::Program(statements)];
    assert(konts.last() == KontView::Program(statements));
    assert(konts.drop_last() =~= Seq::<KontView>::empty());
    assert(konts_closed(konts.drop_last(), 0, m.code));
    assert(konts_closed(konts, 0, m.code));
    assert(m.load(statements).konts == konts);
    assert(m.load(statements).captures.len() == 0);
}

/// Closures hold what their bodies capture: a step takes a machine that is
/// in order and closed to a closed machine. So in a session that began with
/// a new machine and loaded only programs that resolution returned, every
/// capture that the machine follows has its cell in the list of the function
/// that is executing, and every function value has one cell for each upvalue
/// of its declaration.
pub proof fn law_step_keeps_machine_closed(m: MachineView)
    requires
        m.orderly(),
        m.closed(),
    ensures
        m.step().0.closed(),
{
    let rest = m.goto(ControlView::Idle);
    match m.control {
        ControlView::Idle => {},
        ControlView::Eval(e) => {
            lemma_evaluate_closed(rest, e);
        },
        ControlView::Exec(s) => {
            lemma_execute_closed(rest, s);
        },
        ControlView::Value(value) => {
            let kont = m.konts.last();
            assert(captured_below(kont, m.captures.len()) == m.captures.len());
            lemma_apply_closed(rest.pop(), kont, value);
        },
        ControlView::Done(result) => {
            if m.konts.len() > 0 {
                lemma_complete_closed(rest.pop(), m.konts.last(), result);
            }
        },
        ControlView::AwaitNumeric(op, a, b) => {},
        ControlView::AwaitNative(args) => {},
    }
}

/// Resuming with a value that fits leaves a machine closed. A number, a
/// boolean, a string and `nil` fit.
pub proof fn law_resume_keeps_machine_closed(m: MachineView, value: ValueView)
    requires
        m.closed(),
        value_fits(value, m.code),
    ensures
        m.resume(value).closed(),
{
}

} // verus!
