//! The machine stays in order: its code is resolved and its continuations
//! fit each other, in every state that a session can reach.

use crate::ast::{
    Binop, expressions_resolved, ExpressionView, statements_resolved, StatementView, VariableView,
};
use crate::machine::{ControlView, KontView, MachineView};
use crate::object::ValueView;
use crate::soundness::lemma_locate;
use vstd::prelude::*;

verus! {

/// A continuation that waits for a value; the others wait for a statement
/// to be done.
pub open spec fn takes_value(kont: KontView) -> bool {
    kont is BinopRight || kont is BinopApply || kont is Assign || kont is Callee || kont is Args
        || kont is Print || kont is Echo || kont is Bind || kont is Branch || kont is Loop
        || kont is Return
}

/// A continuation that ends by handing a value to the one below it; the
/// others end by telling it that a statement is done.
pub open spec fn gives_value(kont: KontView) -> bool {
    kont is BinopRight || kont is BinopApply || kont is Assign || kont is Callee || kont is Args
        || kont is Body
}

/// The code that a continuation holds is resolved, and its operator, if it
/// has one, is no assignment.
pub open spec fn kont_resolved(kont: KontView) -> bool {
    match kont {
        KontView::BinopRight(op, rhs) => op != Binop::Assignment && rhs.resolved(),
        KontView::BinopApply(op, _) => op != Binop::Assignment,
        KontView::Assign(v) => v.resolved(),
        KontView::Callee(args) => expressions_resolved(args),
        KontView::Args { pending, .. } => expressions_resolved(pending),
        KontView::Bind(v) => v.resolved(),
        KontView::Branch(then, otherwise) => {
            &&& then.resolved()
            &&& otherwise is Some ==> otherwise->0.resolved()
        },
        KontView::Loop(cond, body) => cond.resolved() && body.resolved(),
        KontView::Program(pending) => statements_resolved(pending),
        KontView::Block(pending) => statements_resolved(pending),
        KontView::Body { pending, .. } => statements_resolved(pending),
        KontView::Again(cond, body) => cond.resolved() && body.resolved(),
        _ => true,
    }
}

/// The stack of continuations waits for a value.
pub open spec fn wants_value(konts: Seq<KontView>) -> bool {
    konts.len() > 0 && takes_value(konts.last())
}

/// The stack of continuations waits for a statement to be done.
pub open spec fn wants_done(konts: Seq<KontView>) -> bool {
    konts.len() == 0 || !takes_value(konts.last())
}

impl MachineView {
    /// The code that the machine keeps is resolved, and each continuation
    /// ends with what the one below it waits for.
    pub open spec fn chained(self) -> bool {
        &&& forall|c: int| 0 <= c < self.code.len() ==> (#[trigger] self.code[c]).resolved()
        &&& forall|k: int| 0 <= k < self.konts.len() ==> kont_resolved(#[trigger] self.konts[k])
        &&& forall|k: int|
            0 < k < self.konts.len() ==> gives_value(#[trigger] self.konts[k]) == takes_value(
                self.konts[k - 1],
            )
        &&& self.konts.len() > 0 ==> !gives_value(self.konts[0])
    }

    /// The machine is in order: its code is resolved, its continuations fit
    /// each other, and what is to do next is what the innermost continuation
    /// waits for.
    pub open spec fn orderly(self) -> bool {
        &&& self.chained()
        &&& match self.control {
            ControlView::Idle => self.konts.len() == 0,
            ControlView::Eval(e) => e.resolved() && wants_value(self.konts),
            ControlView::Exec(s) => s.resolved() && wants_done(self.konts),
            ControlView::Value(_) => wants_value(self.konts),
            ControlView::Done(_) => wants_done(self.konts),
            ControlView::AwaitNumeric(op, _, _) => wants_value(self.konts),
            ControlView::AwaitNative(_) => wants_value(self.konts),
        }
    }
}

/// A chain stays a chain when it gets a continuation that ends with what
/// the innermost one waits for.
pub proof fn lemma_push_chained(m: MachineView, kont: KontView)
    requires
        m.chained(),
        kont_resolved(kont),
        gives_value(kont) == wants_value(m.konts),
    ensures
        m.push(kont).chained(),
        m.push(kont).konts.last() == kont,
{
    let konts = m.konts.push(kont);
    assert forall|k: int| 0 <= k < konts.len() implies kont_resolved(#[trigger] konts[k]) by {
        if k < m.konts.len() {
            assert(kont_resolved(m.konts[k]));
        }
    }
    assert forall|k: int| 0 < k < konts.len() implies gives_value(#[trigger] konts[k])
        == takes_value(konts[k - 1]) by {
        if k < m.konts.len() {
            assert(gives_value(m.konts[k]) == takes_value(m.konts[k - 1]));
        }
    }
}

/// A chain stays a chain when its innermost continuation is taken off, and
/// what is left waits for what that continuation ends with.
pub proof fn lemma_pop_chained(m: MachineView)
    requires
        m.chained(),
        m.konts.len() > 0,
    ensures
        m.pop().chained(),
        kont_resolved(m.konts.last()),
        gives_value(m.konts.last()) == wants_value(m.pop().konts),
{
    let konts = m.konts.drop_last();
    assert forall|k: int| 0 <= k < konts.len() implies kont_resolved(#[trigger] konts[k]) by {
        assert(kont_resolved(m.konts[k]));
    }
    assert forall|k: int| 0 < k < konts.len() implies gives_value(#[trigger] konts[k])
        == takes_value(konts[k - 1]) by {
        assert(gives_value(m.konts[k]) == takes_value(m.konts[k - 1]));
    }
    let last = m.konts.len() - 1;
    assert(kont_resolved(m.konts[last]));
    if last > 0 {
        assert(gives_value(m.konts[last]) == takes_value(m.konts[last - 1]));
        assert(konts.last() == m.konts[last - 1]);
    }
}

/// Locating, reading and writing leave the code and the continuations
/// alone.
pub proof fn lemma_write_chained(m: MachineView, v: VariableView, value: ValueView)
    requires
        m.chained(),
    ensures
        m.write(v, value).chained(),
        m.write(v, value).konts == m.konts,
        m.read(v).0.chained(),
        m.read(v).0.konts == m.konts,
{
    lemma_locate(m, v);
    let (located, id) = m.locate(v);
    assert(located.store(id, value).code == m.code);
}

/// Capturing upvalues leaves the code and the continuations alone.
pub proof fn lemma_capture_chained(m: MachineView, upvalues: Seq<VariableView>, n: nat)
    requires
        n <= upvalues.len(),
    ensures
        m.capture(upvalues, n).0.code == m.code,
        m.capture(upvalues, n).0.konts == m.konts,
    decreases n,
{
    if n > 0 {
        lemma_capture_chained(m, upvalues, (n - 1) as nat);
        lemma_locate(m.capture(upvalues, (n - 1) as nat).0, upvalues[n - 1]);
    }
}

/// Returning leaves the machine in order.
pub proof fn lemma_unwind_orderly(m: MachineView, value: ValueView)
    requires
        m.chained(),
    ensures
        m.unwind(value).0.orderly(),
    decreases m.konts.len(),
{
    if m.konts.len() > 0 {
        lemma_pop_chained(m);
        match m.konts.last() {
            KontView::Body { .. } => {},
            _ => {
                lemma_unwind_orderly(m.pop(), value);
            },
        }
    }
}

/// Calling leaves the machine in order.
pub proof fn lemma_invoke_orderly(m: MachineView, callee: ValueView, args: Seq<ValueView>)
    requires
        m.chained(),
        wants_value(m.konts),
    ensures
        m.invoke(callee, args).0.orderly(),
{
    match callee {
        ValueView::Function { code, captures, .. } => {
            if code < m.code.len() && args.len() == m.code[code as int].params.len() {
                let kont = KontView::Body {
                    frames: m.frames,
                    captures: m.captures,
                    pending: m.code[code as int].body,
                };
                assert(m.code[code as int].resolved());
                lemma_push_chained(m, kont);
                assert(m.invoke(callee, args).0.konts == m.push(kont).konts);
            }
        },
        _ => {},
    }
}

/// The statements after the first of a resolved list are resolved, and so
/// is the first.
pub proof fn lemma_rest_resolved(list: Seq<StatementView>)
    requires
        statements_resolved(list),
        list.len() > 0,
    ensures
        list[0].resolved(),
        statements_resolved(list.drop_first()),
{
    let rest = list.drop_first();
    assert forall|i: int| 0 <= i < rest.len() implies (#[trigger] rest[i]).resolved() by {
        assert(list[i + 1].resolved());
    }
}

/// The expressions after the first of a resolved list are resolved, and so
/// is the first.
pub proof fn lemma_rest_expressions_resolved(list: Seq<ExpressionView>)
    requires
        expressions_resolved(list),
        list.len() > 0,
    ensures
        list[0].resolved(),
        expressions_resolved(list.drop_first()),
{
    let rest = list.drop_first();
    assert forall|i: int| 0 <= i < rest.len() implies (#[trigger] rest[i]).resolved() by {
        assert(list[i + 1].resolved());
    }
}

/// Beginning to evaluate a resolved expression leaves the machine in order.
pub proof fn lemma_evaluate_orderly(m: MachineView, e: ExpressionView)
    requires
        m.chained(),
        wants_value(m.konts),
        e.resolved(),
    ensures
        m.evaluate(e).0.orderly(),
{
    match e {
        ExpressionView::Literal(_) => {},
        ExpressionView::Variable(v) => {
            lemma_write_chained(m, v, ValueView::Nil);
        },
        ExpressionView::Binop(op, lhs, rhs) => {
            if op == Binop::Assignment {
                assert(lhs.resolved());
                lemma_push_chained(m, KontView::Assign(lhs->Variable_0));
            } else {
                lemma_push_chained(m, KontView::BinopRight(op, *rhs));
            }
        },
        ExpressionView::Call(callee, args) => {
            lemma_push_chained(m, KontView::Callee(args));
        },
    }
}

/// Beginning to execute a resolved statement leaves the machine in order.
pub proof fn lemma_execute_orderly(m: MachineView, s: StatementView)
    requires
        m.chained(),
        wants_done(m.konts),
        s.resolved(),
    ensures
        m.execute(s).0.orderly(),
{
    match s {
        StatementView::Print(e) => {
            lemma_push_chained(m, KontView::Print);
        },
        StatementView::Expression(e) => {
            lemma_push_chained(m, KontView::Echo);
        },
        StatementView::Var(v, init) => {
            lemma_push_chained(m, KontView::Bind(v));
        },
        StatementView::Fun(decl) => {
            lemma_capture_chained(m, decl.upvalues, decl.upvalues.len());
            let (captured, cells) = m.capture(decl.upvalues, decl.upvalues.len());
            let kept = MachineView { code: captured.code.push(decl), ..captured };
            assert forall|c: int| 0 <= c < kept.code.len() implies
                (#[trigger] kept.code[c]).resolved() by {
                if c < m.code.len() {
                    assert(m.code[c].resolved());
                }
            }
            assert(kept.chained());
            let function = ValueView::Function {
                name: decl.name,
                code: captured.code.len(),
                captures: cells,
            };
            lemma_write_chained(kept, decl.binding, function);
        },
        StatementView::Return(e) => match e {
            Some(e) => {
                lemma_push_chained(m, KontView::Return);
            },
            None => {
                lemma_unwind_orderly(m, ValueView::Nil);
            },
        },
        StatementView::Block(body) => {
            lemma_push_chained(m, KontView::Block(body));
            assert(m.execute(s).0.konts == m.push(KontView::Block(body)).konts);
        },
        StatementView::While(cond, body) => {
            lemma_push_chained(m, KontView::Loop(cond, *body));
        },
        StatementView::If(cond, then, otherwise) => {
            lemma_push_chained(
                m,
                KontView::Branch(
                    *then,
                    match otherwise {
                        Some(s) => Some(*s),
                        None => None,
                    },
                ),
            );
        },
    }
}

/// Handing a value to a continuation that waits for one leaves the machine
/// in order.
pub proof fn lemma_apply_orderly(m: MachineView, kont: KontView, value: ValueView)
    requires
        m.chained(),
        kont_resolved(kont),
        takes_value(kont),
        gives_value(kont) == wants_value(m.konts),
    ensures
        m.apply(kont, value).0.orderly(),
{
    match kont {
        KontView::BinopRight(op, rhs) => {
            lemma_push_chained(m, KontView::BinopApply(op, value));
        },
        KontView::BinopApply(op, lhs) => {},
        KontView::Assign(v) => {
            lemma_write_chained(m, v, value);
        },
        KontView::Callee(args) => {
            if value.callable() {
                if args.len() == 0 {
                    lemma_invoke_orderly(m, value, Seq::empty());
                } else {
                    lemma_rest_expressions_resolved(args);
                    lemma_push_chained(
                        m,
                        KontView::Args {
                            callee: value,
                            done: Seq::empty(),
                            pending: args.drop_first(),
                        },
                    );
                }
            }
        },
        KontView::Args { callee, done, pending } => {
            if pending.len() == 0 {
                lemma_invoke_orderly(m, callee, done.push(value));
            } else {
                lemma_rest_expressions_resolved(pending);
                lemma_push_chained(
                    m,
                    KontView::Args {
                        callee,
                        done: done.push(value),
                        pending: pending.drop_first(),
                    },
                );
            }
        },
        KontView::Print => {},
        KontView::Echo => {},
        KontView::Bind(v) => {
            lemma_write_chained(m, v, value);
        },
        KontView::Branch(then, otherwise) => {
            lemma_push_chained(m, KontView::Quiet);
        },
        KontView::Loop(cond, body) => {
            lemma_push_chained(m, KontView::Again(cond, body));
        },
        KontView::Return => {
            lemma_unwind_orderly(m, value);
        },
        _ => {},
    }
}

/// Telling a continuation that waits for it that a statement is done leaves
/// the machine in order.
pub proof fn lemma_complete_orderly(m: MachineView, kont: KontView, result: Option<ValueView>)
    requires
        m.chained(),
        kont_resolved(kont),
        !takes_value(kont),
        gives_value(kont) == wants_value(m.konts),
    ensures
        m.complete(kont, result).0.orderly(),
{
    match kont {
        KontView::Program(pending) => {
            if pending.len() > 0 {
                lemma_rest_resolved(pending);
                lemma_push_chained(m, KontView::Program(pending.drop_first()));
            }
        },
        KontView::Block(pending) => {
            if pending.len() > 0 {
                lemma_rest_resolved(pending);
                lemma_push_chained(m, KontView::Block(pending.drop_first()));
            }
        },
        KontView::Body { frames, captures, pending } => {
            if pending.len() > 0 {
                lemma_rest_resolved(pending);
                lemma_push_chained(
                    m,
                    KontView::Body { frames, captures, pending: pending.drop_first() },
                );
            }
        },
        KontView::Again(cond, body) => {
            lemma_push_chained(m, KontView::Loop(cond, body));
        },
        KontView::Quiet => {},
        _ => {},
    }
}

/// Loading a resolved program puts a machine in order, whatever was
/// pending, if the declarations that it keeps are resolved.
pub proof fn law_load_puts_machine_in_order(m: MachineView, statements: Seq<StatementView>)
    requires
        forall|c: int| 0 <= c < m.code.len() ==> (#[trigger] m.code[c]).resolved(),
        statements_resolved(statements),
    ensures
        m.load(statements).orderly(),
{
}

/// The evaluator never sees a bare name: a step takes a machine in order to
/// a machine in order. So in a session that began with a new machine and
/// loaded resolved programs only, every expression and statement that the
/// machine takes up is resolved, every value finds a continuation that waits
/// for a value, and every statement that is done finds one that waits for
/// that or ends the program.
pub proof fn law_step_keeps_machine_in_order(m: MachineView)
    requires
        m.orderly(),
    ensures
        m.step().0.orderly(),
{
    let rest = m.goto(ControlView::Idle);
    match m.control {
        ControlView::Idle => {},
        ControlView::Eval(e) => {
            lemma_evaluate_orderly(rest, e);
        },
        ControlView::Exec(s) => {
            lemma_execute_orderly(rest, s);
        },
        ControlView::Value(value) => {
            lemma_pop_chained(rest);
            lemma_apply_orderly(rest.pop(), m.konts.last(), value);
        },
        ControlView::Done(result) => {
            if m.konts.len() > 0 {
                lemma_pop_chained(rest);
                lemma_complete_orderly(rest.pop(), m.konts.last(), result);
            }
        },
        ControlView::AwaitNumeric(op, a, b) => {},
        ControlView::AwaitNative(args) => {},
    }
}

/// Resuming leaves a machine in order.
pub proof fn law_resume_keeps_machine_in_order(m: MachineView, value: ValueView)
    requires
        m.orderly(),
    ensures
        m.resume(value).orderly(),
{
}

} // verus!
