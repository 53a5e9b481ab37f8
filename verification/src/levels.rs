//! Runtime nesting mirrors static nesting: wherever the machine follows a
//! local address of a resolved program, the frames that the address walks
//! exist.

use crate::ast::{Binop, ExpressionView, StatementView, VariableView};
use crate::machine::{ControlView, grow_frames, KontView, MachineView};
use crate::nesting::{expressions_reach, statements_reach, variable_reaches, variables_reach};
use crate::object::ValueView;
use crate::order::takes_value;
use crate::soundness::lemma_fill;
use vstd::prelude::*;

verus! {

/// The code that a continuation holds can be followed where `depth` frames
/// are around it.
pub open spec fn kont_reaches(kont: KontView, depth: nat) -> bool {
    match kont {
        KontView::BinopRight(_, rhs) => rhs.reaches(depth),
        KontView::Assign(v) => variable_reaches(v, depth),
        KontView::Callee(args) => expressions_reach(args, depth),
        KontView::Args { pending, .. } => expressions_reach(pending, depth),
        KontView::Bind(v) => variable_reaches(v, depth),
        KontView::Branch(then, otherwise) => {
            &&& then.reaches(depth)
            &&& otherwise is Some ==> otherwise->0.reaches(depth)
        },
        KontView::Loop(cond, body) => cond.reaches(depth) && body.reaches(depth),
        KontView::Again(cond, body) => cond.reaches(depth) && body.reaches(depth),
        KontView::Program(pending) => statements_reach(pending, depth),
        KontView::Block(pending) => depth >= 1 && statements_reach(pending, depth),
        KontView::Body { pending, .. } => statements_reach(pending, depth),
        _ => true,
    }
}

/// The number of frames when a continuation has ended, if there are `depth`
/// while it is the innermost: a block drops its frame, and a function body
/// brings the frames of the caller back.
pub open spec fn depth_below(kont: KontView, depth: nat) -> nat {
    match kont {
        KontView::Block(_) => (depth - 1) as nat,
        KontView::Body { frames, .. } => frames.len(),
        _ => depth,
    }
}

/// The code of every continuation can be followed where the continuation
/// will go on, if there are `depth` frames now.
pub open spec fn konts_leveled(konts: Seq<KontView>, depth: nat) -> bool
    decreases konts.len(),
{
    if konts.len() == 0 {
        true
    } else {
        &&& kont_reaches(konts.last(), depth)
        &&& konts_leveled(konts.drop_last(), depth_below(konts.last(), depth))
    }
}

impl MachineView {
    /// Every local address in the code that the machine holds can be
    /// followed where the machine will come to it.
    pub open spec fn leveled(self) -> bool {
        &&& forall|c: int|
            0 <= c < self.code.len() ==> statements_reach((#[trigger] self.code[c]).body, 1)
        &&& konts_leveled(self.konts, self.frames.len())
        &&& match self.control {
            ControlView::Eval(e) => e.reaches(self.frames.len()),
            ControlView::Exec(s) => s.reaches(self.frames.len()),
            _ => true,
        }
    }
}

/// A continuation that neither drops a frame nor brings frames back can be
/// added where its code can be followed.
pub proof fn lemma_push_leveled(konts: Seq<KontView>, kont: KontView, depth: nat)
    requires
        konts_leveled(konts, depth_below(kont, depth)),
        kont_reaches(kont, depth),
    ensures
        konts_leveled(konts.push(kont), depth),
{
    assert(konts.push(kont).drop_last() =~= konts);
}

/// The statements after the first of a list that can be followed can be
/// followed, and so can the first.
pub proof fn lemma_rest_reaches(list: Seq<StatementView>, depth: nat)
    requires
        statements_reach(list, depth),
        list.len() > 0,
    ensures
        list[0].reaches(depth),
        statements_reach(list.drop_first(), depth),
{
    let rest = list.drop_first();
    assert forall|i: int| 0 <= i < rest.len() implies (#[trigger] rest[i]).reaches(depth) by {
        assert(list[i + 1].reaches(depth));
    }
}

/// The same of a list of expressions.
pub proof fn lemma_rest_expressions_reach(list: Seq<ExpressionView>, depth: nat)
    requires
        expressions_reach(list, depth),
        list.len() > 0,
    ensures
        list[0].reaches(depth),
        expressions_reach(list.drop_first(), depth),
{
    let rest = list.drop_first();
    assert forall|i: int| 0 <= i < rest.len() implies (#[trigger] rest[i]).reaches(depth) by {
        assert(list[i + 1].reaches(depth));
    }
}

/// Following an address that can be followed creates no frame: the frames
/// that it walks are there. The code and the continuations stay.
pub proof fn law_address_finds_its_frame(m: MachineView, v: VariableView)
    requires
        variable_reaches(v, m.frames.len()),
    ensures
        m.locate(v).0.frames.len() == m.frames.len(),
        v is Scoped ==> grow_frames(m.frames, v->Scoped_0) == m.frames,
        m.locate(v).0.code == m.code,
        m.locate(v).0.konts == m.konts,
        m.locate(v).0.control == m.control,
        m.read(v).0.frames.len() == m.frames.len(),
        m.read(v).0.code == m.code,
        m.read(v).0.konts == m.konts,
        m.read(v).0.control == m.control,
        forall|value: ValueView| (#[trigger] m.write(v, value)).frames.len() == m.frames.len(),
        forall|value: ValueView| (#[trigger] m.write(v, value)).code == m.code,
        forall|value: ValueView| (#[trigger] m.write(v, value)).konts == m.konts,
        forall|value: ValueView| (#[trigger] m.write(v, value)).control == m.control,
{
    match v {
        VariableView::Scoped(depth, slot) => {
            let index = m.frames.len() - 1 - depth;
            lemma_fill(m.cells, m.frames[index], slot);
        },
        VariableView::Closure(slot) => {
            lemma_fill(m.cells, m.captures, slot);
        },
        _ => {},
    }
}

/// Capturing upvalues that can be followed creates no frame.
pub proof fn lemma_capture_leveled(m: MachineView, upvalues: Seq<VariableView>, n: nat)
    requires
        variables_reach(upvalues, m.frames.len()),
        n <= upvalues.len(),
    ensures
        m.capture(upvalues, n).0.frames.len() == m.frames.len(),
        m.capture(upvalues, n).0.code == m.code,
        m.capture(upvalues, n).0.konts == m.konts,
        m.capture(upvalues, n).0.control == m.control,
    decreases n,
{
    if n > 0 {
        lemma_capture_leveled(m, upvalues, (n - 1) as nat);
        let m1 = m.capture(upvalues, (n - 1) as nat).0;
        assert(variable_reaches(upvalues[n - 1], m.frames.len()));
        law_address_finds_its_frame(m1, upvalues[n - 1]);
    }
}

/// Returning leaves the machine leveled.
pub proof fn lemma_unwind_leveled(m: MachineView, value: ValueView, depth: nat)
    requires
        forall|c: int| 0 <= c < m.code.len() ==> statements_reach((#[trigger] m.code[c]).body, 1),
        konts_leveled(m.konts, depth),
    ensures
        m.unwind(value).0.leveled(),
    decreases m.konts.len(),
{
    if m.konts.len() > 0 {
        match m.konts.last() {
            KontView::Body { .. } => {},
            _ => {
                lemma_unwind_leveled(m.pop(), value, depth_below(m.konts.last(), depth));
            },
        }
    }
}

/// Calling leaves the machine leveled.
pub proof fn lemma_invoke_leveled(m: MachineView, callee: ValueView, args: Seq<ValueView>)
    requires
        forall|c: int| 0 <= c < m.code.len() ==> statements_reach((#[trigger] m.code[c]).body, 1),
        konts_leveled(m.konts, m.frames.len()),
    ensures
        m.invoke(callee, args).0.leveled(),
{
    match callee {
        ValueView::Function { code, captures, .. } => {
            if code < m.code.len() && args.len() == m.code[code as int].params.len() {
                let kont = KontView::Body {
                    frames: m.frames,
                    captures: m.captures,
                    pending: m.code[code as int].body,
                };
                assert(statements_reach(m.code[code as int].body, 1));
                lemma_push_leveled(m.konts, kont, 1);
            }
        },
        _ => {},
    }
}

/// Beginning to evaluate an expression that can be followed leaves the
/// machine leveled.
pub proof fn lemma_evaluate_leveled(m: MachineView, e: ExpressionView)
    requires
        forall|c: int| 0 <= c < m.code.len() ==> statements_reach((#[trigger] m.code[c]).body, 1),
        konts_leveled(m.konts, m.frames.len()),
        e.reaches(m.frames.len()),
    ensures
        m.evaluate(e).0.leveled(),
{
    let depth = m.frames.len();
    match e {
        ExpressionView::Literal(_) => {},
        ExpressionView::Variable(v) => {
            law_address_finds_its_frame(m, v);
        },
        ExpressionView::Binop(op, lhs, rhs) => {
            if op == Binop::Assignment {
                if let ExpressionView::Variable(v) = *lhs {
                    assert(lhs.reaches(depth));
                    lemma_push_leveled(m.konts, KontView::Assign(v), depth);
                }
            } else {
                lemma_push_leveled(m.konts, KontView::BinopRight(op, *rhs), depth);
            }
        },
        ExpressionView::Call(callee, args) => {
            lemma_push_leveled(m.konts, KontView::Callee(args), depth);
        },
    }
}

/// Beginning to execute a statement that can be followed leaves the machine
/// leveled.
pub proof fn lemma_execute_leveled(m: MachineView, s: StatementView)
    requires
        forall|c: int| 0 <= c < m.code.len() ==> statements_reach((#[trigger] m.code[c]).body, 1),
        konts_leveled(m.konts, m.frames.len()),
        s.reaches(m.frames.len()),
    ensures
        m.execute(s).0.leveled(),
{
    let depth = m.frames.len();
    match s {
        StatementView::Print(e) => {
            lemma_push_leveled(m.konts, KontView::Print, depth);
        },
        StatementView::Expression(e) => {
            lemma_push_leveled(m.konts, KontView::Echo, depth);
        },
        StatementView::Var(v, init) => {
            lemma_push_leveled(m.konts, KontView::Bind(v), depth);
        },
        StatementView::Fun(decl) => {
            assert(decl.reaches(depth));
            lemma_capture_leveled(m, decl.upvalues, decl.upvalues.len());
            let (captured, cells) = m.capture(decl.upvalues, decl.upvalues.len());
            let kept = MachineView { code: captured.code.push(decl), ..captured };
            assert forall|c: int| 0 <= c < kept.code.len() implies statements_reach(
                (#[trigger] kept.code[c]).body,
                1,
            ) by {
                if c < m.code.len() {
                    assert(statements_reach(m.code[c].body, 1));
                }
            }
            law_address_finds_its_frame(kept, decl.binding);
        },
        StatementView::Return(e) => match e {
            Some(e) => {
                lemma_push_leveled(m.konts, KontView::Return, depth);
            },
            None => {
                lemma_unwind_leveled(m, ValueView::Nil, depth);
            },
        },
        StatementView::Block(body) => {
            lemma_push_leveled(m.konts, KontView::Block(body), depth + 1);
        },
        StatementView::While(cond, body) => {
            lemma_push_leveled(m.konts, KontView::Loop(cond, *body), depth);
        },
        StatementView::If(cond, then, otherwise) => {
            lemma_push_leveled(
                m.konts,
                KontView::Branch(
                    *then,
                    match otherwise {
                        Some(s) => Some(*s),
                        None => None,
                    },
                ),
                depth,
            );
        },
    }
}

/// Handing a value to a continuation that waits for one leaves the machine
/// leveled.
pub proof fn lemma_apply_leveled(m: MachineView, kont: KontView, value: ValueView)
    requires
        forall|c: int| 0 <= c < m.code.len() ==> statements_reach((#[trigger] m.code[c]).body, 1),
        konts_leveled(m.konts, m.frames.len()),
        kont_reaches(kont, m.frames.len()),
        takes_value(kont),
    ensures
        m.apply(kont, value).0.leveled(),
{
    let depth = m.frames.len();
    match kont {
        KontView::BinopRight(op, rhs) => {
            lemma_push_leveled(m.konts, KontView::BinopApply(op, value), depth);
        },
        KontView::BinopApply(op, lhs) => {},
        KontView::Assign(v) => {
            law_address_finds_its_frame(m, v);
        },
        KontView::Callee(args) => {
            if value.callable() {
                if args.len() == 0 {
                    lemma_invoke_leveled(m, value, Seq::empty());
                } else {
                    lemma_rest_expressions_reach(args, depth);
                    lemma_push_leveled(
                        m.konts,
                        KontView::Args {
                            callee: value,
                            done: Seq::empty(),
                            pending: args.drop_first(),
                        },
                        depth,
                    );
                }
            }
        },
        KontView::Args { callee, done, pending } => {
            if pending.len() == 0 {
                lemma_invoke_leveled(m, callee, done.push(value));
            } else {
                lemma_rest_expressions_reach(pending, depth);
                lemma_push_leveled(
                    m.konts,
                    KontView::Args {
                        callee,
                        done: done.push(value),
                        pending: pending.drop_first(),
                    },
                    depth,
                );
            }
        },
        KontView::Print => {},
        KontView::Echo => {},
        KontView::Bind(v) => {
            law_address_finds_its_frame(m, v);
        },
        KontView::Branch(then, otherwise) => {
            lemma_push_leveled(m.konts, KontView::Quiet, depth);
        },
        KontView::Loop(cond, body) => {
            lemma_push_leveled(m.konts, KontView::Again(cond, body), depth);
        },
        KontView::Return => {
            lemma_unwind_leveled(m, value, depth);
        },
        _ => {},
    }
}

/// Telling a continuation that waits for it that a statement is done leaves
/// the machine leveled.
pub proof fn lemma_complete_leveled(m: MachineView, kont: KontView, result: Option<ValueView>)
    requires
        forall|c: int| 0 <= c < m.code.len() ==> statements_reach((#[trigger] m.code[c]).body, 1),
        konts_leveled(m.konts, depth_below(kont, m.frames.len())),
        kont_reaches(kont, m.frames.len()),
        !takes_value(kont),
    ensures
        m.complete(kont, result).0.leveled(),
{
    let depth = m.frames.len();
    match kont {
        KontView::Program(pending) => {
            if pending.len() > 0 {
                lemma_rest_reaches(pending, depth);
                lemma_push_leveled(m.konts, KontView::Program(pending.drop_first()), depth);
            }
        },
        KontView::Block(pending) => {
            if pending.len() > 0 {
                lemma_rest_reaches(pending, depth);
                lemma_push_leveled(m.konts, KontView::Block(pending.drop_first()), depth);
            }
        },
        KontView::Body { frames, captures, pending } => {
            if pending.len() > 0 {
                lemma_rest_reaches(pending, depth);
                lemma_push_leveled(
                    m.konts,
                    KontView::Body { frames, captures, pending: pending.drop_first() },
                    depth,
                );
            }
        },
        KontView::Again(cond, body) => {
            lemma_push_leveled(m.konts, KontView::Loop(cond, body), depth);
        },
        KontView::Quiet => {},
        _ => {},
    }
}

/// Loading a program whose addresses can be followed leaves a machine
/// leveled.
pub proof fn law_load_keeps_machine_leveled(m: MachineView, statements: Seq<StatementView>)
    requires
        forall|c: int| 0 <= c < m.code.len() ==> statements_reach((#[trigger] m.code[c]).body, 1),
        statements_reach(statements, 0),
    ensures
        m.load(statements).leveled(),
{
    let konts = seq![KontView::Program(statements)];
    assert(konts.last() == KontView::Program(statements));
    assert(konts.drop_last() =~= Seq::<KontView>::empty());
    assert(konts_leveled(konts.drop_last(), 0));
    assert(konts_leveled(konts, 0));
    assert(m.load(statements).konts == konts);
    assert(m.load(statements).frames.len() == 0);
}

/// Runtime nesting mirrors static nesting: a step takes a machine that is in
/// order and leveled to a leveled machine. So in a session that began with a
/// new machine and loaded only programs that resolution returned, every
/// local address that the machine follows leads, by its parent links, to a
/// frame that exists.
pub proof fn law_step_keeps_machine_leveled(m: MachineView)
    requires
        m.orderly(),
        m.leveled(),
    ensures
        m.step().0.leveled(),
{
    let rest = m.goto(ControlView::Idle);
    match m.control {
        ControlView::Idle => {},
        ControlView::Eval(e) => {
            lemma_evaluate_leveled(rest, e);
        },
        ControlView::Exec(s) => {
            lemma_execute_leveled(rest, s);
        },
        ControlView::Value(value) => {
            let kont = m.konts.last();
            assert(depth_below(kont, m.frames.len()) == m.frames.len());
            lemma_apply_leveled(rest.pop(), kont, value);
        },
        ControlView::Done(result) => {
            if m.konts.len() > 0 {
                lemma_complete_leveled(rest.pop(), m.konts.last(), result);
            }
        },
        ControlView::AwaitNumeric(op, a, b) => {},
        ControlView::AwaitNative(args) => {},
    }
}

} // verus!
