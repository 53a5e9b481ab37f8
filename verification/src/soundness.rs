//! Nothing dangles: every cell and every declaration that the machine refers
//! to exists, in every state that a session can reach.

use crate::ast::{Binop, ExpressionView, FunctionDeclView, StatementView, VariableView};
use crate::machine::{ControlView, fill, fresh_cells, grow_frames, KontView, MachineView};
use crate::object::ValueView;
use vstd::prelude::*;

verus! {

/// Filling slots keeps every cell and every slot that there was, adds cells
/// that hold `nil` and were not there before, and makes `slot` a slot.
pub proof fn lemma_fill(cells: Seq<ValueView>, slots: Seq<nat>, slot: nat)
    ensures
        ({
            let (filled, extended) = fill(cells, slots, slot);
            &&& extended.len() > slot
            &&& extended.len() >= slots.len()
            &&& filled.len() == cells.len() + (extended.len() - slots.len())
            &&& forall|j: int| 0 <= j < cells.len() ==> filled[j] == cells[j]
            &&& forall|j: int| cells.len() <= j < filled.len() ==> filled[j] == ValueView::Nil
            &&& forall|j: int| 0 <= j < slots.len() ==> extended[j] == slots[j]
            &&& forall|j: int|
                slots.len() <= j < extended.len() ==> extended[j] == cells.len() + (j
                    - slots.len())
            &&& slots.len() > slot ==> filled == cells && extended == slots
        }),
    decreases slot + 1 - slots.len(),
{
    if slots.len() <= slot {
        lemma_fill(cells.push(ValueView::Nil), slots.push(cells.len()), slot);
    }
}

/// Every index of the list is below `n`.
pub open spec fn ids_below(ids: Seq<nat>, n: nat) -> bool {
    forall|i: int| 0 <= i < ids.len() ==> (#[trigger] ids[i]) < n
}

/// Every slot of every frame is below `n`.
pub open spec fn frames_below(frames: Seq<Seq<nat>>, n: nat) -> bool {
    forall|f: int| 0 <= f < frames.len() ==> ids_below(#[trigger] frames[f], n)
}

/// A value refers only to cells below `cells` and declarations below `code`.
pub open spec fn value_within(value: ValueView, cells: nat, code: nat) -> bool {
    value is Function ==> value->code < code && ids_below(value->captures, cells)
}

/// The same of every value of a list.
pub open spec fn values_within(list: Seq<ValueView>, cells: nat, code: nat) -> bool {
    forall|i: int| 0 <= i < list.len() ==> value_within(#[trigger] list[i], cells, code)
}

/// The same of what is to do next.
pub open spec fn control_within(control: ControlView, cells: nat, code: nat) -> bool {
    match control {
        ControlView::Value(value) => value_within(value, cells, code),
        ControlView::Done(Some(value)) => value_within(value, cells, code),
        ControlView::AwaitNative(args) => values_within(args, cells, code),
        _ => true,
    }
}

/// The same of a continuation.
pub open spec fn kont_within(kont: KontView, cells: nat, code: nat) -> bool {
    match kont {
        KontView::BinopApply(_, value) => value_within(value, cells, code),
        KontView::Args { callee, done, .. } => {
            &&& value_within(callee, cells, code)
            &&& values_within(done, cells, code)
        },
        KontView::Body { frames, captures, .. } => {
            &&& frames_below(frames, cells)
            &&& ids_below(captures, cells)
        },
        _ => true,
    }
}

/// The same of every continuation of a stack.
pub open spec fn konts_within(konts: Seq<KontView>, cells: nat, code: nat) -> bool {
    forall|k: int| 0 <= k < konts.len() ==> kont_within(#[trigger] konts[k], cells, code)
}

/// The same of every global.
pub open spec fn globals_within(globals: Map<Seq<char>, ValueView>, cells: nat, code: nat) -> bool {
    forall|name: Seq<char>| #[trigger]
        globals.contains_key(name) ==> value_within(globals[name], cells, code)
}

impl MachineView {
    /// Whatever the machine holds refers only to cells below `cells` and to
    /// declarations below `code`.
    pub open spec fn within(self, cells: nat, code: nat) -> bool {
        &&& frames_below(self.frames, cells)
        &&& ids_below(self.captures, cells)
        &&& values_within(self.cells, cells, code)
        &&& globals_within(self.globals, cells, code)
        &&& control_within(self.control, cells, code)
        &&& konts_within(self.konts, cells, code)
    }

    /// Nothing dangles: every cell that a frame, a function value or a
    /// continuation refers to exists, and so does the declaration of every
    /// function value.
    pub open spec fn sound(self) -> bool {
        self.within(self.cells.len(), self.code.len())
    }
}

/// What refers below some bounds refers below greater bounds.
pub proof fn lemma_value_within_grows(value: ValueView, cells: nat, code: nat, more: nat, longer: nat)
    requires
        value_within(value, cells, code),
        cells <= more,
        code <= longer,
    ensures
        value_within(value, more, longer),
{
    if value is Function {
        assert forall|i: int| 0 <= i < value->captures.len() implies (#[trigger] value->captures[i])
            < more by {}
    }
}

/// The same of a list of values.
pub proof fn lemma_values_within_grow(
    list: Seq<ValueView>,
    cells: nat,
    code: nat,
    more: nat,
    longer: nat,
)
    requires
        values_within(list, cells, code),
        cells <= more,
        code <= longer,
    ensures
        values_within(list, more, longer),
{
    assert forall|i: int| 0 <= i < list.len() implies value_within(
        #[trigger] list[i],
        more,
        longer,
    ) by {
        lemma_value_within_grows(list[i], cells, code, more, longer);
    }
}

/// The same of a stack of frames.
pub proof fn lemma_frames_below_grow(frames: Seq<Seq<nat>>, cells: nat, more: nat)
    requires
        frames_below(frames, cells),
        cells <= more,
    ensures
        frames_below(frames, more),
{
    assert forall|f: int| 0 <= f < frames.len() implies ids_below(#[trigger] frames[f], more) by {
        assert(ids_below(frames[f], cells));
    }
}

/// The same of a continuation.
pub proof fn lemma_kont_within_grows(kont: KontView, cells: nat, code: nat, more: nat, longer: nat)
    requires
        kont_within(kont, cells, code),
        cells <= more,
        code <= longer,
    ensures
        kont_within(kont, more, longer),
{
    match kont {
        KontView::BinopApply(_, value) => {
            lemma_value_within_grows(value, cells, code, more, longer);
        },
        KontView::Args { callee, done, .. } => {
            lemma_value_within_grows(callee, cells, code, more, longer);
            lemma_values_within_grow(done, cells, code, more, longer);
        },
        KontView::Body { frames, captures, .. } => {
            lemma_frames_below_grow(frames, cells, more);
        },
        _ => {},
    }
}

/// The same of a machine.
pub proof fn lemma_within_grows(m: MachineView, cells: nat, code: nat, more: nat, longer: nat)
    requires
        m.within(cells, code),
        cells <= more,
        code <= longer,
    ensures
        m.within(more, longer),
{
    lemma_frames_below_grow(m.frames, cells, more);
    lemma_values_within_grow(m.cells, cells, code, more, longer);
    assert forall|name: Seq<char>| #[trigger] m.globals.contains_key(name) implies value_within(
        m.globals[name],
        more,
        longer,
    ) by {
        lemma_value_within_grows(m.globals[name], cells, code, more, longer);
    }
    match m.control {
        ControlView::Value(value) => {
            lemma_value_within_grows(value, cells, code, more, longer);
        },
        ControlView::Done(Some(value)) => {
            lemma_value_within_grows(value, cells, code, more, longer);
        },
        ControlView::AwaitNative(args) => {
            lemma_values_within_grow(args, cells, code, more, longer);
        },
        _ => {},
    }
    assert forall|k: int| 0 <= k < m.konts.len() implies kont_within(
        #[trigger] m.konts[k],
        more,
        longer,
    ) by {
        lemma_kont_within_grows(m.konts[k], cells, code, more, longer);
    }
}

/// Locating an address keeps every cell that there was and what is in it,
/// adds only cells that hold `nil`, and leaves the globals, the declarations,
/// the continuations and what is to do next alone.
pub proof fn lemma_locate(m: MachineView, v: VariableView)
    ensures
        ({
            let (located, id) = m.locate(v);
            &&& located.cells.len() >= m.cells.len()
            &&& forall|j: int| 0 <= j < m.cells.len() ==> located.cells[j] == m.cells[j]
            &&& forall|j: int|
                m.cells.len() <= j < located.cells.len() ==> located.cells[j] == ValueView::Nil
            &&& located.globals == m.globals
            &&& located.code == m.code
            &&& located.control == m.control
            &&& located.konts == m.konts
        }),
{
    match v {
        VariableView::Scoped(depth, slot) => {
            let frames = grow_frames(m.frames, depth);
            let index = frames.len() - 1 - depth;
            lemma_fill(m.cells, frames[index], slot);
        },
        VariableView::Closure(slot) => {
            lemma_fill(m.cells, m.captures, slot);
        },
        _ => {},
    }
}

/// In a sound machine the cell of an address exists, and the machine stays
/// sound when the address is located.
pub proof fn lemma_locate_sound(m: MachineView, v: VariableView)
    requires
        m.sound(),
    ensures
        m.locate(v).0.sound(),
        m.locate(v).1 < m.locate(v).0.cells.len(),
{
    let (located, id) = m.locate(v);
    lemma_locate(m, v);
    let n = located.cells.len();
    lemma_within_grows(m, m.cells.len(), m.code.len(), n, m.code.len());
    assert(values_within(located.cells, n, located.code.len())) by {
        assert forall|i: int| 0 <= i < located.cells.len() implies value_within(
            #[trigger] located.cells[i],
            n,
            located.code.len(),
        ) by {
            if i < m.cells.len() {
                assert(value_within(m.cells[i], n, m.code.len()));
            }
        }
    }
    match v {
        VariableView::Scoped(depth, slot) => {
            let frames = grow_frames(m.frames, depth);
            let index = frames.len() - 1 - depth;
            lemma_fill(m.cells, frames[index], slot);
            let (cells, frame) = fill(m.cells, frames[index], slot);
            assert(frames_below(frames, n)) by {
                assert forall|f: int| 0 <= f < frames.len() implies ids_below(
                    #[trigger] frames[f],
                    n,
                ) by {
                    if m.frames.len() > depth {
                    } else {
                        let added = depth + 1 - m.frames.len();
                        if f >= added {
                            assert(frames[f] == m.frames[f - added]);
                            assert(ids_below(m.frames[f - added], n));
                        }
                    }
                }
            }
            assert(ids_below(frame, n)) by {
                assert forall|i: int| 0 <= i < frame.len() implies (#[trigger] frame[i]) < n by {
                    if i < frames[index].len() {
                        assert(ids_below(frames[index], n));
                        assert(frame[i] == frames[index][i]);
                    }
                }
            }
            assert(frames_below(located.frames, n)) by {
                assert forall|f: int| 0 <= f < located.frames.len() implies ids_below(
                    #[trigger] located.frames[f],
                    n,
                ) by {
                    if f != index {
                        assert(ids_below(frames[f], n));
                    }
                }
            }
        },
        VariableView::Closure(slot) => {
            lemma_fill(m.cells, m.captures, slot);
            let (cells, captures) = fill(m.cells, m.captures, slot);
            assert forall|i: int| 0 <= i < captures.len() implies (#[trigger] captures[i]) < n by {
                if i < m.captures.len() {
                    assert(captures[i] == m.captures[i]);
                }
            }
        },
        _ => {},
    }
}

/// A sound machine stays sound when it gets a continuation that refers to
/// nothing that is missing.
pub proof fn lemma_push_sound(m: MachineView, kont: KontView)
    requires
        m.sound(),
        kont_within(kont, m.cells.len(), m.code.len()),
    ensures
        m.push(kont).sound(),
{
    let konts = m.konts.push(kont);
    assert forall|k: int| 0 <= k < konts.len() implies kont_within(
        #[trigger] konts[k],
        m.cells.len(),
        m.code.len(),
    ) by {
        if k < m.konts.len() {
            assert(kont_within(m.konts[k], m.cells.len(), m.code.len()));
        }
    }
}

/// A sound machine stays sound when its innermost continuation is taken
/// off, and that continuation refers to nothing that is missing.
pub proof fn lemma_pop_sound(m: MachineView)
    requires
        m.sound(),
        m.konts.len() > 0,
    ensures
        m.pop().sound(),
        kont_within(m.konts.last(), m.cells.len(), m.code.len()),
{
    let konts = m.konts.drop_last();
    assert forall|k: int| 0 <= k < konts.len() implies kont_within(
        #[trigger] konts[k],
        m.cells.len(),
        m.code.len(),
    ) by {
        assert(kont_within(m.konts[k], m.cells.len(), m.code.len()));
    }
    assert(kont_within(m.konts[m.konts.len() - 1], m.cells.len(), m.code.len()));
}

/// A sound machine stays sound when a value that refers to nothing that is
/// missing is put in a cell.
pub proof fn lemma_store_sound(m: MachineView, id: nat, value: ValueView)
    requires
        m.sound(),
        value_within(value, m.cells.len(), m.code.len()),
    ensures
        m.store(id, value).sound(),
{
    if id < m.cells.len() {
        let cells = m.cells.update(id as int, value);
        assert forall|i: int| 0 <= i < cells.len() implies value_within(
            #[trigger] cells[i],
            m.cells.len(),
            m.code.len(),
        ) by {
            if i != id {
                assert(value_within(m.cells[i], m.cells.len(), m.code.len()));
            }
        }
    }
}

/// A sound machine stays sound when a value that refers to nothing that is
/// missing is written to a variable.
pub proof fn lemma_write_sound(m: MachineView, v: VariableView, value: ValueView)
    requires
        m.sound(),
        value_within(value, m.cells.len(), m.code.len()),
    ensures
        m.write(v, value).sound(),
        m.write(v, value).cells.len() >= m.cells.len(),
        m.write(v, value).code == m.code,
        m.write(v, value).control == m.control,
        m.write(v, value).konts == m.konts,
{
    match v {
        VariableView::Global(name) | VariableView::Unresolved(name) => {
            let globals = m.globals.insert(name, value);
            assert forall|n: Seq<char>| #[trigger] globals.contains_key(n) implies value_within(
                globals[n],
                m.cells.len(),
                m.code.len(),
            ) by {
                if n != name {
                    assert(m.globals.contains_key(n));
                }
            }
        },
        _ => {
            let (located, id) = m.locate(v);
            lemma_locate(m, v);
            lemma_locate_sound(m, v);
            lemma_value_within_grows(
                value,
                m.cells.len(),
                m.code.len(),
                located.cells.len(),
                located.code.len(),
            );
            lemma_store_sound(located, id, value);
        },
    }
}

/// A sound machine stays sound when a variable is read, and the value that
/// is read refers to nothing that is missing.
pub proof fn lemma_read_sound(m: MachineView, v: VariableView)
    requires
        m.sound(),
    ensures
        m.read(v).0.sound(),
        m.read(v).0.cells.len() >= m.cells.len(),
        m.read(v).0.code == m.code,
        m.read(v).0.control == m.control,
        m.read(v).0.konts == m.konts,
        m.read(v).1 is Ok ==> value_within(
            m.read(v).1->Ok_0,
            m.read(v).0.cells.len(),
            m.code.len(),
        ),
{
    match v {
        VariableView::Global(name) | VariableView::Unresolved(name) => {},
        _ => {
            let (located, id) = m.locate(v);
            lemma_locate(m, v);
            lemma_locate_sound(m, v);
            assert(value_within(located.cells[id as int], located.cells.len(), located.code.len()));
        },
    }
}

/// A sound machine stays sound when the upvalues of a declaration are
/// captured, and the captured cells exist.
pub proof fn lemma_capture_sound(m: MachineView, upvalues: Seq<VariableView>, n: nat)
    requires
        m.sound(),
        n <= upvalues.len(),
    ensures
        m.capture(upvalues, n).0.sound(),
        m.capture(upvalues, n).1.len() == n,
        ids_below(m.capture(upvalues, n).1, m.capture(upvalues, n).0.cells.len()),
        m.capture(upvalues, n).0.cells.len() >= m.cells.len(),
        m.capture(upvalues, n).0.code == m.code,
        m.capture(upvalues, n).0.control == m.control,
        m.capture(upvalues, n).0.konts == m.konts,
    decreases n,
{
    if n > 0 {
        lemma_capture_sound(m, upvalues, (n - 1) as nat);
        let (m1, done) = m.capture(upvalues, (n - 1) as nat);
        lemma_locate(m1, upvalues[n - 1]);
        lemma_locate_sound(m1, upvalues[n - 1]);
        let (m2, id) = m1.locate(upvalues[n - 1]);
        let ids = done.push(id);
        assert forall|i: int| 0 <= i < ids.len() implies (#[trigger] ids[i]) < m2.cells.len() by {
            if i < done.len() {
                assert(done[i] < m1.cells.len());
            }
        }
    }
}

/// A sound machine stays sound when a function declaration executes.
pub proof fn lemma_declare_sound(m: MachineView, decl: FunctionDeclView)
    requires
        m.sound(),
    ensures
        m.declare(decl).sound(),
        m.declare(decl).control == m.control,
        m.declare(decl).konts == m.konts,
{
    lemma_capture_sound(m, decl.upvalues, decl.upvalues.len());
    let (captured, cells) = m.capture(decl.upvalues, decl.upvalues.len());
    let kept = MachineView { code: captured.code.push(decl), ..captured };
    lemma_within_grows(
        captured,
        captured.cells.len(),
        captured.code.len(),
        captured.cells.len(),
        kept.code.len(),
    );
    assert(kept.sound());
    let function = ValueView::Function { name: decl.name, code: captured.code.len(), captures: cells };
    lemma_write_sound(kept, decl.binding, function);
}

/// A sound machine stays sound when a value that refers to nothing that is
/// missing is called on such arguments.
pub proof fn lemma_invoke_sound(m: MachineView, callee: ValueView, args: Seq<ValueView>)
    requires
        m.sound(),
        value_within(callee, m.cells.len(), m.code.len()),
        values_within(args, m.cells.len(), m.code.len()),
    ensures
        m.invoke(callee, args).0.sound(),
{
    match callee {
        ValueView::Function { code, captures, .. } => {
            if code < m.code.len() && args.len() == m.code[code as int].params.len() {
                let called = m.invoke(callee, args).0;
                let n = called.cells.len();
                lemma_within_grows(m, m.cells.len(), m.code.len(), n, m.code.len());
                lemma_values_within_grow(args, m.cells.len(), m.code.len(), n, m.code.len());
                assert forall|i: int| 0 <= i < called.cells.len() implies value_within(
                    #[trigger] called.cells[i],
                    n,
                    m.code.len(),
                ) by {
                    if i < m.cells.len() {
                        assert(value_within(m.cells[i], n, m.code.len()));
                    } else {
                        assert(value_within(args[i - m.cells.len()], n, m.code.len()));
                    }
                }
                let frame = fresh_cells(m.cells.len(), args.len());
                assert(ids_below(frame, n));
                assert forall|f: int| 0 <= f < called.frames.len() implies ids_below(
                    #[trigger] called.frames[f],
                    n,
                ) by {}
                lemma_value_within_grows(callee, m.cells.len(), m.code.len(), n, m.code.len());
                let kont = KontView::Body {
                    frames: m.frames,
                    captures: m.captures,
                    pending: m.code[code as int].body,
                };
                assert forall|k: int| 0 <= k < called.konts.len() implies kont_within(
                    #[trigger] called.konts[k],
                    n,
                    m.code.len(),
                ) by {
                    if k < m.konts.len() {
                        assert(kont_within(m.konts[k], n, m.code.len()));
                    }
                }
            }
        },
        _ => {},
    }
}

/// A sound machine stays sound when a value that refers to nothing that is
/// missing is returned.
pub proof fn lemma_unwind_sound(m: MachineView, value: ValueView)
    requires
        m.sound(),
        value_within(value, m.cells.len(), m.code.len()),
    ensures
        m.unwind(value).0.sound(),
    decreases m.konts.len(),
{
    if m.konts.len() > 0 {
        lemma_pop_sound(m);
        match m.konts.last() {
            KontView::Body { .. } => {},
            _ => {
                lemma_unwind_sound(m.pop(), value);
            },
        }
    }
}

/// A sound machine stays sound when it begins to evaluate an expression.
pub proof fn lemma_evaluate_sound(m: MachineView, e: ExpressionView)
    requires
        m.sound(),
    ensures
        m.evaluate(e).0.sound(),
{
    match e {
        ExpressionView::Literal(_) => {},
        ExpressionView::Variable(v) => {
            lemma_read_sound(m, v);
        },
        ExpressionView::Binop(op, lhs, rhs) => {
            if op == Binop::Assignment {
                if let ExpressionView::Variable(v) = *lhs {
                    lemma_push_sound(m, KontView::Assign(v));
                }
            } else {
                lemma_push_sound(m, KontView::BinopRight(op, *rhs));
            }
        },
        ExpressionView::Call(callee, args) => {
            lemma_push_sound(m, KontView::Callee(args));
        },
    }
}

/// A sound machine stays sound when it begins to execute a statement.
pub proof fn lemma_execute_sound(m: MachineView, s: StatementView)
    requires
        m.sound(),
    ensures
        m.execute(s).0.sound(),
{
    match s {
        StatementView::Print(e) => {
            lemma_push_sound(m, KontView::Print);
        },
        StatementView::Expression(e) => {
            lemma_push_sound(m, KontView::Echo);
        },
        StatementView::Var(v, init) => {
            lemma_push_sound(m, KontView::Bind(v));
        },
        StatementView::Fun(decl) => {
            lemma_declare_sound(m, decl);
        },
        StatementView::Return(e) => match e {
            Some(e) => {
                lemma_push_sound(m, KontView::Return);
            },
            None => {
                lemma_unwind_sound(m, ValueView::Nil);
            },
        },
        StatementView::Block(body) => {
            lemma_push_sound(m, KontView::Block(body));
            let frames = m.frames.push(Seq::empty());
            assert forall|f: int| 0 <= f < frames.len() implies ids_below(
                #[trigger] frames[f],
                m.cells.len(),
            ) by {
                if f < m.frames.len() {
                    assert(ids_below(m.frames[f], m.cells.len()));
                }
            }
        },
        StatementView::While(cond, body) => {
            lemma_push_sound(m, KontView::Loop(cond, *body));
        },
        StatementView::If(cond, then, otherwise) => {
            lemma_push_sound(
                m,
                KontView::Branch(
                    *then,
                    match otherwise {
                        Some(s) => Some(*s),
                        None => None,
                    },
                ),
            );
        },
    }
}

/// A sound machine stays sound when a value that refers to nothing that is
/// missing is handed to such a continuation.
pub proof fn lemma_apply_sound(m: MachineView, kont: KontView, value: ValueView)
    requires
        m.sound(),
        kont_within(kont, m.cells.len(), m.code.len()),
        value_within(value, m.cells.len(), m.code.len()),
    ensures
        m.apply(kont, value).0.sound(),
{
    match kont {
        KontView::BinopRight(op, rhs) => {
            lemma_push_sound(m, KontView::BinopApply(op, value));
        },
        KontView::BinopApply(op, lhs) => {},
        KontView::Assign(v) => {
            lemma_write_sound(m, v, value);
            let written = m.write(v, value);
            lemma_value_within_grows(
                value,
                m.cells.len(),
                m.code.len(),
                written.cells.len(),
                written.code.len(),
            );
        },
        KontView::Callee(args) => {
            if value.callable() {
                if args.len() == 0 {
                    lemma_invoke_sound(m, value, Seq::empty());
                } else {
                    lemma_push_sound(
                        m,
                        KontView::Args {
                            callee: value,
                            done: Seq::empty(),
                            pending: args.drop_first(),
                        },
                    );
                }
            }
        },
        KontView::Args { callee, done, pending } => {
            let values = done.push(value);
            assert forall|i: int| 0 <= i < values.len() implies value_within(
                #[trigger] values[i],
                m.cells.len(),
                m.code.len(),
            ) by {
                if i < done.len() {
                    assert(value_within(done[i], m.cells.len(), m.code.len()));
                }
            }
            if pending.len() == 0 {
                lemma_invoke_sound(m, callee, values);
            } else {
                lemma_push_sound(
                    m,
                    KontView::Args { callee, done: values, pending: pending.drop_first() },
                );
            }
        },
        KontView::Print => {},
        KontView::Echo => {},
        KontView::Bind(v) => {
            lemma_write_sound(m, v, value);
        },
        KontView::Branch(then, otherwise) => {
            lemma_push_sound(m, KontView::Quiet);
        },
        KontView::Loop(cond, body) => {
            lemma_push_sound(m, KontView::Again(cond, body));
        },
        KontView::Return => {
            lemma_unwind_sound(m, value);
        },
        _ => {},
    }
}

/// A sound machine stays sound when a continuation that refers to nothing
/// that is missing is told that a statement is done.
pub proof fn lemma_complete_sound(m: MachineView, kont: KontView, result: Option<ValueView>)
    requires
        m.sound(),
        kont_within(kont, m.cells.len(), m.code.len()),
        result is Some ==> value_within(result->0, m.cells.len(), m.code.len()),
    ensures
        m.complete(kont, result).0.sound(),
{
    match kont {
        KontView::Program(pending) => {
            if pending.len() > 0 {
                lemma_push_sound(m, KontView::Program(pending.drop_first()));
            }
        },
        KontView::Block(pending) => {
            if pending.len() > 0 {
                lemma_push_sound(m, KontView::Block(pending.drop_first()));
            } else if m.frames.len() > 0 {
                let frames = m.frames.drop_last();
                assert forall|f: int| 0 <= f < frames.len() implies ids_below(
                    #[trigger] frames[f],
                    m.cells.len(),
                ) by {
                    assert(ids_below(m.frames[f], m.cells.len()));
                }
            }
        },
        KontView::Body { frames, captures, pending } => {
            if pending.len() > 0 {
                lemma_push_sound(
                    m,
                    KontView::Body { frames, captures, pending: pending.drop_first() },
                );
            }
        },
        KontView::Again(cond, body) => {
            lemma_push_sound(m, KontView::Loop(cond, body));
        },
        KontView::Quiet => {},
        _ => {},
    }
}

/// Nothing ever dangles: a step takes a sound machine to a sound machine.
/// So in a session that began with a new machine, every cell that a frame, a
/// function value or a continuation refers to exists, and so does the
/// declaration of every function value.
pub proof fn law_step_keeps_machine_sound(m: MachineView)
    requires
        m.sound(),
    ensures
        m.step().0.sound(),
{
    let rest = m.goto(ControlView::Idle);
    match m.control {
        ControlView::Idle => {},
        ControlView::Eval(e) => {
            lemma_evaluate_sound(rest, e);
        },
        ControlView::Exec(s) => {
            lemma_execute_sound(rest, s);
        },
        ControlView::Value(value) => {
            if m.konts.len() > 0 {
                lemma_pop_sound(rest);
                lemma_apply_sound(rest.pop(), m.konts.last(), value);
            }
        },
        ControlView::Done(result) => {
            if m.konts.len() > 0 {
                lemma_pop_sound(rest);
                lemma_complete_sound(rest.pop(), m.konts.last(), result);
            }
        },
        ControlView::AwaitNumeric(op, a, b) => {},
        ControlView::AwaitNative(args) => {},
    }
}

/// Loading a program keeps a machine sound.
pub proof fn law_load_keeps_machine_sound(m: MachineView, statements: Seq<StatementView>)
    requires
        m.sound(),
    ensures
        m.load(statements).sound(),
{
    let konts = seq![KontView::Program(statements)];
    assert forall|k: int| 0 <= k < konts.len() implies kont_within(
        #[trigger] konts[k],
        m.cells.len(),
        m.code.len(),
    ) by {}
}

/// Resuming with a value that refers to nothing that is missing keeps a
/// machine sound. A number, a boolean, a string and `nil` refer to nothing.
pub proof fn law_resume_keeps_machine_sound(m: MachineView, value: ValueView)
    requires
        m.sound(),
        value_within(value, m.cells.len(), m.code.len()),
    ensures
        m.resume(value).sound(),
{
}

} // verus!
