//! The rules of execution, as a mathematical machine: a state, and the
//! function that takes a state to the next state and to what the driver is
//! asked to do meanwhile.
//!
//! The machine walks the syntax tree with an explicit stack of
//! continuations. Whatever this library cannot do itself is not done by the
//! machine: arithmetic and comparison of two numbers, output, and native
//! functions are requests to the driver, which answers a request for a value
//! by resuming the machine with that value.

use crate::ast::{Binop, ExpressionView, FunctionDeclView, StatementView, VariableView};
use crate::object::{Kind, ValueView};
use vstd::prelude::*;

verus! {

/// The mathematical value of a runtime error.
pub ghost enum RuntimeErrorView {
    UndefinedVariable(Seq<char>),
    TypeMismatch(Binop, Kind, Kind),
    ArityMismatch(nat, nat),
    NotCallable(Kind),
}

/// What the machine does next.
pub ghost enum ControlView {
    /// Nothing: no program is loaded, or the last one has ended.
    Idle,
    /// Evaluate this expression, and hand its value to the continuation.
    Eval(ExpressionView),
    /// Execute this statement, and tell the continuation when it is done.
    Exec(StatementView),
    /// Hand this value to the continuation.
    Value(ValueView),
    /// Tell the continuation that a statement is done. An expression
    /// statement is done with its value, every other statement with none.
    Done(Option<ValueView>),
    /// Wait for the driver to apply the operator to the two numbers.
    AwaitNumeric(Binop, u64, u64),
    /// Wait for the driver to call a native function on these arguments.
    AwaitNative(Seq<ValueView>),
}

/// A continuation: what remains to be done with a value, or after a
/// statement.
pub ghost enum KontView {
    /// The left operand is being evaluated; the right one follows.
    BinopRight(Binop, ExpressionView),
    /// The right operand is being evaluated; the left one is this value.
    BinopApply(Binop, ValueView),
    /// The value is written to this reference, and stays the result.
    Assign(VariableView),
    /// The callee is being evaluated; these arguments follow.
    Callee(Seq<ExpressionView>),
    /// An argument is being evaluated; `done` are the values of those before
    /// it and `pending` the arguments after it.
    Args { callee: ValueView, done: Seq<ValueView>, pending: Seq<ExpressionView> },
    /// The value is printed.
    Print,
    /// The value is the result of an expression statement.
    Echo,
    /// The value is bound to this reference.
    Bind(VariableView),
    /// The value is the condition of an `if` with these branches.
    Branch(StatementView, Option<StatementView>),
    /// The value is the condition of a `while` with this condition and body.
    Loop(ExpressionView, StatementView),
    /// The value is returned from the function that is executing.
    Return,
    /// The statements of the program that are still to be executed.
    Program(Seq<StatementView>),
    /// The statements of a block that are still to be executed; the block's
    /// frame is dropped after the last.
    Block(Seq<StatementView>),
    /// The statements of a function body that are still to be executed, and
    /// the frames and captured cells of the caller, which come back when the
    /// function returns.
    Body { frames: Seq<Seq<nat>>, captures: Seq<nat>, pending: Seq<StatementView> },
    /// The body of a `while` is executing; its condition is evaluated again
    /// after it.
    Again(ExpressionView, StatementView),
    /// A branch of an `if` is executing; the `if` is done with no value.
    Quiet,
}

/// What the driver is asked to do before the next step.
pub ghost enum ActionView {
    /// Nothing: take the next step.
    Continue,
    /// Hand this value to the output, then take the next step.
    Print(ValueView),
    /// Apply the operator to the two numbers and resume with the result: a
    /// number for an arithmetic operator, a boolean for a comparison.
    Numeric(Binop, u64, u64),
    /// Call the native function on these arguments and resume with the
    /// result.
    Native(Seq<ValueView>),
    /// The program has ended. The value is that of its last statement if
    /// that is an expression statement, or the value that a `return` outside
    /// any function gave.
    Finished(Option<ValueView>),
    /// The program was aborted with this error.
    Failed(RuntimeErrorView),
}

/// What applying a binary operator to two values comes to.
pub ghost enum Outcome {
    /// This value.
    Value(ValueView),
    /// What the driver computes from the two numbers.
    Numeric(Binop, u64, u64),
    /// This error.
    Fail(RuntimeErrorView),
}

/// Applies an operator other than assignment to two values. Two numbers go
/// to the driver, whatever the operator. Otherwise arithmetic is a type
/// mismatch; `==` and `!=` compare any two values, and values of different
/// kinds are different; the relational operators want two values of one
/// kind.
pub open spec fn binary(op: Binop, lhs: ValueView, rhs: ValueView) -> Outcome {
    if lhs is Number && rhs is Number {
        Outcome::Numeric(op, lhs->Number_0, rhs->Number_0)
    } else if op == Binop::Equal {
        Outcome::Value(ValueView::Bool(lhs == rhs))
    } else if op == Binop::NotEqual {
        Outcome::Value(ValueView::Bool(lhs != rhs))
    } else if op.is_relational() && lhs.kind() == rhs.kind() {
        Outcome::Value(ValueView::Bool(lhs.relate(op, rhs)))
    } else {
        Outcome::Fail(RuntimeErrorView::TypeMismatch(op, lhs.kind(), rhs.kind()))
    }
}

/// The frames with enough empty frames added at the outer end for `depth`
/// parent links to lead somewhere.
pub open spec fn grow_frames(frames: Seq<Seq<nat>>, depth: nat) -> Seq<Seq<nat>> {
    if frames.len() > depth {
        frames
    } else {
        Seq::new((depth + 1 - frames.len()) as nat, |i: int| Seq::<nat>::empty()) + frames
    }
}

/// The cells and the slots with enough new cells, each holding `nil`, added
/// for `slot` to be a slot.
pub open spec fn fill(cells: Seq<ValueView>, slots: Seq<nat>, slot: nat) -> (
    Seq<ValueView>,
    Seq<nat>,
)
    decreases slot + 1 - slots.len(),
{
    if slots.len() > slot {
        (cells, slots)
    } else {
        fill(cells.push(ValueView::Nil), slots.push(cells.len()), slot)
    }
}

/// The indices of `count` cells that follow the first `first`.
pub open spec fn fresh_cells(first: nat, count: nat) -> Seq<nat> {
    Seq::new(count, |i: int| (first + i) as nat)
}

/// The state of the machine.
pub ghost struct MachineView {
    /// The global variables of the session.
    pub globals: Map<Seq<char>, ValueView>,
    /// The cells: every local variable lives in one, and a cell is shared by
    /// the frame that declared the variable and the functions that captured
    /// it. Cells are never removed.
    pub cells: Seq<ValueView>,
    /// The function declarations that have been executed; a function value
    /// refers to its declaration by index.
    pub code: Seq<FunctionDeclView>,
    /// The frames of the function that is executing, innermost last: the
    /// cells of its local variables, by slot.
    pub frames: Seq<Seq<nat>>,
    /// The cells that the function that is executing captured.
    pub captures: Seq<nat>,
    /// What to do next.
    pub control: ControlView,
    /// What to do after that, innermost last.
    pub konts: Seq<KontView>,
}

impl MachineView {
    /// The machine of a new session.
    pub open spec fn initial() -> MachineView {
        MachineView {
            globals: Map::empty(),
            cells: Seq::empty(),
            code: Seq::empty(),
            frames: Seq::empty(),
            captures: Seq::empty(),
            control: ControlView::Idle,
            konts: Seq::empty(),
        }
    }

    /// The machine about to run a program: what was pending is dropped, the
    /// globals, the cells and the declarations stay.
    pub open spec fn load(self, statements: Seq<StatementView>) -> MachineView {
        MachineView {
            frames: Seq::empty(),
            captures: Seq::empty(),
            control: ControlView::Done(None),
            konts: seq![KontView::Program(statements)],
            ..self
        }
    }

    /// The machine at rest: nothing pending, no frame, the globals, the cells
    /// and the declarations as they are.
    pub open spec fn halt(self) -> MachineView {
        MachineView {
            frames: Seq::empty(),
            captures: Seq::empty(),
            control: ControlView::Idle,
            konts: Seq::empty(),
            ..self
        }
    }

    /// Aborts the program with an error. What was done stays done.
    pub open spec fn fail(self, error: RuntimeErrorView) -> (MachineView, ActionView) {
        (self.halt(), ActionView::Failed(error))
    }

    /// The machine with this to do next.
    pub open spec fn goto(self, control: ControlView) -> MachineView {
        MachineView { control, ..self }
    }

    /// The machine with one more continuation, innermost.
    pub open spec fn push(self, kont: KontView) -> MachineView {
        MachineView { konts: self.konts.push(kont), ..self }
    }

    /// The machine without its innermost continuation.
    pub open spec fn pop(self) -> MachineView {
        MachineView { konts: self.konts.drop_last(), ..self }
    }

    /// Whether the machine waits for the driver to resume it with a value.
    pub open spec fn awaiting(self) -> bool {
        self.control is AwaitNumeric || self.control is AwaitNative
    }

    /// The value in a cell; `nil` where there is no such cell.
    pub open spec fn cell(self, id: nat) -> ValueView {
        if id < self.cells.len() {
            self.cells[id as int]
        } else {
            ValueView::Nil
        }
    }

    /// The machine with `value` in a cell; unchanged where there is no such
    /// cell.
    pub open spec fn store(self, id: nat, value: ValueView) -> MachineView {
        if id < self.cells.len() {
            MachineView { cells: self.cells.update(id as int, value), ..self }
        } else {
            self
        }
    }

    /// The cell of a local address. A frame or a slot that does not exist
    /// yet is created, its cells holding `nil`, so that every local address
    /// has a cell. A reference that is no local address gets a new cell of
    /// its own.
    pub open spec fn locate(self, v: VariableView) -> (MachineView, nat) {
        match v {
            VariableView::Scoped(depth, slot) => {
                let frames = grow_frames(self.frames, depth);
                let index = frames.len() - 1 - depth;
                let (cells, frame) = fill(self.cells, frames[index], slot);
                (
                    MachineView { cells, frames: frames.update(index, frame), ..self },
                    frame[slot as int],
                )
            },
            VariableView::Closure(slot) => {
                let (cells, captures) = fill(self.cells, self.captures, slot);
                (MachineView { cells, captures, ..self }, captures[slot as int])
            },
            _ => (
                MachineView { cells: self.cells.push(ValueView::Nil), ..self },
                self.cells.len(),
            ),
        }
    }

    /// Reads a variable. A global that was never assigned is an error; a
    /// local variable that was never assigned holds `nil`.
    pub open spec fn read(self, v: VariableView) -> (
        MachineView,
        Result<ValueView, RuntimeErrorView>,
    ) {
        match v {
            VariableView::Global(name) | VariableView::Unresolved(name) => {
                if self.globals.contains_key(name) {
                    (self, Ok(self.globals[name]))
                } else {
                    (self, Err(RuntimeErrorView::UndefinedVariable(name)))
                }
            },
            _ => {
                let (m, id) = self.locate(v);
                (m, Ok(m.cell(id)))
            },
        }
    }

    /// Writes a variable: a global is inserted or replaced, a local variable
    /// is written to its cell.
    pub open spec fn write(self, v: VariableView, value: ValueView) -> MachineView {
        match v {
            VariableView::Global(name) | VariableView::Unresolved(name) => MachineView {
                globals: self.globals.insert(name, value),
                ..self
            },
            _ => {
                let (m, id) = self.locate(v);
                m.store(id, value)
            },
        }
    }

    /// The cells of the first `n` upvalues of a declaration, where the
    /// declaration executes.
    pub open spec fn capture(self, upvalues: Seq<VariableView>, n: nat) -> (MachineView, Seq<nat>)
        decreases n,
    {
        if n == 0 || n > upvalues.len() {
            (self, Seq::empty())
        } else {
            let (m1, done) = self.capture(upvalues, (n - 1) as nat);
            let (m2, id) = m1.locate(upvalues[n - 1]);
            (m2, done.push(id))
        }
    }

    /// Executes a function declaration: the cell of each upvalue is fixed
    /// now, the declaration is kept, and the function value is bound as a
    /// variable declaration would bind it.
    pub open spec fn declare(self, decl: FunctionDeclView) -> MachineView {
        let (m, captures) = self.capture(decl.upvalues, decl.upvalues.len());
        let function = ValueView::Function { name: decl.name, code: m.code.len(), captures };
        MachineView { code: m.code.push(decl), ..m }.write(decl.binding, function)
    }

    /// Calls a value on arguments. A function wants as many arguments as it
    /// has parameters; its body then runs in a frame of its own whose slots
    /// are new cells holding the arguments, with the function's captured
    /// cells, and the caller's frames out of reach until it returns. A native
    /// function is the driver's to call.
    pub open spec fn invoke(self, callee: ValueView, args: Seq<ValueView>) -> (
        MachineView,
        ActionView,
    ) {
        match callee {
            ValueView::Function { code, captures, .. } => {
                if code >= self.code.len() {
                    self.fail(RuntimeErrorView::NotCallable(Kind::Function))
                } else if args.len() != self.code[code as int].params.len() {
                    self.fail(
                        RuntimeErrorView::ArityMismatch(
                            self.code[code as int].params.len(),
                            args.len(),
                        ),
                    )
                } else {
                    (
                        MachineView {
                            cells: self.cells + args,
                            frames: seq![fresh_cells(self.cells.len(), args.len())],
                            captures,
                            control: ControlView::Done(None),
                            konts: self.konts.push(
                                KontView::Body {
                                    frames: self.frames,
                                    captures: self.captures,
                                    pending: self.code[code as int].body,
                                },
                            ),
                            ..self
                        },
                        ActionView::Continue,
                    )
                }
            },
            ValueView::NativeFunction => (
                self.goto(ControlView::AwaitNative(args)),
                ActionView::Native(args),
            ),
            _ => self.fail(RuntimeErrorView::NotCallable(callee.kind())),
        }
    }

    /// Returns a value from the function that is executing: the
    /// continuations down to the innermost function body are dropped, the
    /// caller's frames and captured cells come back, and the value goes to
    /// the caller's continuation. Outside any function the program ends with
    /// the value.
    pub open spec fn unwind(self, value: ValueView) -> (MachineView, ActionView)
        decreases self.konts.len(),
    {
        if self.konts.len() == 0 {
            (self.halt(), ActionView::Finished(Some(value)))
        } else {
            match self.konts.last() {
                KontView::Body { frames, captures, .. } => (
                    MachineView {
                        frames,
                        captures,
                        control: ControlView::Value(value),
                        konts: self.konts.drop_last(),
                        ..self
                    },
                    ActionView::Continue,
                ),
                _ => self.pop().unwind(value),
            }
        }
    }

    /// Begins the evaluation of an expression. An assignment evaluates its
    /// right side and then writes; every other operator evaluates its left
    /// operand first; a call evaluates its callee first.
    pub open spec fn evaluate(self, e: ExpressionView) -> (MachineView, ActionView) {
        match e {
            ExpressionView::Literal(bits) => (
                self.goto(ControlView::Value(ValueView::Number(bits))),
                ActionView::Continue,
            ),
            ExpressionView::Variable(v) => {
                let (m, value) = self.read(v);
                match value {
                    Ok(value) => (m.goto(ControlView::Value(value)), ActionView::Continue),
                    Err(error) => m.fail(error),
                }
            },
            ExpressionView::Binop(op, lhs, rhs) => {
                if op == Binop::Assignment {
                    match *lhs {
                        ExpressionView::Variable(v) => (
                            self.push(KontView::Assign(v)).goto(ControlView::Eval(*rhs)),
                            ActionView::Continue,
                        ),
                        _ => (self.goto(ControlView::Eval(*rhs)), ActionView::Continue),
                    }
                } else {
                    (
                        self.push(KontView::BinopRight(op, *rhs)).goto(ControlView::Eval(*lhs)),
                        ActionView::Continue,
                    )
                }
            },
            ExpressionView::Call(callee, args) => (
                self.push(KontView::Callee(args)).goto(ControlView::Eval(*callee)),
                ActionView::Continue,
            ),
        }
    }

    /// Begins the execution of a statement.
    pub open spec fn execute(self, s: StatementView) -> (MachineView, ActionView) {
        match s {
            StatementView::Print(e) => (
                self.push(KontView::Print).goto(ControlView::Eval(e)),
                ActionView::Continue,
            ),
            StatementView::Expression(e) => (
                self.push(KontView::Echo).goto(ControlView::Eval(e)),
                ActionView::Continue,
            ),
            StatementView::Var(v, init) => (
                self.push(KontView::Bind(v)).goto(
                    match init {
                        Some(e) => ControlView::Eval(e),
                        None => ControlView::Value(ValueView::Nil),
                    },
                ),
                ActionView::Continue,
            ),
            StatementView::Fun(decl) => (
                self.declare(decl).goto(ControlView::Done(None)),
                ActionView::Continue,
            ),
            StatementView::Return(e) => match e {
                Some(e) => (
                    self.push(KontView::Return).goto(ControlView::Eval(e)),
                    ActionView::Continue,
                ),
                None => self.unwind(ValueView::Nil),
            },
            StatementView::Block(body) => (
                MachineView {
                    frames: self.frames.push(Seq::empty()),
                    control: ControlView::Done(None),
                    konts: self.konts.push(KontView::Block(body)),
                    ..self
                },
                ActionView::Continue,
            ),
            StatementView::While(cond, body) => (
                self.push(KontView::Loop(cond, *body)).goto(ControlView::Eval(cond)),
                ActionView::Continue,
            ),
            StatementView::If(cond, then, otherwise) => (
                self.push(
                    KontView::Branch(
                        *then,
                        match otherwise {
                            Some(s) => Some(*s),
                            None => None,
                        },
                    ),
                ).goto(ControlView::Eval(cond)),
                ActionView::Continue,
            ),
        }
    }

    /// Hands a value to a continuation that was taken off the stack. A
    /// continuation that waits for a statement lets the value pass.
    pub open spec fn apply(self, kont: KontView, value: ValueView) -> (MachineView, ActionView) {
        match kont {
            KontView::BinopRight(op, rhs) => (
                self.push(KontView::BinopApply(op, value)).goto(ControlView::Eval(rhs)),
                ActionView::Continue,
            ),
            KontView::BinopApply(op, lhs) => match binary(op, lhs, value) {
                Outcome::Value(result) => (
                    self.goto(ControlView::Value(result)),
                    ActionView::Continue,
                ),
                Outcome::Numeric(op, a, b) => (
                    self.goto(ControlView::AwaitNumeric(op, a, b)),
                    ActionView::Numeric(op, a, b),
                ),
                Outcome::Fail(error) => self.fail(error),
            },
            KontView::Assign(v) => (
                self.write(v, value).goto(ControlView::Value(value)),
                ActionView::Continue,
            ),
            KontView::Callee(args) => {
                if !value.callable() {
                    self.fail(RuntimeErrorView::NotCallable(value.kind()))
                } else if args.len() == 0 {
                    self.invoke(value, Seq::empty())
                } else {
                    (
                        self.push(
                            KontView::Args {
                                callee: value,
                                done: Seq::empty(),
                                pending: args.drop_first(),
                            },
                        ).goto(ControlView::Eval(args[0])),
                        ActionView::Continue,
                    )
                }
            },
            KontView::Args { callee, done, pending } => {
                if pending.len() == 0 {
                    self.invoke(callee, done.push(value))
                } else {
                    (
                        self.push(
                            KontView::Args {
                                callee,
                                done: done.push(value),
                                pending: pending.drop_first(),
                            },
                        ).goto(ControlView::Eval(pending[0])),
                        ActionView::Continue,
                    )
                }
            },
            KontView::Print => (self.goto(ControlView::Done(None)), ActionView::Print(value)),
            KontView::Echo => (self.goto(ControlView::Done(Some(value))), ActionView::Continue),
            KontView::Bind(v) => (
                self.write(v, value).goto(ControlView::Done(None)),
                ActionView::Continue,
            ),
            KontView::Branch(then, otherwise) => {
                if value.truthy() {
                    (self.push(KontView::Quiet).goto(ControlView::Exec(then)), ActionView::Continue)
                } else {
                    match otherwise {
                        Some(s) => (
                            self.push(KontView::Quiet).goto(ControlView::Exec(s)),
                            ActionView::Continue,
                        ),
                        None => (self.goto(ControlView::Done(None)), ActionView::Continue),
                    }
                }
            },
            KontView::Loop(cond, body) => {
                if value.truthy() {
                    (
                        self.push(KontView::Again(cond, body)).goto(ControlView::Exec(body)),
                        ActionView::Continue,
                    )
                } else {
                    (self.goto(ControlView::Done(None)), ActionView::Continue)
                }
            },
            KontView::Return => self.unwind(value),
            _ => (self.goto(ControlView::Value(value)), ActionView::Continue),
        }
    }

    /// Tells a continuation that was taken off the stack that a statement is
    /// done. A continuation that waits for a value lets the news pass.
    pub open spec fn complete(self, kont: KontView, result: Option<ValueView>) -> (
        MachineView,
        ActionView,
    ) {
        match kont {
            KontView::Program(pending) => {
                if pending.len() == 0 {
                    (self.goto(ControlView::Done(result)), ActionView::Continue)
                } else {
                    (
                        self.push(KontView::Program(pending.drop_first())).goto(
                            ControlView::Exec(pending[0]),
                        ),
                        ActionView::Continue,
                    )
                }
            },
            KontView::Block(pending) => {
                if pending.len() == 0 {
                    (
                        MachineView {
                            frames: if self.frames.len() == 0 {
                                self.frames
                            } else {
                                self.frames.drop_last()
                            },
                            control: ControlView::Done(None),
                            ..self
                        },
                        ActionView::Continue,
                    )
                } else {
                    (
                        self.push(KontView::Block(pending.drop_first())).goto(
                            ControlView::Exec(pending[0]),
                        ),
                        ActionView::Continue,
                    )
                }
            },
            KontView::Body { frames, captures, pending } => {
                if pending.len() == 0 {
                    (
                        MachineView {
                            frames,
                            captures,
                            control: ControlView::Value(ValueView::Nil),
                            ..self
                        },
                        ActionView::Continue,
                    )
                } else {
                    (
                        self.push(
                            KontView::Body { frames, captures, pending: pending.drop_first() },
                        ).goto(ControlView::Exec(pending[0])),
                        ActionView::Continue,
                    )
                }
            },
            KontView::Again(cond, body) => (
                self.push(KontView::Loop(cond, body)).goto(ControlView::Eval(cond)),
                ActionView::Continue,
            ),
            KontView::Quiet => (self.goto(ControlView::Done(None)), ActionView::Continue),
            _ => (self.goto(ControlView::Done(result)), ActionView::Continue),
        }
    }

    /// One step of the machine: what is to do next is taken up, and the
    /// continuations say what follows. A machine that waits for the driver
    /// asks again.
    pub open spec fn step(self) -> (MachineView, ActionView) {
        let rest = self.goto(ControlView::Idle);
        match self.control {
            ControlView::Idle => (self, ActionView::Finished(None)),
            ControlView::Eval(e) => rest.evaluate(e),
            ControlView::Exec(s) => rest.execute(s),
            ControlView::Value(value) => {
                if self.konts.len() == 0 {
                    (self.halt(), ActionView::Finished(Some(value)))
                } else {
                    rest.pop().apply(self.konts.last(), value)
                }
            },
            ControlView::Done(result) => {
                if self.konts.len() == 0 {
                    (self.halt(), ActionView::Finished(result))
                } else {
                    rest.pop().complete(self.konts.last(), result)
                }
            },
            ControlView::AwaitNumeric(op, a, b) => (self, ActionView::Numeric(op, a, b)),
            ControlView::AwaitNative(args) => (self, ActionView::Native(args)),
        }
    }

    /// The machine resumed with the value that it waited for.
    pub open spec fn resume(self, value: ValueView) -> MachineView {
        if self.awaiting() {
            self.goto(ControlView::Value(value))
        } else {
            self
        }
    }
}

} // verus!
