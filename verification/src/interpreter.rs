//! The interpreter: the machine of one session, in executable form.
//!
//! A driver loads a resolved program with [`Interpreter::run`] and then calls
//! [`Interpreter::step`] until the action is `Finished` or `Failed`. After a
//! `Numeric` or `Native` action it computes the value that was asked for and
//! hands it back with [`Interpreter::resume`].

use crate::ast::{
    Binop, duplicate_statements, Expression, expression_views, FunctionDecl, Program, Statement,
    statement_views, Variable, variable_views,
};
use crate::machine::{
    ActionView, binary, ControlView, fill, fresh_cells, grow_frames, KontView, MachineView, Outcome,
    RuntimeErrorView,
};
use crate::object::{index_views, Kind, Value, value_views, ValueView};
use crate::runnable::{
    law_load_keeps_machine_healthy, law_resume_keeps_machine_healthy,
    law_step_keeps_machine_healthy,
};
use vstd::prelude::*;

verus! {

/// Why a program was aborted.
#[derive(Debug, PartialEq, Clone)]
pub enum RuntimeError {
    /// A global variable was read that was never assigned.
    UndefinedVariable(String),
    /// An operator was applied to values of kinds that it is not defined on.
    TypeMismatch(Binop, Kind, Kind),
    /// A function with `expected` parameters was called on `got` arguments.
    ArityMismatch(usize, usize),
    /// A value of this kind was called.
    NotCallable(Kind),
}

impl View for RuntimeError {
    type V = RuntimeErrorView;

    open spec fn view(&self) -> RuntimeErrorView {
        match *self {
            RuntimeError::UndefinedVariable(name) => RuntimeErrorView::UndefinedVariable(name@),
            RuntimeError::TypeMismatch(op, lhs, rhs) => RuntimeErrorView::TypeMismatch(
                op,
                lhs,
                rhs,
            ),
            RuntimeError::ArityMismatch(expected, got) => RuntimeErrorView::ArityMismatch(
                expected as nat,
                got as nat,
            ),
            RuntimeError::NotCallable(kind) => RuntimeErrorView::NotCallable(kind),
        }
    }
}

/// What the driver is asked to do before the next step.
#[derive(Debug, PartialEq, Clone)]
pub enum Action {
    /// Nothing: take the next step.
    Continue,
    /// Hand this value to the output, then take the next step.
    Print(Value),
    /// Apply the operator to the two numbers and resume with the result.
    Numeric(Binop, u64, u64),
    /// Call the native function on these arguments and resume with the
    /// result.
    Native(Vec<Value>),
    /// The program has ended, with this value to show.
    Finished(Option<Value>),
    /// The program was aborted with this error.
    Failed(RuntimeError),
}

/// The view of an optional value.
pub open spec fn optional_value(value: Option<Value>) -> Option<ValueView> {
    match value {
        Some(value) => Some(value@),
        None => None,
    }
}

impl View for Action {
    type V = ActionView;

    open spec fn view(&self) -> ActionView {
        match *self {
            Action::Continue => ActionView::Continue,
            Action::Print(value) => ActionView::Print(value@),
            Action::Numeric(op, a, b) => ActionView::Numeric(op, a, b),
            Action::Native(args) => ActionView::Native(value_views(args@)),
            Action::Finished(value) => ActionView::Finished(optional_value(value)),
            Action::Failed(error) => ActionView::Failed(error@),
        }
    }
}

/// What the machine does next.
enum Control {
    Idle,
    Eval(Expression),
    Exec(Statement),
    Value(Value),
    Done(Option<Value>),
    AwaitNumeric(Binop, u64, u64),
    AwaitNative(Vec<Value>),
}

/// A continuation. Lists of what is still to be done are kept in reverse, so
/// that the next item is taken off the end.
enum Kont {
    BinopRight(Binop, Expression),
    BinopApply(Binop, Value),
    Assign(Variable),
    Callee(Vec<Expression>),
    Args { callee: Value, done: Vec<Value>, pending: Vec<Expression> },
    Print,
    Echo,
    Bind(Variable),
    Branch(Statement, Option<Statement>),
    Loop(Expression, Statement),
    Return,
    Program(Vec<Statement>),
    Block(Vec<Statement>),
    Body { frames: Vec<Vec<usize>>, captures: Vec<usize>, pending: Vec<Statement> },
    Again(Expression, Statement),
    Quiet,
}

/// The views of a reversed list of statements, in the order of execution.
spec fn pending_statements(list: Seq<Statement>) -> Seq<crate::ast::StatementView> {
    Seq::new(list.len(), |i: int| list[list.len() - 1 - i]@)
}

/// The views of a reversed list of expressions, in the order of evaluation.
spec fn pending_expressions(list: Seq<Expression>) -> Seq<crate::ast::ExpressionView> {
    Seq::new(list.len(), |i: int| list[list.len() - 1 - i]@)
}

/// The views of a stack of frames, outermost first.
spec fn frame_views(frames: Seq<Vec<usize>>) -> Seq<Seq<nat>> {
    Seq::new(frames.len(), |i: int| index_views(frames[i]@))
}

/// The views of the declarations that are kept.
spec fn code_views(code: Seq<FunctionDecl>) -> Seq<crate::ast::FunctionDeclView> {
    Seq::new(code.len(), |i: int| code[i]@)
}

/// The view of an optional statement.
spec fn optional_statement(s: Option<Statement>) -> Option<crate::ast::StatementView> {
    match s {
        Some(s) => Some(s@),
        None => None,
    }
}

spec fn control_view(control: Control) -> ControlView {
    match control {
        Control::Idle => ControlView::Idle,
        Control::Eval(e) => ControlView::Eval(e@),
        Control::Exec(s) => ControlView::Exec(s@),
        Control::Value(value) => ControlView::Value(value@),
        Control::Done(result) => ControlView::Done(optional_value(result)),
        Control::AwaitNumeric(op, a, b) => ControlView::AwaitNumeric(op, a, b),
        Control::AwaitNative(args) => ControlView::AwaitNative(value_views(args@)),
    }
}

spec fn kont_view(kont: Kont) -> KontView {
    match kont {
        Kont::BinopRight(op, rhs) => KontView::BinopRight(op, rhs@),
        Kont::BinopApply(op, lhs) => KontView::BinopApply(op, lhs@),
        Kont::Assign(v) => KontView::Assign(v@),
        Kont::Callee(args) => KontView::Callee(expression_views(args@)),
        Kont::Args { callee, done, pending } => KontView::Args {
            callee: callee@,
            done: value_views(done@),
            pending: pending_expressions(pending@),
        },
        Kont::Print => KontView::Print,
        Kont::Echo => KontView::Echo,
        Kont::Bind(v) => KontView::Bind(v@),
        Kont::Branch(then, otherwise) => KontView::Branch(then@, optional_statement(otherwise)),
        Kont::Loop(cond, body) => KontView::Loop(cond@, body@),
        Kont::Return => KontView::Return,
        Kont::Program(pending) => KontView::Program(pending_statements(pending@)),
        Kont::Block(pending) => KontView::Block(pending_statements(pending@)),
        Kont::Body { frames, captures, pending } => KontView::Body {
            frames: frame_views(frames@),
            captures: index_views(captures@),
            pending: pending_statements(pending@),
        },
        Kont::Again(cond, body) => KontView::Again(cond@, body@),
        Kont::Quiet => KontView::Quiet,
    }
}

spec fn kont_views(konts: Seq<Kont>) -> Seq<KontView> {
    Seq::new(konts.len(), |i: int| kont_view(konts[i]))
}

/// The position of a name among the names of the globals.
spec fn position(names: Seq<String>, name: Seq<char>) -> int {
    choose|i: int| 0 <= i < names.len() && names[i]@ == name
}

/// The globals as a map from names to values.
spec fn global_views(names: Seq<String>, values: Seq<Value>) -> Map<Seq<char>, ValueView> {
    Map::new(
        |name: Seq<char>| exists|i: int| 0 <= i < names.len() && names[i]@ == name,
        |name: Seq<char>| values[position(names, name)]@,
    )
}

/// Reverses a list of statements.
fn reverse_statements(list: Vec<Statement>) -> (out: Vec<Statement>)
    ensures
        pending_statements(out@) == statement_views(list@),
{
    let mut list = list;
    let ghost given = list@;
    let mut out: Vec<Statement> = Vec::new();
    while list.len() > 0
        invariant
            list.len() + out.len() == given.len(),
            forall|j: int| 0 <= j < list.len() ==> list[j] == given[j],
            forall|j: int| 0 <= j < out.len() ==> out[j] == given[given.len() - 1 - j],
        decreases list.len(),
    {
        let s = list.pop().unwrap();
        out.push(s);
    }
    assert(pending_statements(out@) =~= statement_views(given));
    out
}

/// Reverses a list of expressions.
fn reverse_expressions(list: Vec<Expression>) -> (out: Vec<Expression>)
    ensures
        pending_expressions(out@) == expression_views(list@),
{
    let mut list = list;
    let ghost given = list@;
    let mut out: Vec<Expression> = Vec::new();
    while list.len() > 0
        invariant
            list.len() + out.len() == given.len(),
            forall|j: int| 0 <= j < list.len() ==> list[j] == given[j],
            forall|j: int| 0 <= j < out.len() ==> out[j] == given[given.len() - 1 - j],
        decreases list.len(),
    {
        let e = list.pop().unwrap();
        out.push(e);
    }
    assert(pending_expressions(out@) =~= expression_views(given));
    out
}

/// The interpreter of one session. The globals, the cells and the function
/// declarations that were executed live as long as the interpreter; frames
/// and continuations live while a program runs.
pub struct Interpreter {
    names: Vec<String>,
    values: Vec<Value>,
    cells: Vec<Value>,
    code: Vec<FunctionDecl>,
    frames: Vec<Vec<usize>>,
    captures: Vec<usize>,
    control: Control,
    konts: Vec<Kont>,
}

impl View for Interpreter {
    type V = MachineView;

    closed spec fn view(&self) -> MachineView {
        MachineView {
            globals: global_views(self.names@, self.values@),
            cells: value_views(self.cells@),
            code: code_views(self.code@),
            frames: frame_views(self.frames@),
            captures: index_views(self.captures@),
            control: control_view(self.control),
            konts: kont_views(self.konts@),
        }
    }
}

impl Interpreter {
    /// The invariant of the representation: every global has one name and one
    /// value.
    pub closed spec fn wf(&self) -> bool {
        &&& self.names.len() == self.values.len()
        &&& forall|i: int, j: int|
            0 <= i < j < self.names.len() ==> self.names[i]@ != self.names[j]@
    }

    /// The interpreter of a new session.
    pub fn new() -> (interpreter: Interpreter)
        ensures
            interpreter.wf(),
            interpreter@ == MachineView::initial(),
            interpreter@.healthy(),
    {
        let interpreter = Interpreter {
            names: Vec::new(),
            values: Vec::new(),
            cells: Vec::new(),
            code: Vec::new(),
            frames: Vec::new(),
            captures: Vec::new(),
            control: Control::Idle,
            konts: Vec::new(),
        };
        assert(interpreter@.globals =~= Map::empty());
        assert(interpreter@.cells =~= Seq::empty());
        assert(interpreter@.code =~= Seq::empty());
        assert(interpreter@.frames =~= Seq::empty());
        assert(interpreter@.captures =~= Seq::empty());
        assert(interpreter@.konts =~= Seq::empty());
        interpreter
    }

    /// The position of the name of a global is where the global is kept.
    proof fn lemma_position(&self, i: int)
        requires
            self.wf(),
            0 <= i < self.names.len(),
        ensures
            position(self.names@, self.names[i]@) == i,
    {
        let k = position(self.names@, self.names[i]@);
        assert(0 <= k < self.names.len() && self.names[k]@ == self.names[i]@);
        if k < i {
            assert(self.names[k]@ != self.names[i]@);
        }
        if i < k {
            assert(self.names[i]@ != self.names[k]@);
        }
    }

    /// Where a global of this name is kept.
    fn find_global(&self, name: &String) -> (found: Option<usize>)
        requires
            self.wf(),
        ensures
            match found {
                Some(i) => {
                    &&& i < self.names.len()
                    &&& self.names[i as int]@ == name@
                    &&& self@.globals.contains_key(name@)
                    &&& self@.globals[name@] == self.values[i as int]@
                },
                None => !self@.globals.contains_key(name@),
            },
    {
        let mut i: usize = 0;
        while i < self.names.len()
            invariant
                self.wf(),
                i <= self.names.len(),
                forall|j: int| 0 <= j < i ==> self.names[j]@ != name@,
            decreases self.names.len() - i,
        {
            if self.names[i] == *name {
                proof {
                    self.lemma_position(i as int);
                }
                return Some(i);
            }
            i += 1;
        }
        None
    }

    /// Inserts or replaces a global.
    fn set_global(&mut self, name: &String, value: Value)
        requires
            old(self).wf(),
        ensures
            final(self).wf(),
            final(self)@ == (MachineView {
                globals: old(self)@.globals.insert(name@, value@),
                ..old(self)@
            }),
    {
        let ghost before = self@;
        let ghost value_view = value@;
        match self.find_global(name) {
            Some(i) => {
                self.values[i] = value;
                assert(self@.globals =~= before.globals.insert(name@, value_view)) by {
                    assert forall|n: Seq<char>| self@.globals.contains_key(n) implies
                        #[trigger] self@.globals[n]
                        == before.globals.insert(name@, value_view)[n] by {
                        let k = position(self.names@, n);
                        if k != i {
                            assert(self.names[k]@ != name@);
                        }
                    }
                }
            },
            None => {
                self.names.push(name.clone());
                self.values.push(value);
                let ghost last = self.names.len() - 1;
                assert(self@.globals =~= before.globals.insert(name@, value_view)) by {
                    assert forall|n: Seq<char>|
                        before.globals.insert(name@, value_view).contains_key(
                            n,
                        ) implies self@.globals.contains_key(n) by {
                        if n == name@ {
                            assert(self.names[last]@ == n);
                        } else {
                            let k = position(old(self).names@, n);
                            assert(self.names[k]@ == n);
                        }
                    }
                    assert forall|n: Seq<char>| self@.globals.contains_key(n) implies
                        #[trigger] self@.globals[n]
                        == before.globals.insert(name@, value_view)[n] by {
                        let k = position(self.names@, n);
                        if k == last {
                        } else {
                            assert(old(self).names[k]@ == n);
                            let k0 = position(old(self).names@, n);
                            assert(self.names[k0]@ == n);
                        }
                    }
                }
            },
        }
        assert(self@ =~= (MachineView {
            globals: before.globals.insert(name@, value_view),
            ..before
        }));
    }

    /// Adds outer frames until `depth` parent links lead to a frame, and
    /// returns the position of that frame.
    fn frame_at(&mut self, depth: usize) -> (index: usize)
        requires
            old(self).wf(),
        ensures
            final(self).wf(),
            final(self)@ == (MachineView {
                frames: grow_frames(old(self)@.frames, depth as nat),
                ..old(self)@
            }),
            index == final(self)@.frames.len() - 1 - depth,
            index < final(self).frames.len(),
    {
        let ghost target = grow_frames(old(self)@.frames, depth as nat);
        while self.frames.len() <= depth
            invariant
                self.wf(),
                self.names == old(self).names,
                self.values == old(self).values,
                self.cells == old(self).cells,
                self.code == old(self).code,
                self.captures == old(self).captures,
                self.control == old(self).control,
                self.konts == old(self).konts,
                grow_frames(frame_views(self.frames@), depth as nat) == target,
            decreases depth + 1 - self.frames.len(),
        {
            let ghost before = frame_views(self.frames@);
            let frame: Vec<usize> = Vec::new();
            assert(index_views(frame@) =~= Seq::<nat>::empty());
            self.frames.insert(0, frame);
            proof {
                let after = frame_views(self.frames@);
                assert(after =~= seq![Seq::<nat>::empty()] + before);
                assert(grow_frames(after, depth as nat) =~= grow_frames(before, depth as nat));
            }
        }
        assert(self@ =~= (MachineView { frames: target, ..old(self)@ }));
        self.frames.len() - 1 - depth
    }

    /// The cell of a local address; frames, slots and cells that are missing
    /// are created.
    fn locate(&mut self, v: &Variable) -> (id: usize)
        requires
            old(self).wf(),
        ensures
            final(self).wf(),
            (final(self)@, id as nat) == old(self)@.locate(v@),
    {
        match v {
            Variable::Scoped(depth, slot) => {
                let index = self.frame_at(*depth);
                let ghost grown = self@;
                let ghost target = fill(grown.cells, grown.frames[index as int], *slot as nat);
                assert(grown.frames.update(index as int, grown.frames[index as int])
                    =~= grown.frames);
                while self.frames[index].len() <= *slot
                    invariant
                        self.wf(),
                        index < self.frames.len(),
                        self.frames.len() == grown.frames.len(),
                        self@ == (MachineView {
                            cells: self@.cells,
                            frames: grown.frames.update(index as int, self@.frames[index as int]),
                            ..grown
                        }),
                        fill(self@.cells, self@.frames[index as int], *slot as nat) == target,
                    decreases *slot + 1 - self.frames[index as int].len(),
                {
                    let ghost before = self@;
                    let ghost frames_before = self.frames@;
                    let id = self.cells.len();
                    self.cells.push(Value::Nil);
                    self.frames[index].push(id);
                    proof {
                        assert(self@.cells =~= before.cells.push(ValueView::Nil));
                        assert(self.frames@ == frames_before.update(
                            index as int,
                            self.frames[index as int],
                        ));
                        assert(self@.frames[index as int] =~= before.frames[index as int].push(
                            id as nat,
                        ));
                        assert forall|j: int| 0 <= j < self@.frames.len() && j != index implies
                            self@.frames[j]
                            == grown.frames[j] by {
                            assert(self@.frames[j] == before.frames[j]);
                        }
                        assert(self@.frames =~= grown.frames.update(
                            index as int,
                            self@.frames[index as int],
                        ));
                        assert(self@.globals == before.globals);
                        assert(self@.konts == before.konts);
                    }
                }
                self.frames[index][*slot]
            },
            Variable::Closure(slot) => {
                let ghost target = fill(old(self)@.cells, old(self)@.captures, *slot as nat);
                while self.captures.len() <= *slot
                    invariant
                        self.wf(),
                        self@ == (MachineView {
                            cells: self@.cells,
                            captures: self@.captures,
                            ..old(self)@
                        }),
                        fill(self@.cells, self@.captures, *slot as nat) == target,
                    decreases *slot + 1 - self.captures.len(),
                {
                    let ghost before = self@;
                    let id = self.cells.len();
                    self.cells.push(Value::Nil);
                    self.captures.push(id);
                    proof {
                        assert(self@.cells =~= before.cells.push(ValueView::Nil));
                        assert(self@.captures =~= before.captures.push(id as nat));
                        assert(self@.globals == before.globals);
                        assert(self@.konts == before.konts);
                    }
                }
                self.captures[*slot]
            },
            _ => {
                let id = self.cells.len();
                self.cells.push(Value::Nil);
                assert(self@.cells =~= old(self)@.cells.push(ValueView::Nil));
                id
            },
        }
    }

    /// The value in a cell; `nil` where there is no such cell.
    fn cell(&self, id: usize) -> (value: Value)
        ensures
            value@ == self@.cell(id as nat),
    {
        if id < self.cells.len() {
            self.cells[id].duplicate()
        } else {
            Value::Nil
        }
    }

    /// Puts a value in a cell, if there is such a cell.
    fn store(&mut self, id: usize, value: Value)
        requires
            old(self).wf(),
        ensures
            final(self).wf(),
            final(self)@ == old(self)@.store(id as nat, value@),
    {
        if id < self.cells.len() {
            self.cells[id] = value;
            assert(self@.cells =~= old(self)@.cells.update(id as int, value@));
        }
    }

    /// The value of a global of the session, if it has one of this name.
    pub fn global(&self, name: &String) -> (value: Option<Value>)
        requires
            self.wf(),
        ensures
            match value {
                Some(value) => self@.globals.contains_key(name@) && self@.globals[name@] == value@,
                None => !self@.globals.contains_key(name@),
            },
    {
        match self.find_global(name) {
            Some(i) => Some(self.values[i].duplicate()),
            None => None,
        }
    }

    /// Reads a variable. A global that was never assigned is an error; a
    /// local variable that was never assigned holds `nil`.
    pub fn read(&mut self, v: &Variable) -> (result: Result<Value, RuntimeError>)
        requires
            old(self).wf(),
        ensures
            final(self).wf(),
            final(self)@ == old(self)@.read(v@).0,
            match result {
                Ok(value) => old(self)@.read(v@).1 == Ok::<ValueView, RuntimeErrorView>(value@),
                Err(error) => old(self)@.read(v@).1 == Err::<ValueView, RuntimeErrorView>(error@),
            },
    {
        match v {
            Variable::Global(name) => self.read_global(name),
            Variable::Unresolved(name) => self.read_global(name),
            _ => {
                let id = self.locate(v);
                Ok(self.cell(id))
            },
        }
    }

    /// Reads a global.
    fn read_global(&self, name: &String) -> (result: Result<Value, RuntimeError>)
        requires
            self.wf(),
        ensures
            match result {
                Ok(value) => self@.globals.contains_key(name@) && self@.globals[name@] == value@,
                Err(error) => {
                    &&& !self@.globals.contains_key(name@)
                    &&& error@ == RuntimeErrorView::UndefinedVariable(name@)
                },
            },
    {
        match self.find_global(name) {
            Some(i) => Ok(self.values[i].duplicate()),
            None => Err(RuntimeError::UndefinedVariable(name.clone())),
        }
    }

    /// Writes a variable: a global is inserted or replaced, a local variable
    /// is written to its cell, which is created if it is missing.
    pub fn write(&mut self, v: &Variable, value: Value)
        requires
            old(self).wf(),
        ensures
            final(self).wf(),
            final(self)@ == old(self)@.write(v@, value@),
    {
        match v {
            Variable::Global(name) => self.set_global(name, value),
            Variable::Unresolved(name) => self.set_global(name, value),
            _ => {
                let id = self.locate(v);
                self.store(id, value);
            },
        }
    }

    /// The cells of the upvalues of a declaration, where the declaration
    /// executes.
    fn capture(&mut self, upvalues: &Vec<Variable>) -> (ids: Vec<usize>)
        requires
            old(self).wf(),
        ensures
            final(self).wf(),
            (final(self)@, index_views(ids@)) == old(self)@.capture(
                variable_views(upvalues@),
                upvalues.len() as nat,
            ),
    {
        let mut ids: Vec<usize> = Vec::new();
        let mut i: usize = 0;
        assert(index_views(ids@) =~= Seq::empty());
        while i < upvalues.len()
            invariant
                self.wf(),
                i <= upvalues.len(),
                (self@, index_views(ids@)) == old(self)@.capture(
                    variable_views(upvalues@),
                    i as nat,
                ),
            decreases upvalues.len() - i,
        {
            let ghost done = index_views(ids@);
            let id = self.locate(&upvalues[i]);
            ids.push(id);
            assert(index_views(ids@) =~= done.push(id as nat));
            i += 1;
        }
        ids
    }

    /// Executes a function declaration: the cell of each upvalue is fixed
    /// now, the declaration is kept, and the function value is bound as a
    /// variable declaration would bind it.
    pub fn declare(&mut self, decl: FunctionDecl)
        requires
            old(self).wf(),
        ensures
            final(self).wf(),
            final(self)@ == old(self)@.declare(decl@),
    {
        let captures = self.capture(&decl.upvalues);
        let ghost captured = self@;
        let function = Value::Function {
            name: decl.name.clone(),
            code: self.code.len(),
            captures,
        };
        let binding = decl.binding.duplicate();
        self.code.push(decl);
        assert(self@ =~= (MachineView { code: captured.code.push(decl@), ..captured })) by {
            assert(self@.code =~= captured.code.push(decl@));
        }
        self.write(&binding, function);
    }

    /// Drops what is pending: no continuation, no frame, nothing to do.
    fn halt(&mut self)
        requires
            old(self).wf(),
        ensures
            final(self).wf(),
            final(self)@ == old(self)@.halt(),
    {
        self.frames = Vec::new();
        self.captures = Vec::new();
        self.control = Control::Idle;
        self.konts = Vec::new();
        assert(self@ =~= old(self)@.halt()) by {
            assert(self@.frames =~= Seq::empty());
            assert(self@.captures =~= Seq::empty());
            assert(self@.konts =~= Seq::empty());
        }
    }

    /// Aborts the program with an error.
    fn fail(&mut self, error: RuntimeError) -> (action: Action)
        requires
            old(self).wf(),
        ensures
            final(self).wf(),
            (final(self)@, action@) == old(self)@.fail(error@),
    {
        self.halt();
        Action::Failed(error)
    }

    /// Sets what is to do next.
    fn goto(&mut self, control: Control)
        requires
            old(self).wf(),
        ensures
            final(self).wf(),
            final(self)@ == old(self)@.goto(control_view(control)),
    {
        self.control = control;
    }

    /// Adds a continuation.
    fn push(&mut self, kont: Kont)
        requires
            old(self).wf(),
        ensures
            final(self).wf(),
            final(self)@ == old(self)@.push(kont_view(kont)),
    {
        self.konts.push(kont);
        assert(self@.konts =~= old(self)@.konts.push(kont_view(kont)));
    }

    /// Calls a value on arguments. A function wants as many arguments as it
    /// has parameters, and none of its body is executed otherwise. Its body
    /// runs in a frame of its own whose slots are new cells that hold the
    /// arguments. A native function is the driver's to call.
    pub fn invoke(&mut self, callee: Value, args: Vec<Value>) -> (action: Action)
        requires
            old(self).wf(),
        ensures
            final(self).wf(),
            (final(self)@, action@) == old(self)@.invoke(callee@, value_views(args@)),
    {
        match callee {
            Value::Function { name, code, captures } => {
                if code >= self.code.len() {
                    return self.fail(RuntimeError::NotCallable(Kind::Function));
                }
                let expected = self.code[code].params.len();
                if args.len() != expected {
                    return self.fail(RuntimeError::ArityMismatch(expected, args.len()));
                }
                let body = reverse_statements(duplicate_statements(&self.code[code].body));
                let first = self.cells.len();
                let count = args.len();
                let mut args = args;
                let ghost arguments = value_views(args@);
                self.cells.append(&mut args);
                assert(self@.cells =~= old(self)@.cells + arguments);
                let mut frame: Vec<usize> = Vec::new();
                let mut i: usize = 0;
                while i < count
                    invariant
                        i <= count,
                        first + count == self.cells.len(),
                        frame.len() == i,
                        forall|j: int| 0 <= j < i ==> frame[j] == first + j,
                    decreases count - i,
                {
                    frame.push(first + i);
                    i += 1;
                }
                assert(index_views(frame@) =~= fresh_cells(first as nat, count as nat));
                let mut frames: Vec<Vec<usize>> = Vec::new();
                frames.push(frame);
                assert(frame_views(frames@) =~= seq![fresh_cells(first as nat, count as nat)]);
                let mut captures = captures;
                core::mem::swap(&mut self.frames, &mut frames);
                core::mem::swap(&mut self.captures, &mut captures);
                let kont = Kont::Body { frames, captures, pending: body };
                self.konts.push(kont);
                assert(self@.konts =~= old(self)@.konts.push(kont_view(kont)));
                self.control = Control::Done(None);
                Action::Continue
            },
            Value::NativeFunction => {
                let copy = duplicate_values(&args);
                self.control = Control::AwaitNative(copy);
                Action::Native(args)
            },
            other => {
                let kind = other.kind();
                self.fail(RuntimeError::NotCallable(kind))
            },
        }
    }

    /// Returns a value from the function that is executing, or ends the
    /// program with it outside any function.
    pub fn unwind(&mut self, value: Value) -> (action: Action)
        requires
            old(self).wf(),
        ensures
            final(self).wf(),
            (final(self)@, action@) == old(self)@.unwind(value@),
    {
        loop
            invariant
                self.wf(),
                self@.unwind(value@) == old(self)@.unwind(value@),
            decreases self.konts.len(),
        {
            let ghost before = self@;
            match self.konts.pop() {
                None => {
                    self.halt();
                    return Action::Finished(Some(value));
                },
                Some(Kont::Body { frames, captures, pending }) => {
                    self.frames = frames;
                    self.captures = captures;
                    self.control = Control::Value(value);
                    assert(self@.konts =~= before.konts.drop_last());
                    return Action::Continue;
                },
                Some(_) => {
                    assert(self@ =~= before.pop()) by {
                        assert(self@.konts =~= before.konts.drop_last());
                    }
                },
            }
        }
    }

    /// Begins the evaluation of an expression: a literal and a variable
    /// yield their value, every other expression leaves a continuation and
    /// goes on with its first part.
    pub fn evaluate(&mut self, expr: Expression) -> (action: Action)
        requires
            old(self).wf(),
        ensures
            final(self).wf(),
            (final(self)@, action@) == old(self)@.evaluate(expr@),
    {
        match expr {
            Expression::Literal(bits) => {
                self.goto(Control::Value(Value::Number(bits)));
                Action::Continue
            },
            Expression::Variable(v) => {
                match self.read(&v) {
                    Ok(value) => {
                        self.goto(Control::Value(value));
                        Action::Continue
                    },
                    Err(error) => self.fail(error),
                }
            },
            Expression::Binop(op, lhs, rhs) => {
                let lhs: Expression = *lhs;
                let rhs: Expression = *rhs;
                if op == Binop::Assignment {
                    match lhs {
                        Expression::Variable(v) => {
                            self.push(Kont::Assign(v));
                        },
                        _ => {},
                    }
                    self.goto(Control::Eval(rhs));
                } else {
                    self.push(Kont::BinopRight(op, rhs));
                    self.goto(Control::Eval(lhs));
                }
                Action::Continue
            },
            Expression::Call(callee, args) => {
                let callee: Expression = *callee;
                self.push(Kont::Callee(args));
                self.goto(Control::Eval(callee));
                Action::Continue
            },
        }
    }

    /// Begins the execution of a statement.
    pub fn execute(&mut self, stmt: Statement) -> (action: Action)
        requires
            old(self).wf(),
        ensures
            final(self).wf(),
            (final(self)@, action@) == old(self)@.execute(stmt@),
    {
        match stmt {
            Statement::Print(e) => {
                self.push(Kont::Print);
                self.goto(Control::Eval(e));
                Action::Continue
            },
            Statement::Expression(e) => {
                self.push(Kont::Echo);
                self.goto(Control::Eval(e));
                Action::Continue
            },
            Statement::Var(v, init) => {
                self.push(Kont::Bind(v));
                match init {
                    Some(e) => self.goto(Control::Eval(e)),
                    None => self.goto(Control::Value(Value::Nil)),
                }
                Action::Continue
            },
            Statement::Fun(decl) => {
                self.declare(decl);
                self.goto(Control::Done(None));
                Action::Continue
            },
            Statement::Return(e) => match e {
                Some(e) => {
                    self.push(Kont::Return);
                    self.goto(Control::Eval(e));
                    Action::Continue
                },
                None => self.unwind(Value::Nil),
            },
            Statement::Block(body) => {
                let frame: Vec<usize> = Vec::new();
                assert(index_views(frame@) =~= Seq::<nat>::empty());
                self.frames.push(frame);
                assert(self@.frames =~= old(self)@.frames.push(Seq::empty()));
                let kont = Kont::Block(reverse_statements(body));
                self.konts.push(kont);
                assert(self@.konts =~= old(self)@.konts.push(kont_view(kont)));
                self.control = Control::Done(None);
                Action::Continue
            },
            Statement::While(cond, body) => {
                let body: Statement = *body;
                let again = cond.duplicate();
                self.push(Kont::Loop(cond, body));
                self.goto(Control::Eval(again));
                Action::Continue
            },
            Statement::If(cond, then, otherwise) => {
                let then: Statement = *then;
                let otherwise: Option<Statement> = *otherwise;
                self.push(Kont::Branch(then, otherwise));
                self.goto(Control::Eval(cond));
                Action::Continue
            },
        }
    }

    /// Hands a value to a continuation that was taken off the stack.
    fn apply(&mut self, kont: Kont, value: Value) -> (action: Action)
        requires
            old(self).wf(),
        ensures
            final(self).wf(),
            (final(self)@, action@) == old(self)@.apply(kont_view(kont), value@),
    {
        match kont {
            Kont::BinopRight(op, rhs) => {
                self.push(Kont::BinopApply(op, value));
                self.goto(Control::Eval(rhs));
                Action::Continue
            },
            Kont::BinopApply(op, lhs) => match apply_binop(op, &lhs, &value) {
                Applied::Value(result) => {
                    self.goto(Control::Value(result));
                    Action::Continue
                },
                Applied::Numeric(op, a, b) => {
                    self.goto(Control::AwaitNumeric(op, a, b));
                    Action::Numeric(op, a, b)
                },
                Applied::Fail(error) => self.fail(error),
            },
            Kont::Assign(v) => {
                let copy = value.duplicate();
                self.write(&v, copy);
                self.goto(Control::Value(value));
                Action::Continue
            },
            Kont::Callee(args) => {
                if !value.is_callable() {
                    let kind = value.kind();
                    self.fail(RuntimeError::NotCallable(kind))
                } else {
                    let empty: Vec<Value> = Vec::new();
                    assert(value_views(empty@) =~= Seq::empty());
                    let pending = reverse_expressions(args);
                    self.argument(value, empty, pending)
                }
            },
            Kont::Args { callee, done, pending } => {
                let mut done = done;
                let ghost before = value_views(done@);
                done.push(value);
                assert(value_views(done@) =~= before.push(value@));
                self.argument(callee, done, pending)
            },
            Kont::Print => {
                self.goto(Control::Done(None));
                Action::Print(value)
            },
            Kont::Echo => {
                self.goto(Control::Done(Some(value)));
                Action::Continue
            },
            Kont::Bind(v) => {
                self.write(&v, value);
                self.goto(Control::Done(None));
                Action::Continue
            },
            Kont::Branch(then, otherwise) => {
                if value.is_truthy() {
                    self.push(Kont::Quiet);
                    self.goto(Control::Exec(then));
                } else {
                    match otherwise {
                        Some(s) => {
                            self.push(Kont::Quiet);
                            self.goto(Control::Exec(s));
                        },
                        None => self.goto(Control::Done(None)),
                    }
                }
                Action::Continue
            },
            Kont::Loop(cond, body) => {
                if value.is_truthy() {
                    let once = body.duplicate();
                    self.push(Kont::Again(cond, body));
                    self.goto(Control::Exec(once));
                } else {
                    self.goto(Control::Done(None));
                }
                Action::Continue
            },
            Kont::Return => self.unwind(value),
            _ => {
                self.goto(Control::Value(value));
                Action::Continue
            },
        }
    }

    /// Goes on with the next argument of a call, or makes the call when
    /// every argument has its value.
    fn argument(&mut self, callee: Value, done: Vec<Value>, pending: Vec<Expression>) -> (action:
        Action)
        requires
            old(self).wf(),
        ensures
            final(self).wf(),
            (final(self)@, action@) == (if pending.len() == 0 {
                old(self)@.invoke(callee@, value_views(done@))
            } else {
                (
                    old(self)@.push(
                        KontView::Args {
                            callee: callee@,
                            done: value_views(done@),
                            pending: pending_expressions(pending@).drop_first(),
                        },
                    ).goto(ControlView::Eval(pending_expressions(pending@)[0])),
                    ActionView::Continue,
                )
            }),
    {
        let mut pending = pending;
        let ghost before = pending_expressions(pending@);
        match pending.pop() {
            None => self.invoke(callee, done),
            Some(next) => {
                assert(pending_expressions(pending@) =~= before.drop_first());
                self.push(Kont::Args { callee, done, pending });
                self.goto(Control::Eval(next));
                Action::Continue
            },
        }
    }

    /// Tells a continuation that was taken off the stack that a statement is
    /// done.
    fn complete(&mut self, kont: Kont, result: Option<Value>) -> (action: Action)
        requires
            old(self).wf(),
        ensures
            final(self).wf(),
            (final(self)@, action@) == old(self)@.complete(
                kont_view(kont),
                optional_value(result),
            ),
    {
        match kont {
            Kont::Program(pending) => {
                let mut pending = pending;
                let ghost before = pending_statements(pending@);
                match pending.pop() {
                    None => self.goto(Control::Done(result)),
                    Some(next) => {
                        assert(pending_statements(pending@) =~= before.drop_first());
                        self.push(Kont::Program(pending));
                        self.goto(Control::Exec(next));
                    },
                }
                Action::Continue
            },
            Kont::Block(pending) => {
                let mut pending = pending;
                let ghost before = pending_statements(pending@);
                match pending.pop() {
                    None => {
                        self.frames.pop();
                        proof {
                            if old(self).frames.len() > 0 {
                                assert(self@.frames =~= old(self)@.frames.drop_last());
                            }
                        }
                        self.control = Control::Done(None);
                    },
                    Some(next) => {
                        assert(pending_statements(pending@) =~= before.drop_first());
                        self.push(Kont::Block(pending));
                        self.goto(Control::Exec(next));
                    },
                }
                Action::Continue
            },
            Kont::Body { frames, captures, pending } => {
                let mut pending = pending;
                let ghost before = pending_statements(pending@);
                match pending.pop() {
                    None => {
                        self.frames = frames;
                        self.captures = captures;
                        self.control = Control::Value(Value::Nil);
                    },
                    Some(next) => {
                        assert(pending_statements(pending@) =~= before.drop_first());
                        self.push(Kont::Body { frames, captures, pending });
                        self.goto(Control::Exec(next));
                    },
                }
                Action::Continue
            },
            Kont::Again(cond, body) => {
                let again = cond.duplicate();
                self.push(Kont::Loop(cond, body));
                self.goto(Control::Eval(again));
                Action::Continue
            },
            Kont::Quiet => {
                self.goto(Control::Done(None));
                Action::Continue
            },
            _ => {
                self.goto(Control::Done(result));
                Action::Continue
            },
        }
    }

    /// Loads a resolved program: what was pending is dropped, and the first
    /// step will begin the first statement. The globals, the cells and the
    /// declarations of the session stay.
    pub fn run(&mut self, program: Program)
        requires
            old(self).wf(),
            program@.resolved(),
        ensures
            final(self).wf(),
            final(self)@ == old(self)@.load(program@.statements),
            old(self)@.healthy() && program@.runnable() ==> final(self)@.healthy(),
    {
        proof {
            if old(self)@.healthy() && program@.runnable() {
                law_load_keeps_machine_healthy(old(self)@, program@);
            }
        }
        self.halt();
        let kont = Kont::Program(reverse_statements(program.into_statements()));
        self.konts.push(kont);
        assert(self@.konts =~= seq![KontView::Program(program@.statements)]);
        self.control = Control::Done(None);
    }

    /// One step of the machine.
    pub fn step(&mut self) -> (action: Action)
        requires
            old(self).wf(),
        ensures
            final(self).wf(),
            (final(self)@, action@) == old(self)@.step(),
            old(self)@.healthy() ==> final(self)@.healthy(),
    {
        proof {
            if old(self)@.healthy() {
                law_step_keeps_machine_healthy(old(self)@);
            }
        }
        let mut control = Control::Idle;
        core::mem::swap(&mut self.control, &mut control);
        let ghost rest = self@;
        assert(rest == old(self)@.goto(ControlView::Idle));
        match control {
            Control::Idle => Action::Finished(None),
            Control::Eval(e) => self.evaluate(e),
            Control::Exec(s) => self.execute(s),
            Control::Value(value) => match self.konts.pop() {
                None => {
                    self.halt();
                    Action::Finished(Some(value))
                },
                Some(kont) => {
                    assert(self@ =~= rest.pop()) by {
                        assert(self@.konts =~= rest.konts.drop_last());
                    }
                    self.apply(kont, value)
                },
            },
            Control::Done(result) => match self.konts.pop() {
                None => {
                    self.halt();
                    Action::Finished(result)
                },
                Some(kont) => {
                    assert(self@ =~= rest.pop()) by {
                        assert(self@.konts =~= rest.konts.drop_last());
                    }
                    self.complete(kont, result)
                },
            },
            Control::AwaitNumeric(op, a, b) => {
                self.control = Control::AwaitNumeric(op, a, b);
                Action::Numeric(op, a, b)
            },
            Control::AwaitNative(args) => {
                let copy = duplicate_values(&args);
                self.control = Control::AwaitNative(args);
                Action::Native(copy)
            },
        }
    }

    /// Whether the machine waits to be resumed with a value.
    pub fn is_waiting(&self) -> (waiting: bool)
        ensures
            waiting == self@.awaiting(),
    {
        match &self.control {
            Control::AwaitNumeric(_, _, _) => true,
            Control::AwaitNative(_) => true,
            _ => false,
        }
    }

    /// Resumes a machine that waits with the value that it asked for. A
    /// machine that does not wait stays as it is.
    pub fn resume(&mut self, value: Value)
        requires
            old(self).wf(),
        ensures
            final(self).wf(),
            final(self)@ == old(self)@.resume(value@),
            old(self)@.healthy() && old(self)@.accepts(value@) ==> final(self)@.healthy(),
    {
        proof {
            if old(self)@.healthy() && old(self)@.accepts(value@) {
                law_resume_keeps_machine_healthy(old(self)@, value@);
            }
        }
        if self.is_waiting() {
            self.control = Control::Value(value);
        }
    }
}

/// What applying a binary operator to two values comes to.
#[derive(Debug, PartialEq, Clone)]
pub enum Applied {
    /// This value.
    Value(Value),
    /// What the driver computes from the two numbers.
    Numeric(Binop, u64, u64),
    /// This error.
    Fail(RuntimeError),
}

impl View for Applied {
    type V = Outcome;

    open spec fn view(&self) -> Outcome {
        match *self {
            Applied::Value(value) => Outcome::Value(value@),
            Applied::Numeric(op, a, b) => Outcome::Numeric(op, a, b),
            Applied::Fail(error) => Outcome::Fail(error@),
        }
    }
}

/// Applies a binary operator to two values, as far as this library can: two
/// numbers are left to the driver. Arithmetic on anything else is a type
/// mismatch. `==` and `!=` compare any two values and never fail; values of
/// different kinds are different. The relational operators want two values of
/// one kind and yield a boolean.
pub fn apply_binop(op: Binop, lhs: &Value, rhs: &Value) -> (applied: Applied)
    ensures
        applied@ == binary(op, lhs@, rhs@),
{
    match (lhs, rhs) {
        (Value::Number(a), Value::Number(b)) => {
            return Applied::Numeric(op, *a, *b);
        },
        _ => {},
    }
    match op {
        Binop::Equal => Applied::Value(Value::Bool(lhs.same(rhs))),
        Binop::NotEqual => Applied::Value(Value::Bool(!lhs.same(rhs))),
        Binop::Less => relate(op, lhs, rhs),
        Binop::LessEqual => relate(op, lhs, rhs),
        Binop::Greater => relate(op, lhs, rhs),
        Binop::GreaterEqual => relate(op, lhs, rhs),
        _ => Applied::Fail(RuntimeError::TypeMismatch(op, lhs.kind(), rhs.kind())),
    }
}

/// Applies a relational operator to two values that are not both numbers.
fn relate(op: Binop, lhs: &Value, rhs: &Value) -> (applied: Applied)
    requires
        op.is_relational(),
        !(lhs@ is Number && rhs@ is Number),
    ensures
        applied@ == binary(op, lhs@, rhs@),
{
    if lhs.kind() != rhs.kind() {
        return Applied::Fail(RuntimeError::TypeMismatch(op, lhs.kind(), rhs.kind()));
    }
    let holds = match op {
        Binop::Less => lhs.before(rhs),
        Binop::Greater => rhs.before(lhs),
        Binop::LessEqual => lhs.before(rhs) || lhs.same(rhs),
        _ => rhs.before(lhs) || lhs.same(rhs),
    };
    Applied::Value(Value::Bool(holds))
}

/// A copy of a list of values, with the same views.
pub fn duplicate_values(list: &Vec<Value>) -> (copy: Vec<Value>)
    ensures
        value_views(copy@) == value_views(list@),
{
    let mut copy: Vec<Value> = Vec::new();
    let mut i: usize = 0;
    while i < list.len()
        invariant
            i <= list.len(),
            copy.len() == i,
            forall|j: int| 0 <= j < i ==> copy[j]@ == list[j]@,
        decreases list.len() - i,
    {
        copy.push(list[i].duplicate());
        i += 1;
    }
    assert(value_views(copy@) =~= value_views(list@));
    copy
}

} // verus!
