//! Runtime values: what an expression evaluates to and what a cell holds.

use crate::ast::Binop;
use vstd::prelude::*;

verus! {

/// The kind of a runtime value.
#[derive(Debug, PartialEq, Eq, Clone, Copy, Structural)]
pub enum Kind {
    Nil,
    Bool,
    Number,
    String,
    NativeFunction,
    Function,
}

/// A runtime value. A number is the bit pattern of a double-precision
/// number, carried and never computed with here. A function refers to its
/// declaration by the index under which the interpreter keeps it, and to the
/// cells that it captured, one per upvalue, by their indices among the
/// interpreter's cells: a cell is shared by every value that lists it.
#[derive(Debug, PartialEq, Clone)]
pub enum Value {
    Nil,
    Bool(bool),
    Number(u64),
    String(String),
    NativeFunction,
    Function { name: String, code: usize, captures: Vec<usize> },
}

/// The mathematical value of a [`Value`].
pub ghost enum ValueView {
    Nil,
    Bool(bool),
    Number(u64),
    String(Seq<char>),
    NativeFunction,
    Function { name: Seq<char>, code: nat, captures: Seq<nat> },
}

/// A list of indices as natural numbers.
pub open spec fn index_views(list: Seq<usize>) -> Seq<nat> {
    Seq::new(list.len(), |i: int| list[i] as nat)
}

/// The views of a list of values, in order.
pub open spec fn value_views(list: Seq<Value>) -> Seq<ValueView> {
    Seq::new(list.len(), |i: int| list[i]@)
}

impl View for Value {
    type V = ValueView;

    open spec fn view(&self) -> ValueView {
        match *self {
            Value::Nil => ValueView::Nil,
            Value::Bool(b) => ValueView::Bool(b),
            Value::Number(bits) => ValueView::Number(bits),
            Value::String(s) => ValueView::String(s@),
            Value::NativeFunction => ValueView::NativeFunction,
            Value::Function { name, code, captures } => ValueView::Function {
                name: name@,
                code: code as nat,
                captures: index_views(captures@),
            },
        }
    }
}

impl ValueView {
    /// The kind of the value.
    pub open spec fn kind(self) -> Kind {
        match self {
            ValueView::Nil => Kind::Nil,
            ValueView::Bool(_) => Kind::Bool,
            ValueView::Number(_) => Kind::Number,
            ValueView::String(_) => Kind::String,
            ValueView::NativeFunction => Kind::NativeFunction,
            ValueView::Function { .. } => Kind::Function,
        }
    }

    /// Truthiness: `false` and `nil` are falsy, and nothing else is.
    pub open spec fn truthy(self) -> bool {
        !(self is Nil || self == ValueView::Bool(false))
    }

    /// Whether the value can be called.
    pub open spec fn callable(self) -> bool {
        self is Function || self is NativeFunction
    }

    /// The strict order within one kind, for values that are not both
    /// numbers: `false` before `true`, strings by their characters, and no
    /// order among the rest.
    pub open spec fn less(self, other: ValueView) -> bool {
        match (self, other) {
            (ValueView::Bool(a), ValueView::Bool(b)) => !a && b,
            (ValueView::String(a), ValueView::String(b)) => text_less(a, b),
            _ => false,
        }
    }

    /// What a relational operator yields on two values of one kind that are
    /// not both numbers.
    pub open spec fn relate(self, op: Binop, other: ValueView) -> bool {
        match op {
            Binop::Less => self.less(other),
            Binop::Greater => other.less(self),
            Binop::LessEqual => self.less(other) || self == other,
            _ => other.less(self) || self == other,
        }
    }
}

/// The lexicographic order of two texts, character by character.
pub open spec fn text_less(a: Seq<char>, b: Seq<char>) -> bool
    decreases a.len(),
{
    if b.len() == 0 {
        false
    } else if a.len() == 0 {
        true
    } else if a[0] != b[0] {
        (a[0] as u32) < (b[0] as u32)
    } else {
        text_less(a.drop_first(), b.drop_first())
    }
}

/// Whether two lists of indices are equal.
pub fn same_indices(a: &Vec<usize>, b: &Vec<usize>) -> (same: bool)
    ensures
        same == (index_views(a@) == index_views(b@)),
{
    if a.len() != b.len() {
        assert(index_views(a@).len() != index_views(b@).len());
        return false;
    }
    let mut i: usize = 0;
    while i < a.len()
        invariant
            i <= a.len(),
            a.len() == b.len(),
            forall|j: int| 0 <= j < i ==> a[j] == b[j],
        decreases a.len() - i,
    {
        if a[i] != b[i] {
            assert(index_views(a@)[i as int] != index_views(b@)[i as int]);
            return false;
        }
        i += 1;
    }
    assert(index_views(a@) =~= index_views(b@));
    true
}

/// A copy of a list of indices.
pub fn duplicate_indices(list: &Vec<usize>) -> (copy: Vec<usize>)
    ensures
        copy@ == list@,
{
    let mut copy: Vec<usize> = Vec::new();
    let mut i: usize = 0;
    while i < list.len()
        invariant
            i <= list.len(),
            copy@ == list@.take(i as int),
        decreases list.len() - i,
    {
        copy.push(list[i]);
        assert(list@.take(i + 1) =~= list@.take(i as int).push(list[i as int]));
        i += 1;
    }
    assert(list@.take(list.len() as int) =~= list@);
    copy
}

/// Whether `a` comes before `b` in the lexicographic order of their
/// characters.
pub fn text_before(a: &String, b: &String) -> (before: bool)
    ensures
        before == text_less(a@, b@),
{
    let a_len = a.as_str().unicode_len();
    let b_len = b.as_str().unicode_len();
    let mut i: usize = 0;
    assert(a@.skip(0) =~= a@ && b@.skip(0) =~= b@);
    loop
        invariant
            i <= a_len,
            i <= b_len,
            a_len == a@.len(),
            b_len == b@.len(),
            text_less(a@, b@) == text_less(a@.skip(i as int), b@.skip(i as int)),
        decreases a_len - i,
    {
        let ghost rest_a = a@.skip(i as int);
        let ghost rest_b = b@.skip(i as int);
        if i == b_len {
            return false;
        }
        if i == a_len {
            return true;
        }
        let x = a.as_str().get_char(i);
        let y = b.as_str().get_char(i);
        assert(rest_a[0] == x && rest_b[0] == y);
        if x != y {
            return (x as u32) < (y as u32);
        }
        assert(rest_a.drop_first() =~= a@.skip(i + 1));
        assert(rest_b.drop_first() =~= b@.skip(i + 1));
        i += 1;
    }
}

impl Value {
    /// A copy with the same mathematical value.
    pub fn duplicate(&self) -> (copy: Value)
        ensures
            copy@ == self@,
    {
        match self {
            Value::Nil => Value::Nil,
            Value::Bool(b) => Value::Bool(*b),
            Value::Number(bits) => Value::Number(*bits),
            Value::String(s) => Value::String(s.clone()),
            Value::NativeFunction => Value::NativeFunction,
            Value::Function { name, code, captures } => Value::Function {
                name: name.clone(),
                code: *code,
                captures: duplicate_indices(captures),
            },
        }
    }

    /// The kind of the value.
    pub fn kind(&self) -> (kind: Kind)
        ensures
            kind == self@.kind(),
    {
        match self {
            Value::Nil => Kind::Nil,
            Value::Bool(_) => Kind::Bool,
            Value::Number(_) => Kind::Number,
            Value::String(_) => Kind::String,
            Value::NativeFunction => Kind::NativeFunction,
            Value::Function { .. } => Kind::Function,
        }
    }

    /// Truthiness: only `false` and `nil` are falsy; every other value, the
    /// number zero too, is truthy.
    pub fn is_truthy(&self) -> (truthy: bool)
        ensures
            truthy == self@.truthy(),
            truthy == !(self@ is Nil || self@ == ValueView::Bool(false)),
    {
        match self {
            Value::Nil => false,
            Value::Bool(b) => *b,
            _ => true,
        }
    }

    /// Whether the value can be called.
    pub fn is_callable(&self) -> (callable: bool)
        ensures
            callable == self@.callable(),
    {
        match self {
            Value::Function { .. } => true,
            Value::NativeFunction => true,
            _ => false,
        }
    }

    /// Whether two values are the same value. Two numbers are the same here
    /// when their bit patterns are; the language's `==` on two numbers is
    /// not decided by this function.
    pub fn same(&self, other: &Value) -> (same: bool)
        ensures
            same == (self@ == other@),
    {
        match (self, other) {
            (Value::Nil, Value::Nil) => true,
            (Value::Bool(a), Value::Bool(b)) => *a == *b,
            (Value::Number(a), Value::Number(b)) => *a == *b,
            (Value::String(a), Value::String(b)) => *a == *b,
            (Value::NativeFunction, Value::NativeFunction) => true,
            (
                Value::Function { name: n1, code: c1, captures: k1 },
                Value::Function { name: n2, code: c2, captures: k2 },
            ) => *n1 == *n2 && *c1 == *c2 && same_indices(k1, k2),
            _ => false,
        }
    }

    /// The strict order within one kind, for values that are not both
    /// numbers.
    pub fn before(&self, other: &Value) -> (before: bool)
        ensures
            before == self@.less(other@),
    {
        match (self, other) {
            (Value::Bool(a), Value::Bool(b)) => !*a && *b,
            (Value::String(a), Value::String(b)) => text_before(a, b),
            _ => false,
        }
    }
}

} // verus!
