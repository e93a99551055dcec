use vstd::prelude::*;

verus! {

/// A value stored in a signal, a memo, or a context entry.
///
/// The reactive cells are heterogeneously typed; the closed set of value
/// shapes is carried behind one tagged union, and a typed access compares
/// the expected tag against the stored one. A tag mismatch is a fault, never
/// a silent wrong answer.
#[derive(Debug)]
pub enum Value {
    Int(i64),
    Bool(bool),
    Str(String),
}

/// The type tag of a `Value`: the key of typed access and of the type-keyed
/// context maps.
#[derive(Clone, Copy, PartialEq, Eq, Structural, Debug)]
pub enum ValueKind {
    Int,
    Bool,
    Str,
}

/// The tag of a value.
pub open spec fn kind_of(v: Value) -> ValueKind {
    match v {
        Value::Int(_) => ValueKind::Int,
        Value::Bool(_) => ValueKind::Bool,
        Value::Str(_) => ValueKind::Str,
    }
}

/// Value equality: structural, with strings compared by their characters.
/// This is the equality that gates a memo's downstream notification.
pub open spec fn veq(a: Value, b: Value) -> bool {
    match (a, b) {
        (Value::Int(x), Value::Int(y)) => x == y,
        (Value::Bool(x), Value::Bool(y)) => x == y,
        (Value::Str(x), Value::Str(y)) => x@ == y@,
        _ => false,
    }
}

pub fn value_kind(v: &Value) -> (k: ValueKind)
    ensures
        k == kind_of(*v),
{
    match v {
        Value::Int(_) => ValueKind::Int,
        Value::Bool(_) => ValueKind::Bool,
        Value::Str(_) => ValueKind::Str,
    }
}

pub fn value_eq(a: &Value, b: &Value) -> (r: bool)
    ensures
        r == veq(*a, *b),
{
    match (a, b) {
        (Value::Int(x), Value::Int(y)) => *x == *y,
        (Value::Bool(x), Value::Bool(y)) => *x == *y,
        (Value::Str(x), Value::Str(y)) => *x == *y,
        _ => false,
    }
}

impl Clone for Value {
    fn clone(&self) -> (res: Value)
        ensures
            res == *self,
    {
        match self {
            Value::Int(x) => Value::Int(*x),
            Value::Bool(x) => Value::Bool(*x),
            Value::Str(s) => Value::Str(s.clone()),
        }
    }
}

} // verus!
