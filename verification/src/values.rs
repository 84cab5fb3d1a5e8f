//! The elements flowing through stream processors, together with the little
//! languages of pointwise transforms and predicates that combinators apply to
//! them.
//!
//! Stream transformation logic is kept as explicit, inspectable data rather
//! than as opaque closures, so the transforms themselves are first-order terms
//! with a total interpretation given by a specification function and an
//! executable twin proved against it.

use vstd::prelude::*;

verus! {

/// An element of a stream: the unit placeholder, a truth value or a machine
/// integer.
#[derive(Clone, Copy, PartialEq, Eq, Structural, Debug)]
pub enum Value {
    Unit,
    Bool(bool),
    Int(i64),
}

/// A pointwise transform of stream elements, written as a term.
///
/// Integer arithmetic wraps around on overflow. A transform applied to a
/// value of the wrong shape (such as [`Fun::Plus`] to a truth value) leaves
/// the value unchanged.
pub enum Fun {
    /// The identity transform.
    Id,
    /// Add a constant to an integer, wrapping on overflow.
    Plus(i64),
    /// Negate an integer, wrapping on overflow.
    Negate,
    /// Invert a truth value.
    Invert,
    /// Compare an integer against a constant, yielding a truth value.
    EqualTo(i64),
    /// Apply the first transform, then the second.
    Then(Box<Fun>, Box<Fun>),
}

/// A predicate on stream elements, written as a term.
///
/// A numeric comparison applied to a value that is not an integer does not
/// hold.
pub enum Pred {
    /// Holds of every element.
    Always,
    /// Holds of integers strictly greater than the constant.
    GreaterThan(i64),
    /// Holds of integers strictly less than the constant.
    LessThan(i64),
    /// Holds of integers equal to the constant.
    EqualTo(i64),
}

/// What a transform term means: a total function on [`Value`].
pub open spec fn fun_value(f: Fun, v: Value) -> Value
    decreases f,
{
    match f {
        Fun::Id => v,
        Fun::Plus(k) => match v {
            Value::Int(n) => Value::Int(n.wrapping_add(k)),
            _ => v,
        },
        Fun::Negate => match v {
            Value::Int(n) => Value::Int((0i64).wrapping_sub(n)),
            _ => v,
        },
        Fun::Invert => match v {
            Value::Bool(b) => Value::Bool(!b),
            _ => v,
        },
        Fun::EqualTo(k) => match v {
            Value::Int(n) => Value::Bool(n == k),
            _ => v,
        },
        Fun::Then(f1, f2) => fun_value(*f2, fun_value(*f1, v)),
    }
}

/// What a predicate term means: a total predicate on [`Value`].
pub open spec fn pred_value(p: Pred, v: Value) -> bool {
    match p {
        Pred::Always => true,
        Pred::GreaterThan(k) => match v {
            Value::Int(n) => n > k,
            _ => false,
        },
        Pred::LessThan(k) => match v {
            Value::Int(n) => n < k,
            _ => false,
        },
        Pred::EqualTo(k) => match v {
            Value::Int(n) => n == k,
            _ => false,
        },
    }
}

impl Fun {
    /// Apply the transform to an element.
    pub fn apply(&self, v: Value) -> (r: Value)
        ensures
            r == fun_value(*self, v),
        decreases *self,
    {
        match self {
            Fun::Id => v,
            Fun::Plus(k) => match v {
                Value::Int(n) => Value::Int(n.wrapping_add(*k)),
                _ => v,
            },
            Fun::Negate => match v {
                Value::Int(n) => Value::Int((0i64).wrapping_sub(n)),
                _ => v,
            },
            Fun::Invert => match v {
                Value::Bool(b) => Value::Bool(!b),
                _ => v,
            },
            Fun::EqualTo(k) => match v {
                Value::Int(n) => Value::Bool(n == *k),
                _ => v,
            },
            Fun::Then(f1, f2) => f2.apply(f1.apply(v)),
        }
    }
}

impl Pred {
    /// Decide whether the predicate holds of an element.
    pub fn holds(&self, v: Value) -> (r: bool)
        ensures
            r == pred_value(*self, v),
    {
        match self {
            Pred::Always => true,
            Pred::GreaterThan(k) => match v {
                Value::Int(n) => n > *k,
                _ => false,
            },
            Pred::LessThan(k) => match v {
                Value::Int(n) => n < *k,
                _ => false,
            },
            Pred::EqualTo(k) => match v {
                Value::Int(n) => n == *k,
                _ => false,
            },
        }
    }
}

} // verus!
