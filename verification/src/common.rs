use vstd::prelude::*;

verus! {

/// A typed attribute value attached to a feature.
///
/// Floating-point payloads are carried as their IEEE-754 bit patterns
/// (`Float` holds the 32 bits of a single, `Double` the 64 bits of a double),
/// so equality on every variant is payload-exact: two floating-point values
/// are equal exactly when their bit patterns are, which makes NaN compare
/// equal to the identically encoded NaN and to nothing else.
///
/// `Int`, `UInt` and `SInt` are distinct wire encodings of integers and never
/// compare equal across variants.
#[derive(Debug, PartialEq, Eq)]
pub enum Value {
    String(String),
    Float(u32),
    Double(u64),
    Int(i64),
    UInt(u64),
    SInt(i64),
    Bool(bool),
}

/// The mathematical shape of a [`Value`]: the string payload is abstracted to
/// its character sequence, all other payloads are plain scalars.
pub enum ValueView {
    String(Seq<char>),
    Float(u32),
    Double(u64),
    Int(i64),
    UInt(u64),
    SInt(i64),
    Bool(bool),
}

impl View for Value {
    type V = ValueView;

    open spec fn view(&self) -> ValueView {
        match self {
            Value::String(s) => ValueView::String(s@),
            Value::Float(v) => ValueView::Float(*v),
            Value::Double(v) => ValueView::Double(*v),
            Value::Int(v) => ValueView::Int(*v),
            Value::UInt(v) => ValueView::UInt(*v),
            Value::SInt(v) => ValueView::SInt(*v),
            Value::Bool(v) => ValueView::Bool(*v),
        }
    }
}

impl Value {
    /// Per-variant, payload-exact equality, used by the attribute interner to
    /// deduplicate the value table.
    pub fn eq_value(&self, other: &Value) -> (r: bool)
        ensures
            r == (self@ == other@),
    {
        match self {
            Value::String(a) => match other {
                Value::String(b) => a.eq(b),
                _ => false,
            },
            Value::Float(a) => match other {
                Value::Float(b) => a == b,
                _ => false,
            },
            Value::Double(a) => match other {
                Value::Double(b) => a == b,
                _ => false,
            },
            Value::Int(a) => match other {
                Value::Int(b) => a == b,
                _ => false,
            },
            Value::UInt(a) => match other {
                Value::UInt(b) => a == b,
                _ => false,
            },
            Value::SInt(a) => match other {
                Value::SInt(b) => a == b,
                _ => false,
            },
            Value::Bool(a) => match other {
                Value::Bool(b) => a == b,
                _ => false,
            },
        }
    }
}

impl Clone for Value {
    fn clone(&self) -> (r: Self)
        ensures
            r@ == self@,
    {
        match self {
            Value::String(s) => Value::String(s.clone()),
            Value::Float(v) => Value::Float(*v),
            Value::Double(v) => Value::Double(*v),
            Value::Int(v) => Value::Int(*v),
            Value::UInt(v) => Value::UInt(*v),
            Value::SInt(v) => Value::SInt(*v),
            Value::Bool(v) => Value::Bool(*v),
        }
    }
}

} // verus!
