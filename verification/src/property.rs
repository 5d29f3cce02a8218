//! The values of properties that a binary format stores.
use vstd::prelude::*;

verus! {

/// The value of a property. Floating-point numbers are bit patterns of their
/// stored width.
#[derive(Debug, PartialEq)]
pub enum PropValue {
    Null,
    Bool(bool),
    Int(i64),
    Single(u32),
    Double(u64),
    Text(String),
}

/// The mathematical form of a property's value.
pub enum Prop {
    Null,
    Bool(bool),
    Int(int),
    Single(u32),
    Double(u64),
    Text(Seq<char>),
}

impl View for PropValue {
    type V = Prop;

    open spec fn view(&self) -> Prop {
        match self {
            PropValue::Null => Prop::Null,
            PropValue::Bool(b) => Prop::Bool(*b),
            PropValue::Int(n) => Prop::Int(*n as int),
            PropValue::Single(s) => Prop::Single(*s),
            PropValue::Double(d) => Prop::Double(*d),
            PropValue::Text(s) => Prop::Text(s@),
        }
    }
}

} // verus!
