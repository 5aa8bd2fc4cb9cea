//! Decoded signal values.

use crate::double::Double;
use crate::text::same_text;
use vstd::prelude::*;

verus! {

/// A decoded, physical signal value.
#[derive(Debug, PartialEq)]
pub enum SignalValue {
    Bool(bool),
    Num(Double),
    Enum(String),
}

/// The content of a [`SignalValue`].
pub enum ValueModel {
    Bool(bool),
    Num(Double),
    Enum(Seq<char>),
}

impl View for SignalValue {
    type V = ValueModel;

    open spec fn view(&self) -> ValueModel {
        match self {
            SignalValue::Bool(b) => ValueModel::Bool(*b),
            SignalValue::Num(v) => ValueModel::Num(*v),
            SignalValue::Enum(label) => ValueModel::Enum(label@),
        }
    }
}

impl ValueModel {
    /// Equality of values; numbers compare by IEEE rules.
    pub open spec fn same(self, other: ValueModel) -> bool {
        match (self, other) {
            (ValueModel::Bool(a), ValueModel::Bool(b)) => a == b,
            (ValueModel::Num(a), ValueModel::Num(b)) => a.same(b),
            (ValueModel::Enum(a), ValueModel::Enum(b)) => a == b,
            _ => false,
        }
    }
}

impl Clone for SignalValue {
    fn clone(&self) -> (r: SignalValue)
        ensures
            r == *self,
    {
        match self {
            SignalValue::Bool(b) => SignalValue::Bool(*b),
            SignalValue::Num(v) => SignalValue::Num(*v),
            SignalValue::Enum(label) => SignalValue::Enum(label.clone()),
        }
    }
}

impl SignalValue {
    /// The number, if this is one.
    pub fn as_num(&self) -> (r: Option<Double>)
        ensures
            r == match self@ {
                ValueModel::Num(v) => Some(v),
                _ => None,
            },
    {
        match self {
            SignalValue::Num(v) => Some(*v),
            _ => None,
        }
    }

    /// Equality of values; numbers compare by IEEE rules.
    pub fn equals(&self, other: &SignalValue) -> (r: bool)
        ensures
            r == self@.same(other@),
            r <==> match (*self, *other) {
                (SignalValue::Bool(a), SignalValue::Bool(b)) => a == b,
                (SignalValue::Num(a), SignalValue::Num(b)) => a.same(b),
                (SignalValue::Enum(a), SignalValue::Enum(b)) => a@ == b@,
                _ => false,
            },
    {
        match (self, other) {
            (SignalValue::Bool(a), SignalValue::Bool(b)) => *a == *b,
            (SignalValue::Num(a), SignalValue::Num(b)) => a.equals(*b),
            (SignalValue::Enum(a), SignalValue::Enum(b)) => same_text(a.as_str(), b.as_str()),
            _ => false,
        }
    }
}

} // verus!
