use crate::types::ColumnType;
use vstd::prelude::*;

verus! {

/// A single cell of a row: a text or a 32-bit signed integer.
///
/// Values are immutable once constructed and carry no column association;
/// [`Value::get_type`] maps a value to its [`ColumnType`].
#[derive(Debug)]
pub enum Value {
    Text(String),
    Integer(i32),
}

/// The mathematical model of a [`Value`]: text as a sequence of characters.
pub enum SpecValue {
    Text(Seq<char>),
    Integer(i32),
}

impl View for Value {
    type V = SpecValue;

    open spec fn view(&self) -> SpecValue {
        match self {
            Value::Text(s) => SpecValue::Text(s@),
            Value::Integer(i) => SpecValue::Integer(*i),
        }
    }
}

/// The type tag of a value, at the spec level.
pub open spec fn spec_value_type(v: SpecValue) -> ColumnType {
    match v {
        SpecValue::Text(_) => ColumnType::Text,
        SpecValue::Integer(_) => ColumnType::Integer,
    }
}

/// The views of a sequence of values.
pub open spec fn spec_view_values(s: Seq<Value>) -> Seq<SpecValue> {
    s.map_values(|v: Value| v@)
}

impl Value {
    /// The type tag matching this value's variant.
    pub fn get_type(&self) -> (t: ColumnType)
        ensures
            t == spec_value_type(self@),
    {
        match self {
            Value::Text(_) => ColumnType::Text,
            Value::Integer(_) => ColumnType::Integer,
        }
    }

    /// The integer held by this value, or `None` for a text.
    pub fn into_integer(self) -> (r: Option<i32>)
        ensures
            r == (match self@ {
                SpecValue::Integer(i) => Some(i),
                SpecValue::Text(_) => None::<i32>,
            }),
    {
        match self {
            Value::Integer(i) => Some(i),
            Value::Text(_) => None,
        }
    }

    /// The text held by this value, or `None` for an integer.
    pub fn into_text(self) -> (r: Option<String>)
        ensures
            (match (self@, r) {
                (SpecValue::Text(s), Some(t)) => t@ == s,
                (SpecValue::Integer(_), None) => true,
                _ => false,
            }),
    {
        match self {
            Value::Text(s) => Some(s),
            Value::Integer(_) => None,
        }
    }
}

impl Clone for Value {
    /// Cloning keeps the value.
    fn clone(&self) -> (r: Self)
        ensures
            r == *self,
    {
        match self {
            Value::Text(s) => Value::Text(s.clone()),
            Value::Integer(i) => Value::Integer(*i),
        }
    }
}

impl PartialEq for Value {
    fn eq(&self, other: &Self) -> bool {
        match (self, other) {
            (Value::Text(a), Value::Text(b)) => *a == *b,
            (Value::Integer(a), Value::Integer(b)) => *a == *b,
            _ => false,
        }
    }
}

impl vstd::std_specs::cmp::PartialEqSpecImpl for Value {
    open spec fn obeys_eq_spec() -> bool {
        true
    }

    open spec fn eq_spec(&self, other: &Self) -> bool {
        self@ == other@
    }
}

impl From<i32> for Value {
    fn from(v: i32) -> (r: Value) {
        Value::Integer(v)
    }
}

impl vstd::std_specs::convert::FromSpecImpl<i32> for Value {
    open spec fn obeys_from_spec() -> bool {
        true
    }

    open spec fn from_spec(v: i32) -> Value {
        Value::Integer(v)
    }
}

impl From<String> for Value {
    fn from(v: String) -> (r: Value) {
        Value::Text(v)
    }
}

impl vstd::std_specs::convert::FromSpecImpl<String> for Value {
    open spec fn obeys_from_spec() -> bool {
        true
    }

    open spec fn from_spec(v: String) -> Value {
        Value::Text(v)
    }
}

} // verus!
