use crate::types::ColumnType;
use vstd::prelude::*;

verus! {

/// A schema descriptor: a name, a type tag and a key flag.
///
/// Columns are immutable after creation.  Equality is structural: name, type
/// and key flag must all agree.
#[derive(Debug)]
pub struct Column {
    pub is_key: bool,
    pub name: String,
    pub column_type: ColumnType,
}

/// The mathematical model of a [`Column`].
#[verifier::ext_equal]
pub struct SpecColumn {
    pub is_key: bool,
    pub name: Seq<char>,
    pub column_type: ColumnType,
}

impl View for Column {
    type V = SpecColumn;

    open spec fn view(&self) -> SpecColumn {
        SpecColumn { is_key: self.is_key, name: self.name@, column_type: self.column_type }
    }
}

/// The views of a sequence of columns.
pub open spec fn spec_view_columns(s: Seq<Column>) -> Seq<SpecColumn> {
    s.map_values(|c: Column| c@)
}

impl Column {
    /// Creates a non-key column with the given name and type.
    pub fn new(name: &str, column_type: ColumnType) -> (c: Column)
        ensures
            c@ == (SpecColumn { is_key: false, name: name@, column_type }),
    {
        Column { is_key: false, name: name.to_owned(), column_type }
    }

    /// Creates a key column with the given name and type.
    pub fn key(name: &str, column_type: ColumnType) -> (c: Column)
        ensures
            c@ == (SpecColumn { is_key: true, name: name@, column_type }),
    {
        Column { is_key: true, name: name.to_owned(), column_type }
    }

    /// The type tag of this column.
    pub fn get_type(&self) -> (t: ColumnType)
        ensures
            t == self@.column_type,
    {
        self.column_type
    }
}

impl Clone for Column {
    /// Cloning keeps name, type and key flag.
    fn clone(&self) -> (r: Self)
        ensures
            r == *self,
    {
        Column { is_key: self.is_key, name: self.name.clone(), column_type: self.column_type }
    }
}

impl PartialEq for Column {
    fn eq(&self, other: &Self) -> bool {
        self.is_key == other.is_key && self.name == other.name
            && self.column_type == other.column_type
    }
}

impl vstd::std_specs::cmp::PartialEqSpecImpl for Column {
    open spec fn obeys_eq_spec() -> bool {
        true
    }

    open spec fn eq_spec(&self, other: &Self) -> bool {
        self@ == other@
    }
}

} // verus!
