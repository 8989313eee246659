use vstd::prelude::*;

verus! {

/// The two-member type tag shared by values and columns.
///
/// Only equality of tags matters; there is no order on them.
#[derive(Clone, Copy, Debug, PartialEq, Eq, Structural)]
pub enum ColumnType {
    Text,
    Integer,
}

} // verus!
