//! Column types and base counters.
use vstd::prelude::*;

verus! {

/// The type inferred for a column from its cells.
#[derive(Clone, Copy, Debug, PartialEq, Eq, Structural)]
pub enum DataType {
    Integer,
    Numeric,
    String,
    Boolean,
    Date,
    Null,
}

/// Counters every column carries.
#[derive(Clone, Copy, Debug)]
pub struct BaseStats {
    pub count: u64,
    pub missing: u64,
    pub distinct_estimate: u64,
    pub inferred_type: DataType,
}

} // verus!
