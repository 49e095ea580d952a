//! The schema model: an ordered sequence of named, typed, nullable columns,
//! fixed when a plan node is constructed.  Every batch a node's stream
//! yields conforms to the node's schema; the columnar batches themselves
//! live with the host's data layer, so conformance is enforced there.

use crate::cast::LogicalType;
use vstd::prelude::*;

verus! {

/// One column of a schema.
pub struct Field {
    pub name: String,
    pub data_type: LogicalType,
    pub nullable: bool,
}

/// An ordered sequence of fields; immutable per node instance.
pub struct Schema {
    pub fields: Vec<Field>,
}

impl Schema {
    pub fn new(fields: Vec<Field>) -> (s: Self)
        ensures
            s.fields == fields,
    {
        Schema { fields }
    }

    pub fn num_fields(&self) -> (r: usize)
        ensures
            r == self.fields@.len(),
    {
        self.fields.len()
    }
}

} // verus!
