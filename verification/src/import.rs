//! Values imported from a prior year's return.

use vstd::prelude::*;

use crate::form::FieldValue;

verus! {

/// A value carried over from a prior return.
#[derive(Debug)]
pub struct ImportedValue {
    pub key: String,
    pub value: FieldValue,
}

/// The values that a prior return gives; no prior-return format is read
/// yet, so there are none.
pub fn import_prior_return(_path: &str) -> (r: Vec<ImportedValue>)
    ensures
        r@.len() == 0,
{
    Vec::new()
}

} // verus!
