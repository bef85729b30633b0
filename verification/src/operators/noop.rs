//! The separator operator: a transform that changes nothing.

use vstd::prelude::*;
use crate::error::Error;
use crate::value::Value;

verus! {

/// Passes its input through unchanged.
pub struct NoOp;

impl NoOp {
    pub fn apply(&self, value: Value) -> (r: Result<Value, Error>)
        ensures
            r matches Ok(v) && v == value,
    {
        Ok(value)
    }

    pub fn requires_full_input(&self) -> (r: bool)
        ensures
            r == false,
    {
        false
    }
}

} // verus!
