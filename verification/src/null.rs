//! The discard output: it consumes records and does nothing with them.

use crate::Record;
use vstd::prelude::*;

verus! {

/// An output that drops everything it is fed.
pub struct Null;

impl Null {
    /// Consumes a record and changes nothing anywhere.
    pub fn feed(&mut self, _payload: &Record)
        ensures
            *final(self) == *old(self),
    {
    }
}

} // verus!
