//! The order of `SignerInfo` records by value.

use crate::signer_info::SignerInfo;
use core::cmp::Ordering;
use vstd::prelude::*;

verus! {

impl SignerInfo {
    /// Compares two records by value. No order of records by their fields is defined:
    /// any two compare as equal, and the place of a record in an encoded `SET OF` is
    /// decided by its encoding alone. The comparison never fails.
    pub fn value_cmp(&self, other: &SignerInfo) -> (r: Result<Ordering, der::Error>)
        ensures
            r matches Ok(o) && o == Ordering::Equal,
    {
        Ok(Ordering::Equal)
    }
}

} // verus!
