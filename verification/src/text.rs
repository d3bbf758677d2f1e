//! What the library takes on trust about text.

use vstd::prelude::*;

verus! {

/// `str`'s `PartialEq::eq`, of the standard library: two string slices are
/// equal exactly if they hold the same characters in the same order.
pub assume_specification[ <str as PartialEq>::eq ](a: &str, b: &str) -> (same: bool)
    ensures
        same == (a@ == b@),
;

} // verus!
