//! `natural_cmp`: the natural order of file names as an `Ordering`.
use crate::natural::{natural_sign, natural_sign_of_bytes};
use std::cmp::Ordering;
use vstd::prelude::*;
use vstd::string::StringSliceAdditionalSpecFns;

verus! {

/// The `Ordering` that a sign of `natural.rs` stands for.
pub open spec fn ordering_of_sign(s: int) -> Ordering {
    if s < 0 {
        Ordering::Less
    } else if s == 0 {
        Ordering::Equal
    } else {
        Ordering::Greater
    }
}

/// Natural ("human") order of two names: digit runs by numeric value (then
/// by their count of leading zeros, fewer first), other bytes
/// ASCII-case-insensitively; when one name is used up, the shorter is less.
pub fn natural_cmp(a: &str, b: &str) -> (r: Ordering)
    ensures
        r == ordering_of_sign(natural_sign(a.spec_bytes(), b.spec_bytes())),
{
    let s = natural_sign_of_bytes(a.as_bytes(), b.as_bytes());
    if s < 0 {
        Ordering::Less
    } else if s == 0 {
        Ordering::Equal
    } else {
        Ordering::Greater
    }
}

} // verus!
