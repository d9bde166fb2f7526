use vstd::prelude::*;
use crate::vec::Vec3;

verus! {

/// A colour: its red, green and blue share, each in principle unbounded.
pub type Color = Vec3;

} // verus!
