use vstd::prelude::*;
use crate::fish::FishType;

verus! {

/// The record that a creature of a given type and color was scanned.
#[derive(Debug, PartialEq, Eq, Hash, Clone, Copy, Structural)]
pub struct Scan {
    pub fish_type: FishType,
    pub color: i32,
}

impl Scan {
    pub fn new_from_type_color(fish_type: FishType, color: i32) -> (r: Scan)
        ensures
            r == (Scan { fish_type, color }),
    {
        Scan { fish_type, color }
    }
}

} // verus!
