use vstd::prelude::*;

verus! {

#[derive(Debug, Clone, Copy, Hash, PartialEq, Eq, Structural)]
pub enum FishType {
    JELLY,
    FISH,
    CRAB,
}

impl FishType {
    /// All creature types, in declaration order.
    pub fn variants() -> (r: &'static [FishType])
        ensures
            r@ == seq![FishType::JELLY, FishType::FISH, FishType::CRAB],
    {
        &[FishType::JELLY, FishType::FISH, FishType::CRAB]
    }
}

} // verus!
