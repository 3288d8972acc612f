use vstd::prelude::*;

verus! {

/// How the commit clock of a tree is shared among threads.
#[derive(Clone, Copy, PartialEq, Eq, Structural)]
pub enum ClockType {
    FREE,
    OPTIMISTIC,
    SYNCED,
}

impl ClockType {
    pub fn name(&self) -> (r: &'static str)
        ensures
            *self == ClockType::FREE ==> r@ == "FREE"@,
            *self == ClockType::OPTIMISTIC ==> r@ == "OPTIMISTIC"@,
            *self == ClockType::SYNCED ==> r@ == "SYNCED"@,
    {
        match self {
            ClockType::FREE => "FREE",
            ClockType::OPTIMISTIC => "OPTIMISTIC",
            ClockType::SYNCED => "SYNCED",
        }
    }
}

} // verus!
