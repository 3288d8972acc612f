use vstd::prelude::*;
use crate::mv_sync::smart_cell::LatchType;

verus! {

/// How writers of a tree synchronise (the strategy a tree is built with): a single writer, or optimistic lock
/// coupling among concurrent writers.
#[derive(Clone, Copy, PartialEq, Eq, Structural)]
pub enum LockingStrategy {
    MonoWriter,
    OLC,
}

/// The optimistic lock coupling protocol.
#[allow(non_snake_case)]
pub fn OLC() -> (r: LockingStrategy)
    ensures
        r == LockingStrategy::OLC,
{
    LockingStrategy::OLC
}

impl LockingStrategy {
    /// The protocol used when none is chosen.
    pub fn default() -> (r: Self)
        ensures
            r == LockingStrategy::MonoWriter,
    {
        LockingStrategy::MonoWriter
    }

    /// The latch a block cell gets under this protocol.
    pub fn latch_type(&self) -> (r: LatchType)
        ensures
            *self == LockingStrategy::MonoWriter ==> r == LatchType::NoLatch,
            *self == LockingStrategy::OLC ==> r == LatchType::Optimistic,
    {
        match self {
            LockingStrategy::MonoWriter => LatchType::NoLatch,
            LockingStrategy::OLC => LatchType::Optimistic,
        }
    }

    pub fn is_concurrent(&self) -> (r: bool)
        ensures
            r == (*self == LockingStrategy::OLC),
    {
        match self {
            LockingStrategy::OLC => true,
            _ => false,
        }
    }

    pub fn is_mono_writer(&self) -> (r: bool)
        ensures
            r == (*self == LockingStrategy::MonoWriter),
    {
        match self {
            LockingStrategy::MonoWriter => true,
            _ => false,
        }
    }

    /// The protocol's name.
    pub fn name(&self) -> (r: &'static str)
        ensures
            *self == LockingStrategy::MonoWriter ==> r@ == "MonoWriter"@,
            *self == LockingStrategy::OLC ==> r@ == "OLC"@,
    {
        match self {
            LockingStrategy::MonoWriter => "MonoWriter",
            LockingStrategy::OLC => "OLC",
        }
    }
}

} // verus!
