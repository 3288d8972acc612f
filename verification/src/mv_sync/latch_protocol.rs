use vstd::prelude::*;
use crate::mv_sync::smart_cell::LatchType;

verus! {

/// How writers of the tree synchronise: a single writer, or optimistic lock
/// coupling among concurrent writers.
#[derive(Clone, Copy, PartialEq, Eq, Structural)]
pub enum LatchProtocol {
    MonoWriter,
    OLC,
}

/// The optimistic lock coupling protocol.
#[allow(non_snake_case)]
pub fn OLC() -> (r: LatchProtocol)
    ensures
        r == LatchProtocol::OLC,
{
    LatchProtocol::OLC
}

impl LatchProtocol {
    /// The protocol used when none is chosen.
    pub fn default() -> (r: Self)
        ensures
            r == LatchProtocol::MonoWriter,
    {
        LatchProtocol::MonoWriter
    }

    /// The latch a block cell gets under this protocol.
    pub fn latch_type(&self) -> (r: LatchType)
        ensures
            *self == LatchProtocol::MonoWriter ==> r == LatchType::NoLatch,
            *self == LatchProtocol::OLC ==> r == LatchType::Optimistic,
    {
        match self {
            LatchProtocol::MonoWriter => LatchType::NoLatch,
            LatchProtocol::OLC => LatchType::Optimistic,
        }
    }

    pub fn is_concurrent(&self) -> (r: bool)
        ensures
            r == (*self == LatchProtocol::OLC),
    {
        match self {
            LatchProtocol::OLC => true,
            _ => false,
        }
    }

    pub fn is_mono_writer(&self) -> (r: bool)
        ensures
            r == (*self == LatchProtocol::MonoWriter),
    {
        match self {
            LatchProtocol::MonoWriter => true,
            _ => false,
        }
    }

    /// The protocol's name.
    pub fn name(&self) -> (r: &'static str)
        ensures
            *self == LatchProtocol::MonoWriter ==> r@ == "MonoWriter"@,
            *self == LatchProtocol::OLC ==> r@ == "OLC"@,
    {
        match self {
            LatchProtocol::MonoWriter => "MonoWriter",
            LatchProtocol::OLC => "OLC",
        }
    }
}

} // verus!
