use vstd::prelude::*;
use crate::mv_record_model::version_info::Version;

verus! {

/// The top bit of a version stamp marks an index entry as obsolete.
pub const OBSOLETE_VERSION_MARK: Version = 0x8000_0000_0000_0000;

/// A version stamp with the obsolete mark cleared.
pub open spec fn spec_plain(v: Version) -> int {
    v as int % 0x8000_0000_0000_0000
}

/// True when the obsolete mark of a version stamp is set.
pub open spec fn spec_obsolete(v: Version) -> bool {
    v >= 0x8000_0000_0000_0000
}

/// Comparisons of index-entry version stamps that ignore the obsolete mark.
pub trait TimeMatcher: Sized {
    /// The stamp with its obsolete mark cleared.
    fn into_cmp(self) -> Self;

    /// True when `self` is not newer than `other`.
    fn match_version_active(self, other: Version) -> bool;

    /// True when `self`, mark cleared, is older than `other`.
    fn lt_self_any(self, other: Version) -> bool;

    /// True when the obsolete mark is set.
    fn is_obsolete(&self) -> bool;

    /// True when the obsolete mark is clear.
    fn is_active(&self) -> bool;

    /// True when `self`, mark cleared, is not newer than `other`.
    fn matched(self, other: Version) -> bool;
}

impl TimeMatcher for Version {
    fn into_cmp(self) -> (r: Self)
        ensures
            r == spec_plain(self),
    {
        assert(self & !0x8000_0000_0000_0000u64 == self % 0x8000_0000_0000_0000) by (bit_vector);
        self & !OBSOLETE_VERSION_MARK
    }

    fn match_version_active(self, other: Version) -> (r: bool)
        ensures
            r == (self <= other),
    {
        self <= other
    }

    fn lt_self_any(self, other: Version) -> (r: bool)
        ensures
            r == (spec_plain(self) < other),
    {
        assert(self & !0x8000_0000_0000_0000u64 == self % 0x8000_0000_0000_0000) by (bit_vector);
        self & !OBSOLETE_VERSION_MARK < other
    }

    fn is_obsolete(&self) -> (r: bool)
        ensures
            r == spec_obsolete(*self),
    {
        let v = *self;
        assert((v & 0x8000_0000_0000_0000u64 != 0) == (v >= 0x8000_0000_0000_0000u64)) by (bit_vector);
        v & OBSOLETE_VERSION_MARK != 0
    }

    fn is_active(&self) -> (r: bool)
        ensures
            r == !spec_obsolete(*self),
    {
        let v = *self;
        assert((v & 0x8000_0000_0000_0000u64 == 0) == (v < 0x8000_0000_0000_0000u64)) by (bit_vector);
        v & OBSOLETE_VERSION_MARK == 0
    }

    fn matched(self, other: Version) -> (r: bool)
        ensures
            r == (spec_plain(self) <= other),
    {
        assert(self & !0x8000_0000_0000_0000u64 == self % 0x8000_0000_0000_0000) by (bit_vector);
        self & !OBSOLETE_VERSION_MARK <= other
    }
}

/// Setting the obsolete mark keeps the stamp (mark cleared) and makes it obsolete.
pub proof fn lemma_mark_obsolete(v: Version)
    ensures
        spec_obsolete(v | 0x8000_0000_0000_0000u64),
        spec_plain(v | 0x8000_0000_0000_0000u64) == spec_plain(v),
{
    assert((v | 0x8000_0000_0000_0000u64) >= 0x8000_0000_0000_0000u64) by (bit_vector);
    assert((v | 0x8000_0000_0000_0000u64) % 0x8000_0000_0000_0000u64 == v % 0x8000_0000_0000_0000u64)
        by (bit_vector);
}

} // verus!
