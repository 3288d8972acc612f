use vstd::prelude::*;

verus! {

/// A logical timestamp handed out by the commit clock.
pub type Version = u64;

/// The lifespan of one record version: visible from `insert_version` on, and,
/// once deleted, up to (excluding) `delete_version`.
#[derive(Clone, Copy, PartialEq, Eq, Structural)]
pub struct VersionInfo {
    pub insert_version: Version,
    pub delete_version: Option<Version>,
}

impl VersionInfo {
    /// True when the record version is part of the snapshot taken at `version`.
    pub open spec fn spec_matches(self, version: Version) -> bool {
        &&& self.insert_version <= version
        &&& match self.delete_version {
            None => true,
            Some(d) => version < d,
        }
    }

    /// A fresh, undeleted version inserted at `insert_version`.
    pub fn new(insert_version: Version) -> (r: Self)
        ensures
            r.insert_version == insert_version,
            r.delete_version is None,
    {
        VersionInfo { insert_version, delete_version: None }
    }

    /// Whether the record is visible to a reader of snapshot `version`.
    pub fn matches(&self, version: Version) -> (r: bool)
        ensures
            r == self.spec_matches(version),
    {
        self.insert_version <= version && match self.delete_version {
            None => true,
            Some(d) => version < d,
        }
    }

    /// Whether the lifespan of this version has been closed.
    pub fn is_deleted(&self) -> (r: bool)
        ensures
            r == self.delete_version is Some,
    {
        self.delete_version.is_some()
    }

    /// Closes the lifespan at `del_version`; fails, leaving the version as it
    /// was, when it is already closed.
    pub fn delete(&mut self, del_version: Version) -> (r: bool)
        ensures
            r == old(self).delete_version is None,
            r ==> *final(self) == (VersionInfo {
                insert_version: old(self).insert_version,
                delete_version: Some(del_version),
            }),
            !r ==> *final(self) == *old(self),
    {
        if self.delete_version.is_some() {
            false
        } else {
            self.delete_version = Some(del_version);
            true
        }
    }

    /// Reopens the lifespan of this version.
    pub fn undelete(&mut self)
        ensures
            final(self).insert_version == old(self).insert_version,
            final(self).delete_version is None,
    {
        self.delete_version = None;
    }
}

} // verus!
