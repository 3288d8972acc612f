use vstd::prelude::*;
use crate::mv_record_model::version_info::Version;

verus! {

/// The first version the commit clock hands out.
pub const START_VERSION: Version = 1;

} // verus!
