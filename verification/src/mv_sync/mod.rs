pub mod clock;
pub mod latch_protocol;
pub mod locking_strategy;
pub mod smart_cell;
pub mod version_handle;
