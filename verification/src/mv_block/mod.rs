pub mod block;
pub mod block_handle;
