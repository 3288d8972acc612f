pub mod block_tracer;
pub mod query_tracer;
pub mod tracker_handle;
pub mod tx_tracer;
