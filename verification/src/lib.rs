//! A multi-version B+-tree toolkit: packed counters and latch words, versioned
//! leaf and index pages, snapshot visibility, root histories and the
//! bookkeeping of the buffer layer, each with a proved contract.

pub mod mv_sync;
pub mod mv_record_model;
pub mod mv_page_model;
pub mod mv_query;
pub mod mv_utils;
pub mod mv_block;
pub mod mv_tree;
pub mod mv_crud_model;
pub mod mv_tx_model;
pub mod mv_root;
pub mod mv_buffer;
pub mod mv_test;
pub mod mv_gc;
pub mod tree_api;

