pub mod block_buffer;
