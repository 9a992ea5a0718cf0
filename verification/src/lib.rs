//! Data generation and byte-count formatting for benchmarking hash functions.

pub mod data;
pub mod decimal;
pub mod human;
pub mod outside;

pub use data::{generate_data_block, generate_data_blocks_for_async_benchmarking, seed_from_value};
pub use human::bytes_to_human_readable;
