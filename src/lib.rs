//! Address translation and buffer synchronisation between a flat, byte-addressed
//! memory region and element-granular simulated memory arrays.

pub mod banked;
pub mod buffer;
pub mod config;
pub mod coverage;
pub mod error;
pub mod geometry;
pub mod memory;
pub mod naming;
pub mod region;
pub mod rpc;
pub mod store;
pub mod theorems;
pub mod uvm;
