//! A pattern-scanning engine for an abstract, addressable memory space.
//!
//! The engine locates byte patterns (exact bytes, wildcard-masked bytes, or a
//! structure's default byte pattern) inside memory reached through the
//! [`memory::MemoryManipulation`] capability, by reading consecutive,
//! non-overlapping windows and running a pure matcher on each window.

pub mod error;
pub mod layout;
pub mod matcher;
pub mod memory;
pub mod scanner;
pub mod sim;
pub mod wildcard;
