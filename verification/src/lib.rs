//! Core of a dotfile manager: the verified logic behind discovering every
//! symlink on a machine that was plausibly created by the tool.
//!
//! Paths are modelled as byte strings (`Vec<u8>`), as they are on Unix.
//! The filesystem itself, threads and the console live outside this crate;
//! the scanning, classification and path arithmetic live here, each function
//! with a contract.

pub mod bytes;
pub mod classify;
pub mod compare;
pub mod config;
pub mod paths;
pub mod queue;
pub mod scan;
