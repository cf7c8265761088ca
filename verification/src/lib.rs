//! Collects and summarises `/usr/bin/time -v` measurements of repeated runs
//! of an application: the verified core of an end-to-end benchmarking tool.

pub mod bench;
pub mod error;
pub mod number;
pub mod text;
pub mod utils;
