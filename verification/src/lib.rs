//! Planning and bookkeeping for benchmark runs of database builds: command-line
//! arguments of the processes, path resolution, validation of the configured
//! executables, the order of the runs and the collection of their results.

pub mod args;
pub mod bench_runner;
pub mod config;
pub mod error;
pub mod process;
pub mod text;
