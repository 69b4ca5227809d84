//! A literal-substring search over files, spread over a fixed number of workers.
//!
//! `config` reads the command line, `paths` lists the files of a directory tree,
//! `scan` finds the lines that hold the pattern, `partition` shares the file list
//! among the workers, and `search` runs one worker's share and gathers the results.
//! Reading files and directories, threads and printing are left to the caller: the
//! library takes what was read as plain values.

pub mod config;
pub mod partition;
pub mod paths;
pub mod scan;
pub mod search;
