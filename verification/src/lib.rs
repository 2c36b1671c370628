//! Searching object-store listings with ripgrep's engines: the byte reader
//! fed to the searcher, target parsing, key filtering and selection, and the
//! bookkeeping of a search run.

pub mod bench_plan;
pub mod cli;
pub mod ignore_glue;
pub mod key_order;
pub mod opendal_io;
pub mod pattern_matcher;
pub mod run;
pub mod walker;
