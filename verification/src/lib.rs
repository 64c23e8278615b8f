//! Classification and aggregation engine for TCP/UDP listener records.
//!
//! The library takes a flat list of listener records (port, process name,
//! pid, command line, start time, bind address), groups them by port,
//! scores each group against a configurable rule set, partitions the
//! groups into presentation tiers, folds the multi-port tier into
//! per-process summaries, and finally sorts and truncates each tier.

pub mod aggregate;
pub mod buckets;
pub mod config;
pub mod filter;
pub mod inspect;
pub mod lex;
pub mod order;
pub mod partition;
pub mod pipeline;
pub mod records;
pub mod regroup;
pub mod score;
pub mod text;
