//! Single-pass filtering engine for syslog-style log files: literal and
//! regex line matching, digest-based deduplication, structured record
//! extraction, service listing, and result aggregation.

pub mod c_type;
pub mod digest;
pub mod filter;
pub mod parse;
pub mod matcher;
pub mod text;
