//! Passive detection of repeated TCP segments: a table of segment
//! fingerprints that counts repeats, reports the repeated ones and evicts
//! entries older than a retention window.

mod clock;
pub mod fingerprint;
pub mod table;
pub mod ingest;
pub mod reaper;
