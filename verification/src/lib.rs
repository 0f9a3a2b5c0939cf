//! Verified core of a window-based read-evidence analyzer.
//!
//! The library projects reference-coordinate windows onto aligned reads,
//! builds k-mer delta feature vectors, derives positional indel signatures,
//! and clusters feature vectors with an exact Canberra-style metric.
//! All file access, serialization and thread plumbing live outside of it;
//! the library works on plain values.

pub mod align;
pub mod config;
pub mod smooth;
pub mod cluster;
pub mod features;
pub mod indel;
pub mod kmer;
pub mod project;
pub mod report;
pub mod window;
