//! Grouping of visually similar images by the distance between their
//! fingerprints.
//!
//! A fingerprint is a short vector of bytes that an extractor computes for
//! an image. Two images count as similar when the L1 distance between
//! their vectors is below a cutoff. Every record is compared with every
//! other, the matches are indexed by their anchors, and a claim pass then
//! leaves every path in at most one cluster.
//!
//! - [`fingerprint`]: the record of one file, its distance to another.
//! - [`matcher`]: which records match, and the index of all matches.
//! - [`index`]: the index itself, from anchor paths to matched paths.
//! - [`dedup`]: the claim pass over an index.
//! - [`clusters`]: from records to clusters in one call.
//! - [`report`]: the text that is printed for an index.
//! - [`filter`]: which entries of a directory tree are taken.
//! - [`cli`]: what a command line asks for.

pub mod cli;
pub mod clusters;
pub mod dedup;
pub mod filter;
pub mod fingerprint;
pub mod index;
pub mod matcher;
pub mod report;
