//! Verified solutions to a set of small systems exercises.
//!
//! The heart of the crate is an arbitrary-precision signed decimal integer
//! engine: parsing, the four arithmetic operators and canonical
//! serialization, all specified against the mathematical integers.
//! The remaining modules hold the pure cores of the other exercises:
//! parsers, counters, sorting comparators and sequence utilities.

pub mod anagrams;
pub mod bigint;
pub mod counters;
pub mod cut;
pub mod digits;
pub mod downcast;
pub mod grep;
pub mod iface;
pub mod lf;
pub mod numbers;
pub mod parse_string;
pub mod seqops;
pub mod shell;
pub mod strings;
pub mod textsort;
pub mod unicode;
pub mod wc;
