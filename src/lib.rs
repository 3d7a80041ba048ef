//! Genome-assembly statistics over FASTA streams: a byte classifier, a
//! chunked stream parser, and the N25/N50/N75 reducer.

pub mod classify;
pub mod stats;
pub mod parser;
pub mod formats;
pub mod archive;
pub mod orchestrate;
