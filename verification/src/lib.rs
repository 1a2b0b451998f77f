//! Packaging and service logic for Cairo virtual-machine artifacts.
//!
//! The crate covers the binary codecs for execution traces and memory
//! snapshots, the felt argument parser that feeds VM executions, the
//! archive decompressor, the multipart ingestion pipeline of the proving
//! service, and the admission-control model that bounds concurrent
//! handler executions.

pub mod admission;
pub mod archive;
pub mod args;
pub mod codec;
pub mod config;
pub mod felt;
pub mod nums;
pub mod pipeline;
pub mod runner;
