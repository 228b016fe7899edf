//! Reproducible build-process attestations.
pub mod text;
pub mod order;
pub mod digest;
pub mod operation;
pub mod merkle;
pub mod paths;
pub mod file_identity;
pub mod tracer;
pub mod canonicalize;
pub mod coverage;
pub mod collecting;
pub mod provenance;
pub mod writers;
pub mod workspace;
pub mod slice;
pub mod dependence;
pub mod json;
pub mod attestation;
pub mod dsse;
pub mod tp_offsets;
pub mod events;
pub mod probes;
pub mod stability;
pub mod report;
pub mod attest;
pub mod harness;
