//! Verified core of a text-redaction service.
//!
//! Free-form text is scanned by an external named-entity-recognition
//! engine, which reports labeled character spans; this crate holds the
//! verified logic around that engine: validation of incoming text, the
//! offset-based rewriting that replaces each detected span by a
//! bracketed label token, the per-text and per-batch statistics, and
//! the error taxonomy. The engine itself, the HTTP transport and the
//! process bootstrap live outside the library.

pub mod models;

pub mod validation;

pub mod errors;

pub mod redaction;

pub mod batch;

pub mod laws;

