//! Data carried through the redaction pipeline.
//!
//! Texts are sequences of bytes, and span offsets are byte offsets into
//! them. Confidence scores are carried as millionths (a score of
//! 950_000 stands for 0.95), so that the verified core never touches
//! floating point; the transport layer converts at the edge.

use vstd::prelude::*;

verus! {

/// A labeled range of a text, as reported by the recognition engine:
/// the bytes `[begin, end)` were recognized as an entity of kind
/// `label`, with confidence `score` (in millionths).
///
/// Nothing here guarantees `begin <= end` or that the range lies
/// inside any particular text: the engine is outside this crate, and
/// the redaction core checks every span before applying it.
pub struct Span {
    pub label: Vec<u8>,
    pub begin: usize,
    pub end: usize,
    pub score: u32,
}

/// Advisory flags for a batch request: they control what is attached
/// to each result, never which spans are detected or redacted.
pub struct RedactionOptions {
    pub include_entity_details: bool,
    pub include_confidence: bool,
}

/// The default for `RedactionOptions.include_confidence`.
pub fn default_true() -> (r: bool)
    ensures
        r == true,
{
    true
}

impl Default for RedactionOptions {
    /// Details off, confidence on.
    fn default() -> (r: Self)
        ensures
            r.include_entity_details == false,
            r.include_confidence == true,
    {
        RedactionOptions { include_entity_details: false, include_confidence: default_true() }
    }
}

/// A single-text redaction request.
pub struct RedactRequest {
    pub text: String,
}

/// A batch redaction request: texts are processed in order, under one
/// set of options.
pub struct BatchRedactRequest {
    pub texts: Vec<String>,
    pub options: RedactionOptions,
}

/// The outcome of redacting one text: the rewritten text and the
/// statistics derived from the spans that were actually applied.
pub struct RedactResponse {
    pub redacted_text: Vec<u8>,
    pub processing_time_ms: u128,
    pub entities_found: usize,
    pub entity_types: Vec<Vec<u8>>,
    pub confidence_scores: Vec<u32>,
}

/// The outcome of a batch: one result per input text, in input order,
/// plus batch-level totals.
pub struct BatchRedactResponse {
    pub results: Vec<RedactResponse>,
    pub total_processing_time_ms: u128,
    pub total_entities_found: usize,
}

/// What the health probe reports.
pub struct HealthResponse {
    pub status: String,
    pub model_loaded: bool,
    pub version: String,
}

impl Default for HealthResponse {
    fn default() -> (r: Self)
        ensures
            r.status@ == "ok"@,
            r.model_loaded == true,
            r.version@ == "0.1.0"@,
    {
        HealthResponse { status: "ok".to_owned(), model_loaded: true, version: "0.1.0".to_owned() }
    }
}

} // verus!
