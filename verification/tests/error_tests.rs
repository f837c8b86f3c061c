use redactr::errors::recognition_outcome;
use redactr::errors::RedactrError;
use redactr::models::Span;
use redactr::models::default_true;
use redactr::models::HealthResponse;
use redactr::models::RedactionOptions;
use redactr::validation::validate_text_length;
use redactr::validation::MAX_TEXT_LENGTH;

#[test]
fn short_text_is_accepted() {
    assert!(validate_text_length("hello").is_ok());
    let exactly_max = "x".repeat(MAX_TEXT_LENGTH);
    assert!(validate_text_length(&exactly_max).is_ok());
}

#[test]
fn oversized_text_is_rejected_with_its_length() {
    let too_long = "x".repeat(MAX_TEXT_LENGTH + 1);
    let r = validate_text_length(&too_long);
    assert!(matches!(r, Err(RedactrError::TextTooLong(10001, 10000))));
}

#[test]
fn status_codes_follow_the_taxonomy() {
    assert_eq!(RedactrError::ModelNotLoaded.status_code(), 503);
    assert_eq!(RedactrError::TextTooLong(12, 10).status_code(), 400);
    assert_eq!(RedactrError::ProcessingFailed("boom".to_owned()).status_code(), 500);
    assert_eq!(RedactrError::InternalError.status_code(), 500);
}

#[test]
fn messages_are_exact() {
    assert_eq!(RedactrError::ModelNotLoaded.message(), "Model not loaded");
    assert_eq!(
        RedactrError::TextTooLong(10001, 10000).message(),
        "Text too long: 10001 characters (max: 10000)"
    );
    assert_eq!(
        RedactrError::ProcessingFailed("engine crashed".to_owned()).message(),
        "Processing failed: engine crashed"
    );
    assert_eq!(RedactrError::InternalError.message(), "Internal server error");
}

#[test]
fn error_response_carries_message_code_and_timestamp() {
    let payload = RedactrError::TextTooLong(42, 10).error_response();
    assert_eq!(payload.error, "Text too long: 42 characters (max: 10)");
    assert_eq!(payload.code, 400);
    assert!(payload.timestamp.len() >= 25);
    assert!(payload.timestamp.contains('T'));
    assert!(payload.timestamp.ends_with("+00:00"));
}

#[test]
fn worker_join_failure_means_engine_gone() {
    let r = recognition_outcome(None);
    assert!(matches!(r, Err(RedactrError::ModelNotLoaded)));
}

#[test]
fn engine_failure_carries_its_diagnostic() {
    let r = recognition_outcome(Some(Err("tensor shape mismatch".to_owned())));
    match r {
        Err(RedactrError::ProcessingFailed(msg)) => {
            assert_eq!(msg, "tensor shape mismatch");
        },
        _ => panic!("an engine failure must map to ProcessingFailed"),
    }
}

#[test]
fn successful_recognition_passes_span_sets_through() {
    let spans = vec![vec![Span { label: b"PERSON".to_vec(), begin: 0, end: 4, score: 950_000 }]];
    let r = recognition_outcome(Some(Ok(spans)));
    let sets = r.unwrap_or_default();
    assert_eq!(sets.len(), 1);
    assert_eq!(sets[0].len(), 1);
    assert_eq!(sets[0][0].label, b"PERSON".to_vec());
    assert_eq!(sets[0][0].begin, 0);
    assert_eq!(sets[0][0].end, 4);
    assert_eq!(sets[0][0].score, 950_000);
}

#[test]
fn message_renders_zero_and_large_numbers() {
    assert_eq!(
        RedactrError::TextTooLong(0, 1_000_000).message(),
        "Text too long: 0 characters (max: 1000000)"
    );
}

#[test]
fn option_and_health_defaults() {
    let o = RedactionOptions::default();
    assert!(o.include_confidence);
    assert!(!o.include_entity_details);
    assert!(default_true());
    let h = HealthResponse::default();
    assert_eq!(h.status, "ok");
    assert!(h.model_loaded);
    assert_eq!(h.version, "0.1.0");
}
