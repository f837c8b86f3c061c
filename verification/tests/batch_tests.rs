use redactr::batch::batch_redact_text;
use redactr::batch::empty_batch_response;
use redactr::models::RedactionOptions;
use redactr::models::Span;

fn sp(label: &str, begin: usize, end: usize, score: u32) -> Span {
    Span { label: label.as_bytes().to_vec(), begin, end, score }
}

fn default_options() -> RedactionOptions {
    RedactionOptions::default()
}

#[test]
fn batch_results_match_input_order() {
    let texts = vec![b"a".to_vec(), b"b".to_vec(), b"c".to_vec()];
    let spans = vec![
        vec![sp("ONE", 0, 1, 0)],
        Vec::new(),
        vec![sp("THREE", 0, 1, 0)],
    ];
    let r = batch_redact_text(&texts, spans, &default_options(), 12);
    assert_eq!(r.results.len(), 3);
    assert_eq!(r.results[0].redacted_text, b"[ONE]".to_vec());
    assert_eq!(r.results[1].redacted_text, b"b".to_vec());
    assert_eq!(r.results[2].redacted_text, b"[THREE]".to_vec());
    assert_eq!(r.total_processing_time_ms, 12);
    assert_eq!(r.total_entities_found, 2);
}

#[test]
fn example_batch_with_empty_first_text() {
    let texts = vec![b"".to_vec(), b"Hello Bob".to_vec()];
    let spans = vec![Vec::new(), vec![sp("PERSON", 6, 9, 990_000)]];
    let r = batch_redact_text(&texts, spans, &default_options(), 0);
    assert_eq!(r.total_entities_found, 1);
    assert_eq!(r.results[0].redacted_text, b"".to_vec());
    assert_eq!(r.results[1].redacted_text, b"Hello [PERSON]".to_vec());
}

#[test]
fn batch_per_text_time_is_zero() {
    let texts = vec![b"Hello Bob".to_vec()];
    let spans = vec![vec![sp("PERSON", 6, 9, 990_000)]];
    let r = batch_redact_text(&texts, spans, &default_options(), 31);
    assert_eq!(r.results[0].processing_time_ms, 0);
    assert_eq!(r.total_processing_time_ms, 31);
}

#[test]
fn batch_honors_confidence_option() {
    let texts = vec![b"Hello Bob".to_vec()];
    let spans = vec![vec![sp("PERSON", 6, 9, 990_000)]];
    let options = RedactionOptions { include_entity_details: false, include_confidence: false };
    let r = batch_redact_text(&texts, spans, &options, 0);
    assert_eq!(r.results[0].entities_found, 1);
    assert_eq!(r.results[0].entity_types, vec![b"PERSON".to_vec()]);
    assert!(r.results[0].confidence_scores.is_empty());
}

#[test]
fn empty_batch_is_all_zero() {
    let r = batch_redact_text(&Vec::new(), Vec::new(), &default_options(), 0);
    assert_eq!(r.results.len(), 0);
    assert_eq!(r.total_processing_time_ms, 0);
    assert_eq!(r.total_entities_found, 0);
    let e = empty_batch_response();
    assert_eq!(e.results.len(), 0);
    assert_eq!(e.total_processing_time_ms, 0);
    assert_eq!(e.total_entities_found, 0);
}
