use redactr::models::RedactionOptions;
use redactr::models::Span;
use redactr::redaction::apply_redactions;
use redactr::redaction::empty_response;
use redactr::redaction::redact_precheck;
use redactr::redaction::redact_text;
use redactr::redaction::sort_spans;
use redactr::redaction::trim_whitespace;

fn sp(label: &str, begin: usize, end: usize, score: u32) -> Span {
    Span { label: label.as_bytes().to_vec(), begin, end, score }
}

#[test]
fn no_spans_returns_text_unchanged() {
    let text = b"nothing sensitive here".to_vec();
    let r = redact_text(&text, Vec::new(), 7);
    assert_eq!(r.redacted_text, b"nothing sensitive here".to_vec());
    assert_eq!(r.entities_found, 0);
    assert!(r.entity_types.is_empty());
    assert!(r.confidence_scores.is_empty());
    assert_eq!(r.processing_time_ms, 7);
}

#[test]
fn rerun_with_same_spans_is_deterministic() {
    let text = b"John lives in Paris".to_vec();
    let spans1 = vec![sp("PERSON", 0, 4, 950_000), sp("LOCATION", 14, 19, 880_000)];
    let spans2 = vec![sp("PERSON", 0, 4, 950_000), sp("LOCATION", 14, 19, 880_000)];
    let r1 = redact_text(&text, spans1, 0);
    let r2 = redact_text(&text, spans2, 0);
    assert_eq!(r1.redacted_text, r2.redacted_text);
    assert_eq!(r1.entities_found, r2.entities_found);
    assert_eq!(r1.entity_types, r2.entity_types);
    assert_eq!(r1.confidence_scores, r2.confidence_scores);
}

#[test]
fn span_input_order_does_not_matter() {
    let text = b"John lives in Paris".to_vec();
    let forward = vec![sp("PERSON", 0, 4, 950_000), sp("LOCATION", 14, 19, 880_000)];
    let backward = vec![sp("LOCATION", 14, 19, 880_000), sp("PERSON", 0, 4, 950_000)];
    let r1 = redact_text(&text, forward, 0);
    let r2 = redact_text(&text, backward, 0);
    assert_eq!(r1.redacted_text, r2.redacted_text);
    assert_eq!(r1.entity_types, r2.entity_types);
    assert_eq!(r1.confidence_scores, r2.confidence_scores);
}

#[test]
fn malformed_and_out_of_range_spans_are_skipped_silently() {
    let text = b"abcdef".to_vec();
    let spans = vec![
        sp("BACKWARDS", 3, 2, 100_000),
        sp("TOOFAR", 2, 99, 200_000),
        sp("OK", 0, 2, 300_000),
    ];
    let r = redact_text(&text, spans, 0);
    assert_eq!(r.redacted_text, b"[OK]cdef".to_vec());
    assert_eq!(r.entities_found, 1);
    assert_eq!(r.entity_types, vec![b"OK".to_vec()]);
    assert_eq!(r.confidence_scores, vec![300_000]);
}

#[test]
fn example_person_and_location() {
    let text = b"John lives in Paris".to_vec();
    let spans = vec![sp("PERSON", 0, 4, 950_000), sp("LOCATION", 14, 19, 880_000)];
    let r = redact_text(&text, spans, 0);
    assert_eq!(r.redacted_text, b"[PERSON] lives in [LOCATION]".to_vec());
    assert_eq!(r.entities_found, 2);
    assert_eq!(r.entity_types, vec![b"LOCATION".to_vec(), b"PERSON".to_vec()]);
    assert_eq!(r.confidence_scores, vec![880_000, 950_000]);
}

#[test]
fn overlapping_spans_are_each_applied() {
    let text = b"abcdef".to_vec();
    let spans = vec![sp("X", 0, 4, 0), sp("Y", 2, 6, 0)];
    let r = redact_text(&text, spans, 0);
    assert_eq!(r.redacted_text, b"[X]]".to_vec());
    assert_eq!(r.entities_found, 2);
}

#[test]
fn blank_input_short_circuits() {
    for blank in [b"".to_vec(), b" \t\r\n ".to_vec()] {
        let done = match redact_precheck(&blank) {
            Err(done) => done,
            Ok(_) => panic!("a blank text must short-circuit"),
        };
        assert_eq!(done.redacted_text, Vec::<u8>::new());
        assert_eq!(done.processing_time_ms, 0);
        assert_eq!(done.entities_found, 0);
        assert!(done.entity_types.is_empty());
        assert!(done.confidence_scores.is_empty());
    }
    let r = empty_response();
    assert_eq!(r.redacted_text, Vec::<u8>::new());
    assert_eq!(r.processing_time_ms, 0);
    assert_eq!(r.entities_found, 0);
    assert!(r.entity_types.is_empty());
    assert!(r.confidence_scores.is_empty());
}

#[test]
fn precheck_trims_surrounding_whitespace() {
    let got = redact_precheck(&b"  John lives in Paris \n".to_vec());
    assert_eq!(got.ok(), Some(b"John lives in Paris".to_vec()));
}

#[test]
fn trim_whitespace_exact() {
    assert_eq!(trim_whitespace(&b"  hi there\r\n".to_vec()), b"hi there".to_vec());
    assert_eq!(trim_whitespace(&b"solid".to_vec()), b"solid".to_vec());
    assert_eq!(trim_whitespace(&b"".to_vec()), Vec::<u8>::new());
}

#[test]
fn sort_spans_orders_by_begin_descending() {
    let spans = vec![sp("A", 3, 4, 0), sp("B", 10, 11, 0), sp("C", 0, 1, 0)];
    let sorted = sort_spans(spans);
    let begins: Vec<usize> = sorted.iter().map(|s| s.begin).collect();
    assert_eq!(begins, vec![10, 3, 0]);
}

#[test]
fn confidence_can_be_suppressed_without_touching_counts() {
    let text = b"Hello Bob".to_vec();
    let spans = vec![sp("PERSON", 6, 9, 990_000)];
    let sorted = sort_spans(spans);
    let r = apply_redactions(&text, &sorted, false, 0);
    assert_eq!(r.redacted_text, b"Hello [PERSON]".to_vec());
    assert_eq!(r.entities_found, 1);
    assert_eq!(r.entity_types, vec![b"PERSON".to_vec()]);
    assert!(r.confidence_scores.is_empty());
    let _ = RedactionOptions::default();
}

#[test]
fn empty_span_inserts_token_without_removing_text() {
    let text = b"abc".to_vec();
    let spans = vec![sp("MARK", 1, 1, 0)];
    let r = redact_text(&text, spans, 0);
    assert_eq!(r.redacted_text, b"a[MARK]bc".to_vec());
    assert_eq!(r.entities_found, 1);
}
