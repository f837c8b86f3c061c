//! Properties of the redaction engine that hold beyond any one
//! function's contract: redaction of a spanless text is the identity,
//! sort-then-apply does not depend on the engine's span order, and
//! ill-formed spans contribute nothing anywhere.

use vstd::prelude::*;
use vstd::multiset::Multiset;
use vstd::seq_lib::group_to_multiset_ensures;
use crate::models::RedactResponse;
use crate::models::Span;
use crate::redaction::apply_span;
use crate::redaction::is_redaction_of;
use crate::redaction::matches_redaction;
use crate::redaction::redact_fold;
use crate::redaction::sorted_desc;
use crate::redaction::span_applies;

verus! {

/// No two spans of the sequence begin at the same offset.
pub open spec fn distinct_begins(s: Seq<Span>) -> bool {
    forall|i: int, j: int| 0 <= i < j < s.len() ==> s[i].begin != s[j].begin
}

/// No two spans of the set begin at the same offset, and no span
/// occurs twice.
pub open spec fn distinct_begins_m(m: Multiset<Span>) -> bool {
    &&& forall|a: Span, b: Span|
        m.contains(a) && m.contains(b) && a != b ==> a.begin != b.begin
    &&& forall|a: Span| m.count(a) <= 1
}

/// A sequence drawn from a span set with pairwise distinct begin
/// offsets has them pairwise distinct too.
proof fn lemma_distinct_begins_of_multiset(s: Seq<Span>)
    requires
        distinct_begins_m(s.to_multiset()),
    ensures
        distinct_begins(s),
{
    broadcast use group_to_multiset_ensures;

    assert(forall|x: Span| s.to_multiset().contains(x) ==> s.to_multiset().count(x) == 1);
    s.lemma_multiset_has_no_duplicates_conv();
    assert forall|i: int, j: int| 0 <= i < j < s.len() implies s[i].begin != s[j].begin by {
        assert(s.contains(s[i]));
        assert(s.contains(s[j]));
        assert(s[i] != s[j]);
        assert(s.to_multiset().contains(s[i]));
        assert(s.to_multiset().contains(s[j]));
    }
}

/// Two descending orderings of one span set are the same sequence,
/// when no two spans of the set begin at the same offset.
proof fn lemma_sorted_unique(s1: Seq<Span>, s2: Seq<Span>)
    requires
        sorted_desc(s1),
        sorted_desc(s2),
        distinct_begins(s1),
        s1.to_multiset() == s2.to_multiset(),
    ensures
        s1 == s2,
    decreases s1.len(),
{
    broadcast use group_to_multiset_ensures;

    s1.to_multiset_ensures();
    s2.to_multiset_ensures();
    if s1.len() == 0 {
        assert(s1.to_multiset().len() == 0);
        assert(s2.len() == 0);
        assert(s1 =~= s2);
    } else {
        assert(s2.len() == s1.len());
        assert(s1.contains(s1[0]));
        assert(s2.to_multiset().count(s1[0]) > 0);
        assert(s2.contains(s1[0]));
        let k = choose|k: int| 0 <= k < s2.len() && s2[k] == s1[0];
        assert(s2.contains(s2[0]));
        assert(s1.to_multiset().count(s2[0]) > 0);
        assert(s1.contains(s2[0]));
        let m = choose|m: int| 0 <= m < s1.len() && s1[m] == s2[0];
        if k > 0 {
            assert(s2[0].begin >= s2[k].begin);
        }
        if m > 0 {
            assert(s1[0].begin >= s1[m].begin);
            assert(s1[0].begin != s1[m].begin);
            assert(false);
        }
        assert(s1[0] == s2[0]);
        assert(s1.remove(0) =~= s1.drop_first());
        assert(s2.remove(0) =~= s2.drop_first());
        assert(s1.drop_first().to_multiset() == s1.to_multiset().remove(s1[0]));
        assert(s2.drop_first().to_multiset() == s2.to_multiset().remove(s2[0]));
        assert forall|i: int, j: int| 0 <= i < j < s1.drop_first().len() implies (
        #[trigger] s1.drop_first()[i]).begin >= (#[trigger] s1.drop_first()[j]).begin by {
            assert(s1.drop_first()[i] == s1[i + 1]);
            assert(s1.drop_first()[j] == s1[j + 1]);
        }
        assert forall|i: int, j: int| 0 <= i < j < s2.drop_first().len() implies (
        #[trigger] s2.drop_first()[i]).begin >= (#[trigger] s2.drop_first()[j]).begin by {
            assert(s2.drop_first()[i] == s2[i + 1]);
            assert(s2.drop_first()[j] == s2[j + 1]);
        }
        assert forall|i: int, j: int| 0 <= i < j < s1.drop_first().len() implies (
        #[trigger] s1.drop_first()[i]).begin != (#[trigger] s1.drop_first()[j]).begin by {
            assert(s1.drop_first()[i] == s1[i + 1]);
            assert(s1.drop_first()[j] == s1[j + 1]);
        }
        lemma_sorted_unique(s1.drop_first(), s2.drop_first());
        assert forall|i: int| 0 <= i < s1.len() implies s1[i] == s2[i] by {
            if i > 0 {
                assert(s1[i] == s1.drop_first()[i - 1]);
                assert(s2[i] == s2.drop_first()[i - 1]);
            }
        }
        assert(s1 =~= s2);
    }
}

/// A text in which the engine detected no spans comes back unchanged,
/// with no entities found and no scores.
pub proof fn lemma_no_spans_is_identity(
    text: Seq<u8>,
    spans: Seq<Span>,
    r: RedactResponse,
    elapsed_ms: u128,
)
    requires
        spans.len() == 0,
        is_redaction_of(text, spans, r, true, elapsed_ms),
    ensures
        r.redacted_text@ == text,
        r.entities_found == 0,
        r.entity_types@.len() == 0,
        r.confidence_scores@.len() == 0,
{
    broadcast use group_to_multiset_ensures;

    let sorted = choose|sorted: Seq<Span>|
        sorted.to_multiset() == spans.to_multiset() && sorted_desc(sorted) && matches_redaction(
            text,
            sorted,
            r,
            true,
            elapsed_ms,
        );
    assert(spans.to_multiset().len() == 0);
    assert(sorted.len() == 0);
    assert(redact_fold(text, sorted).0 == text);
    assert(redact_fold(text, sorted).1.len() == 0);
    assert(redact_fold(text, sorted).2.len() == 0);
}

/// Sort-then-apply does not depend on the order in which the engine
/// handed the spans over: two redactions of one text over one span
/// set agree on the rewritten text and on every statistic, whatever
/// descending ordering each run used — provided no two spans of the
/// set begin at the same offset. (Two spans that begin at the same
/// offset may be applied in either order, and two insertions at one
/// offset differ, so those sets are left out.)
pub proof fn lemma_order_independent(
    text: Seq<u8>,
    spans1: Seq<Span>,
    spans2: Seq<Span>,
    r1: RedactResponse,
    r2: RedactResponse,
    include_confidence: bool,
    elapsed1: u128,
    elapsed2: u128,
)
    requires
        spans1.to_multiset() == spans2.to_multiset(),
        distinct_begins_m(spans1.to_multiset()),
        is_redaction_of(text, spans1, r1, include_confidence, elapsed1),
        is_redaction_of(text, spans2, r2, include_confidence, elapsed2),
    ensures
        r1.redacted_text@ == r2.redacted_text@,
        r1.entities_found == r2.entities_found,
        r1.entity_types@.len() == r2.entity_types@.len(),
        forall|i: int|
            0 <= i < r1.entity_types@.len() ==> (#[trigger] r1.entity_types@[i])@
                == r2.entity_types@[i]@,
        r1.confidence_scores@ == r2.confidence_scores@,
{
    let w1 = choose|w1: Seq<Span>|
        w1.to_multiset() == spans1.to_multiset() && sorted_desc(w1) && matches_redaction(
            text,
            w1,
            r1,
            include_confidence,
            elapsed1,
        );
    let w2 = choose|w2: Seq<Span>|
        w2.to_multiset() == spans2.to_multiset() && sorted_desc(w2) && matches_redaction(
            text,
            w2,
            r2,
            include_confidence,
            elapsed2,
        );
    lemma_distinct_begins_of_multiset(w1);
    lemma_sorted_unique(w1, w2);
}

/// Redaction is deterministic: re-running it on the original text with
/// the same span set yields the same redacted text and statistics,
/// whatever tie-breaking each run's sort chose — for span sets in
/// which no two spans begin at the same offset.
pub proof fn lemma_redact_deterministic(
    text: Seq<u8>,
    spans: Seq<Span>,
    r1: RedactResponse,
    r2: RedactResponse,
    include_confidence: bool,
    elapsed_ms: u128,
)
    requires
        distinct_begins_m(spans.to_multiset()),
        is_redaction_of(text, spans, r1, include_confidence, elapsed_ms),
        is_redaction_of(text, spans, r2, include_confidence, elapsed_ms),
    ensures
        r1.redacted_text@ == r2.redacted_text@,
        r1.entities_found == r2.entities_found,
        r1.entity_types@.len() == r2.entity_types@.len(),
        forall|i: int|
            0 <= i < r1.entity_types@.len() ==> (#[trigger] r1.entity_types@[i])@
                == r2.entity_types@[i]@,
        r1.confidence_scores@ == r2.confidence_scores@,
{
    lemma_order_independent(
        text,
        spans,
        spans,
        r1,
        r2,
        include_confidence,
        elapsed_ms,
        elapsed_ms,
    );
}

/// A span whose range is malformed (begin past end) never appears in
/// the output: removing it from the processing order changes neither
/// the redacted text nor any statistic, wherever it stands. It raises
/// no error either: the fold is total.
pub proof fn lemma_malformed_span_skipped(text: Seq<u8>, spans: Seq<Span>, i: int)
    requires
        0 <= i < spans.len(),
        spans[i].begin > spans[i].end,
    ensures
        redact_fold(text, spans) == redact_fold(text, spans.remove(i)),
    decreases spans.len(),
{
    if i == 0 {
        assert(!span_applies(spans[0], text.len() as int));
        assert(apply_span(text, spans[0]) == text);
        assert(spans.remove(0) =~= spans.drop_first());
    } else {
        let s = spans[0];
        lemma_malformed_span_skipped(apply_span(text, s), spans.drop_first(), i - 1);
        assert(spans.drop_first()[i - 1] == spans[i]);
        assert(spans.remove(i)[0] == s);
        assert(spans.remove(i).drop_first() =~= spans.drop_first().remove(i - 1));
    }
}

/// A span that reaches past the end of the text as it stands at the
/// span's turn is skipped the same way: it contributes to neither the
/// text nor the statistics, and raises no error.
pub proof fn lemma_out_of_bounds_span_skipped(text: Seq<u8>, spans: Seq<Span>, i: int)
    requires
        0 <= i < spans.len(),
        spans[i].end > redact_fold(text, spans.take(i)).0.len(),
    ensures
        redact_fold(text, spans) == redact_fold(text, spans.remove(i)),
    decreases spans.len(),
{
    if i == 0 {
        assert(spans.take(0) =~= Seq::<Span>::empty());
        assert(redact_fold(text, spans.take(0)).0 == text);
        assert(!span_applies(spans[0], text.len() as int));
        assert(apply_span(text, spans[0]) == text);
        assert(spans.remove(0) =~= spans.drop_first());
    } else {
        let s = spans[0];
        assert(spans.take(i)[0] == s);
        assert(spans.take(i).drop_first() =~= spans.drop_first().take(i - 1));
        assert(redact_fold(text, spans.take(i)).0 == redact_fold(
            apply_span(text, s),
            spans.drop_first().take(i - 1),
        ).0);
        assert(spans.drop_first()[i - 1] == spans[i]);
        lemma_out_of_bounds_span_skipped(apply_span(text, s), spans.drop_first(), i - 1);
        assert(spans.remove(i)[0] == s);
        assert(spans.remove(i).drop_first() =~= spans.drop_first().remove(i - 1));
    }
}

} // verus!
