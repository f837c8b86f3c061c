//! The batch coordinator: one recognition call for a whole list of
//! texts, then the redaction engine once per text.
//!
//! Results come back in input order. Per-text processing time is not
//! measured in batch mode (each result reports zero); only the batch
//! total is meaningful. The batch entity count is the sum of the
//! per-text counts, saturating at the machine limit.

use vstd::prelude::*;
use crate::models::BatchRedactResponse;
use crate::models::RedactionOptions;
use crate::models::RedactResponse;
use crate::models::Span;
use crate::redaction::apply_redactions;
use crate::redaction::is_redaction_of;
use crate::redaction::matches_redaction;
use crate::redaction::sort_spans;
use crate::redaction::sorted_desc;

verus! {

/// The sum of the per-text entity counts.
pub open spec fn sum_entities(rs: Seq<RedactResponse>) -> int
    decreases rs.len(),
{
    if rs.len() == 0 {
        0
    } else {
        sum_entities(rs.drop_last()) + rs.last().entities_found
    }
}

/// The all-zero batch result an empty text list earns, with no engine
/// call.
pub fn empty_batch_response() -> (r: BatchRedactResponse)
    ensures
        r.results@.len() == 0,
        r.total_processing_time_ms == 0,
        r.total_entities_found == 0,
{
    BatchRedactResponse {
        results: Vec::new(),
        total_processing_time_ms: 0,
        total_entities_found: 0,
    }
}

/// Redact a batch: the i-th result redacts the i-th text under the
/// i-th span set, in input order. Each result's own processing time is
/// zero; the batch total is the caller's measurement of the one
/// recognition call plus the per-text redactions.
pub fn batch_redact_text(
    texts: &Vec<Vec<u8>>,
    spans_per_text: Vec<Vec<Span>>,
    options: &RedactionOptions,
    total_elapsed_ms: u128,
) -> (r: BatchRedactResponse)
    requires
        spans_per_text@.len() == texts@.len(),
    ensures
        r.results@.len() == texts@.len(),
        forall|i: int|
            0 <= i < texts@.len() ==> is_redaction_of(
                texts@[i]@,
                spans_per_text@[i]@,
                #[trigger] r.results@[i],
                options.include_confidence,
                0,
            ),
        r.total_processing_time_ms == total_elapsed_ms,
        r.total_entities_found == if sum_entities(r.results@) <= usize::MAX {
            sum_entities(r.results@)
        } else {
            usize::MAX as int
        },
{
    let ghost all_spans = spans_per_text@;
    let mut remaining = spans_per_text;
    let mut results: Vec<RedactResponse> = Vec::new();
    let mut total: usize = 0;
    let n = texts.len();
    let mut i: usize = 0;
    while i < n
        invariant
            n == texts@.len(),
            i <= n,
            all_spans.len() == n,
            remaining@ == all_spans.skip(i as int),
            results@.len() == i,
            forall|k: int|
                0 <= k < i ==> is_redaction_of(
                    texts@[k]@,
                    all_spans[k]@,
                    #[trigger] results@[k],
                    options.include_confidence,
                    0,
                ),
            total == if sum_entities(results@) <= usize::MAX {
                sum_entities(results@)
            } else {
                usize::MAX as int
            },
        decreases n - i,
    {
        let ghost remaining0 = remaining@;
        let spans_i = remaining.remove(0);
        proof {
            assert(spans_i == all_spans[i as int]);
            assert(remaining0.remove(0) =~= all_spans.skip(i as int + 1));
        }
        let ghost spans0 = spans_i@;
        let sorted = sort_spans(spans_i);
        let r_i = apply_redactions(&texts[i], &sorted, options.include_confidence, 0);
        proof {
            assert(sorted@.to_multiset() == spans0.to_multiset() && sorted_desc(sorted@)
                && matches_redaction(texts@[i as int]@, sorted@, r_i, options.include_confidence, 0));
        }
        let found = r_i.entities_found;
        let ghost results0 = results@;
        results.push(r_i);
        proof {
            assert(results@.drop_last() =~= results0);
            assert(sum_entities(results@) == sum_entities(results0) + found);
        }
        if usize::MAX - total >= found {
            total = total + found;
        } else {
            total = usize::MAX;
        }
        i += 1;
    }
    proof {
        assert(remaining@.len() == 0);
    }
    BatchRedactResponse {
        results,
        total_processing_time_ms: total_elapsed_ms,
        total_entities_found: total,
    }
}

} // verus!
