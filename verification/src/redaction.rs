//! The redaction engine: offset-based rewriting of one text.
//!
//! Given a text and the labeled spans an entity-recognition engine
//! detected in it, the engine sorts the spans by begin offset,
//! descending, and replaces each in-range span's bytes by `[LABEL]`.
//! Replacing from the back keeps the not-yet-processed offsets valid,
//! since every remaining span starts at or before the one just
//! replaced. A span whose bounds do not fit the text at its turn is
//! skipped silently: it reaches neither the text nor the statistics.

use vstd::prelude::*;
use vstd::seq_lib::group_to_multiset_ensures;
use vstd::seq_lib::to_multiset_insert;
use crate::models::RedactResponse;
use crate::models::Span;

verus! {

/// ASCII whitespace: space, tab, line feed, vertical tab, form feed,
/// carriage return.
///
/// Texts here are byte sequences addressed by byte offsets, so the
/// whitespace class is deliberately the ASCII one: a text blank only
/// by Unicode whitespace (say U+00A0) is not treated as blank and goes
/// to the recognition engine like any other text.
pub open spec fn is_ws(b: u8) -> bool {
    b == 32 || (9 <= b && b <= 13)
}

/// A text is blank when every byte of it is whitespace; the empty text
/// is blank.
pub open spec fn is_blank(s: Seq<u8>) -> bool {
    forall|i: int| 0 <= i < s.len() ==> is_ws(s[i])
}

/// `s` without its leading whitespace.
pub open spec fn trim_front(s: Seq<u8>) -> Seq<u8>
    decreases s.len(),
{
    if s.len() > 0 && is_ws(s[0]) {
        trim_front(s.drop_first())
    } else {
        s
    }
}

/// `s` without its trailing whitespace.
pub open spec fn trim_back(s: Seq<u8>) -> Seq<u8>
    decreases s.len(),
{
    if s.len() > 0 && is_ws(s.last()) {
        trim_back(s.drop_last())
    } else {
        s
    }
}

/// `s` without leading and trailing whitespace.
pub open spec fn trimmed(s: Seq<u8>) -> Seq<u8> {
    trim_back(trim_front(s))
}

/// When the first `i` bytes are whitespace, trimming the front ignores
/// them.
proof fn lemma_trim_front_skip(s: Seq<u8>, i: int)
    requires
        0 <= i <= s.len(),
        forall|k: int| 0 <= k < i ==> is_ws(s[k]),
    ensures
        trim_front(s) == trim_front(s.skip(i)),
    decreases i,
{
    if i == 0 {
        assert(s.skip(0) =~= s);
    } else {
        assert(is_ws(s[0]));
        lemma_trim_front_skip(s.drop_first(), i - 1);
        assert(s.drop_first().skip(i - 1) =~= s.skip(i));
    }
}

/// When the bytes from `j` on are whitespace, trimming the back
/// ignores them.
proof fn lemma_trim_back_take(s: Seq<u8>, j: int)
    requires
        0 <= j <= s.len(),
        forall|k: int| j <= k < s.len() ==> is_ws(s[k]),
    ensures
        trim_back(s) == trim_back(s.take(j)),
    decreases s.len() - j,
{
    if j == s.len() {
        assert(s.take(j) =~= s);
    } else {
        assert(is_ws(s.last()));
        lemma_trim_back_take(s.drop_last(), j);
        assert(s.drop_last().take(j) =~= s.take(j));
    }
}

/// Trimming the front keeps any non-whitespace byte.
proof fn lemma_trim_front_empty_means_blank(s: Seq<u8>)
    requires
        trim_front(s).len() == 0,
    ensures
        is_blank(s),
    decreases s.len(),
{
    if s.len() > 0 {
        assert(is_ws(s[0]));
        lemma_trim_front_empty_means_blank(s.drop_first());
        assert forall|i: int| 0 <= i < s.len() implies is_ws(s[i]) by {
            if i > 0 {
                assert(s[i] == s.drop_first()[i - 1]);
            }
        }
    }
}

/// Trimming the back keeps any non-whitespace byte.
proof fn lemma_trim_back_empty_means_blank(s: Seq<u8>)
    requires
        trim_back(s).len() == 0,
    ensures
        is_blank(s),
    decreases s.len(),
{
    if s.len() > 0 {
        assert(is_ws(s.last()));
        lemma_trim_back_empty_means_blank(s.drop_last());
        assert forall|i: int| 0 <= i < s.len() implies is_ws(s[i]) by {
            if i < s.len() - 1 {
                assert(s[i] == s.drop_last()[i]);
            }
        }
    }
}

/// A trimmed front starts with a non-whitespace byte, unless it is
/// empty.
proof fn lemma_trim_front_head(s: Seq<u8>)
    ensures
        trim_front(s).len() > 0 ==> !is_ws(trim_front(s)[0]),
    decreases s.len(),
{
    if s.len() > 0 && is_ws(s[0]) {
        lemma_trim_front_head(s.drop_first());
    }
}

/// A text trims to the empty text exactly when it is blank.
pub proof fn lemma_blank_trims_to_empty(s: Seq<u8>)
    ensures
        is_blank(s) <==> trimmed(s).len() == 0,
{
    if is_blank(s) {
        lemma_trim_front_skip(s, s.len() as int);
        assert(s.skip(s.len() as int) =~= Seq::<u8>::empty());
    }
    if trimmed(s).len() == 0 {
        lemma_trim_back_empty_means_blank(trim_front(s));
        lemma_trim_front_head(s);
        assert(trim_front(s).len() == 0);
        lemma_trim_front_empty_means_blank(s);
    }
}

fn is_ws_byte(b: u8) -> (r: bool)
    ensures
        r == is_ws(b),
{
    b == 32 || (9 <= b && b <= 13)
}

/// Strip leading and trailing ASCII whitespace from a text.
pub fn trim_whitespace(text: &Vec<u8>) -> (r: Vec<u8>)
    ensures
        r@ == trimmed(text@),
{
    let n = text.len();
    let mut start: usize = 0;
    while start < n && is_ws_byte(text[start])
        invariant
            start <= n,
            n == text@.len(),
            forall|k: int| 0 <= k < start ==> is_ws(text@[k]),
        decreases n - start,
    {
        start += 1;
    }
    proof {
        lemma_trim_front_skip(text@, start as int);
    }
    if start == n {
        proof {
            assert(text@.skip(start as int) =~= Seq::<u8>::empty());
        }
        return Vec::new();
    }
    // text@[start] is not whitespace, so trim_front(text@) == text@.skip(start)
    let mut end: usize = n;
    while end > start && is_ws_byte(text[end - 1])
        invariant
            start <= end <= n,
            n == text@.len(),
            !is_ws(text@[start as int]),
            forall|k: int| end <= k < n ==> is_ws(text@[k]),
        decreases end,
    {
        end -= 1;
    }
    // text@[end - 1] is not whitespace: end > start since text@[start] is not ws
    proof {
        let front = text@.skip(start as int);
        assert(trim_front(text@) == front);
        assert(forall|k: int|
            end - start <= k < front.len() ==> is_ws(#[trigger] front[k]));
        lemma_trim_back_take(front, end - start);
        assert(front.take(end - start) =~= text@.subrange(start as int, end as int));
        let mid = text@.subrange(start as int, end as int);
        assert(mid.last() == text@[end - 1]);
        assert(!is_ws(mid.last()));
        assert(trim_back(mid) == mid);
    }
    let mut r: Vec<u8> = Vec::new();
    let mut i: usize = start;
    while i < end
        invariant
            start <= i <= end <= n,
            n == text@.len(),
            r@ == text@.subrange(start as int, i as int),
        decreases end - i,
    {
        r.push(text[i]);
        proof {
            assert(text@.subrange(start as int, i as int).push(text@[i as int]) =~= text@.subrange(
                start as int,
                i as int + 1,
            ));
        }
        i += 1;
    }
    r
}

/// A span fits a text of `len` bytes when its range is well formed and
/// lies inside the text.
pub open spec fn span_applies(s: Span, len: int) -> bool {
    s.begin <= s.end && s.end <= len
}

/// The replacement token for a label: the label's bytes in square
/// brackets, exactly as the engine produced them.
pub open spec fn bracketed(label: Seq<u8>) -> Seq<u8> {
    seq![91u8] + label + seq![93u8]
}

/// One redaction step: replace the span's range by its bracketed
/// label, or leave the text unchanged when the span does not fit.
pub open spec fn apply_span(text: Seq<u8>, s: Span) -> Seq<u8> {
    if span_applies(s, text.len() as int) {
        text.take(s.begin as int) + bracketed(s.label@) + text.skip(s.end as int)
    } else {
        text
    }
}

/// Redact the spans in order, left to right over the sequence, and
/// collect the statistics of the spans that were applied: the
/// rewritten text, the labels, and the confidence scores, both lists
/// in processing order.
pub open spec fn redact_fold(text: Seq<u8>, spans: Seq<Span>) -> (Seq<u8>, Seq<Seq<u8>>, Seq<u32>)
    decreases spans.len(),
{
    if spans.len() == 0 {
        (text, Seq::<Seq<u8>>::empty(), Seq::<u32>::empty())
    } else {
        let s = spans[0];
        let rest = redact_fold(apply_span(text, s), spans.drop_first());
        if span_applies(s, text.len() as int) {
            (rest.0, seq![s.label@] + rest.1, seq![s.score] + rest.2)
        } else {
            rest
        }
    }
}

/// Processing one more span at the back extends the fold by one step
/// on the text folded so far.
pub proof fn lemma_fold_snoc(text: Seq<u8>, spans: Seq<Span>, x: Span)
    ensures
        redact_fold(text, spans.push(x)).0 == apply_span(redact_fold(text, spans).0, x),
        redact_fold(text, spans.push(x)).1 == if span_applies(
            x,
            redact_fold(text, spans).0.len() as int,
        ) {
            redact_fold(text, spans).1.push(x.label@)
        } else {
            redact_fold(text, spans).1
        },
        redact_fold(text, spans.push(x)).2 == if span_applies(
            x,
            redact_fold(text, spans).0.len() as int,
        ) {
            redact_fold(text, spans).2.push(x.score)
        } else {
            redact_fold(text, spans).2
        },
    decreases spans.len(),
{
    if spans.len() == 0 {
        assert(spans.push(x)[0] == x);
        let e = spans.push(x).drop_first();
        assert(e.len() == 0);
        let applied = apply_span(text, x);
        assert(redact_fold(applied, e).0 == applied);
        assert(redact_fold(applied, e).1 == Seq::<Seq<u8>>::empty());
        assert(redact_fold(applied, e).2 == Seq::<u32>::empty());
        if span_applies(x, text.len() as int) {
            assert(redact_fold(text, spans.push(x)).0 == applied);
            assert(redact_fold(text, spans.push(x)).1 == seq![x.label@]);
            assert(redact_fold(text, spans.push(x)).2 == seq![x.score]);
            assert(seq![x.label@] =~= Seq::<Seq<u8>>::empty().push(x.label@));
            assert(seq![x.score] =~= Seq::<u32>::empty().push(x.score));
            assert(redact_fold(text, spans).1 =~= Seq::<Seq<u8>>::empty());
            assert(redact_fold(text, spans).2 =~= Seq::<u32>::empty());
        } else {
            assert(redact_fold(text, spans.push(x)).0 == applied);
            assert(redact_fold(text, spans.push(x)).1 == Seq::<Seq<u8>>::empty());
            assert(redact_fold(text, spans).1 =~= Seq::<Seq<u8>>::empty());
            assert(redact_fold(text, spans).2 =~= Seq::<u32>::empty());
        }
        assert(redact_fold(text, spans).0 == text);
    } else {
        let s = spans[0];
        assert(spans.push(x)[0] == s);
        assert(spans.push(x).drop_first() =~= spans.drop_first().push(x));
        lemma_fold_snoc(apply_span(text, s), spans.drop_first(), x);
        let restf = redact_fold(apply_span(text, s), spans.drop_first());
        let rest2 = redact_fold(apply_span(text, s), spans.push(x).drop_first());
        assert(redact_fold(text, spans.push(x)) == if span_applies(s, text.len() as int) {
            (rest2.0, seq![s.label@] + rest2.1, seq![s.score] + rest2.2)
        } else {
            rest2
        });
        assert(rest2 == redact_fold(apply_span(text, s), spans.drop_first().push(x)));
        if span_applies(s, text.len() as int) {
            assert(seq![s.label@] + restf.1.push(x.label@) =~= (seq![s.label@] + restf.1).push(
                x.label@,
            ));
            assert(seq![s.score] + restf.2.push(x.score) =~= (seq![s.score] + restf.2).push(
                x.score,
            ));
        }
    }
}

/// Replace the bytes `[begin, end)` of `text` by the bracketed label.
fn splice(text: &Vec<u8>, begin: usize, end: usize, label: &Vec<u8>) -> (r: Vec<u8>)
    requires
        begin <= end,
        end <= text@.len(),
    ensures
        r@ == text@.take(begin as int) + bracketed(label@) + text@.skip(end as int),
{
    let mut r: Vec<u8> = Vec::new();
    let mut i: usize = 0;
    while i < begin
        invariant
            i <= begin <= end <= text@.len(),
            r@ == text@.take(i as int),
        decreases begin - i,
    {
        r.push(text[i]);
        proof {
            assert(text@.take(i as int).push(text@[i as int]) =~= text@.take(i as int + 1));
        }
        i += 1;
    }
    r.push(91u8);
    let mut j: usize = 0;
    while j < label.len()
        invariant
            begin <= end <= text@.len(),
            j <= label@.len(),
            r@ == text@.take(begin as int) + seq![91u8] + label@.take(j as int),
        decreases label@.len() - j,
    {
        r.push(label[j]);
        proof {
            assert((text@.take(begin as int) + seq![91u8] + label@.take(j as int)).push(
                label@[j as int],
            ) =~= text@.take(begin as int) + seq![91u8] + label@.take(j as int + 1));
        }
        j += 1;
    }
    r.push(93u8);
    proof {
        assert(label@.take(label@.len() as int) =~= label@);
        assert((text@.take(begin as int) + seq![91u8] + label@).push(93u8) =~= text@.take(
            begin as int,
        ) + bracketed(label@) + text@.subrange(end as int, end as int));
    }
    let mut k: usize = end;
    while k < text.len()
        invariant
            begin <= end <= k <= text@.len(),
            r@ == text@.take(begin as int) + bracketed(label@) + text@.subrange(
                end as int,
                k as int,
            ),
        decreases text@.len() - k,
    {
        r.push(text[k]);
        proof {
            assert((text@.take(begin as int) + bracketed(label@) + text@.subrange(
                end as int,
                k as int,
            )).push(text@[k as int]) =~= text@.take(begin as int) + bracketed(label@)
                + text@.subrange(end as int, k as int + 1));
        }
        k += 1;
    }
    proof {
        assert(text@.subrange(end as int, text@.len() as int) =~= text@.skip(end as int));
    }
    r
}

/// Spans in descending order of begin offset: the order in which
/// redaction applies them.
pub open spec fn sorted_desc(s: Seq<Span>) -> bool {
    forall|i: int, j: int| 0 <= i < j < s.len() ==> s[i].begin >= s[j].begin
}

/// Sort spans by begin offset, descending. Spans that start at the
/// same offset keep no particular order among themselves.
pub fn sort_spans(spans: Vec<Span>) -> (r: Vec<Span>)
    ensures
        sorted_desc(r@),
        r@.to_multiset() == spans@.to_multiset(),
{
    let ghost all = spans@;
    let mut rest = spans;
    let mut out: Vec<Span> = Vec::new();
    proof {
        broadcast use group_to_multiset_ensures;

        assert(out@.to_multiset().len() == 0);
        assert(out@.to_multiset().add(rest@.to_multiset()) =~= rest@.to_multiset());
    }
    while rest.len() > 0
        invariant
            sorted_desc(out@),
            out@.to_multiset().add(rest@.to_multiset()) == all.to_multiset(),
        decreases rest@.len(),
    {
        let ghost rest0 = rest@;
        let s = rest.pop().unwrap();
        proof {
            broadcast use group_to_multiset_ensures;

            assert(rest@.push(s) =~= rest0);
            assert(rest0.to_multiset() == rest@.to_multiset().insert(s));
        }
        let mut j: usize = 0;
        while j < out.len() && out[j].begin >= s.begin
            invariant
                j <= out@.len(),
                forall|k: int| 0 <= k < j ==> (#[trigger] out@[k]).begin >= s.begin,
            decreases out@.len() - j,
        {
            j += 1;
        }
        let ghost out0 = out@;
        out.insert(j, s);
        proof {
            broadcast use to_multiset_insert;

            assert(out@ == out0.insert(j as int, s));
            assert forall|a: int, b: int| 0 <= a < b < out@.len() implies (#[trigger] out@[a]).begin
                >= (#[trigger] out@[b]).begin by {
                if a < j && b == j {
                    assert(out@[a] == out0[a]);
                } else if a == j && b > j {
                    assert(out@[b] == out0[b - 1]);
                    assert(out0[j as int].begin < s.begin || j as int == out0.len());
                    assert(out0[b - 1].begin <= out0[j as int].begin || b - 1 == j);
                } else if a < j && b > j {
                    assert(out@[a] == out0[a]);
                    assert(out@[b] == out0[b - 1]);
                } else if a < j && b < j {
                    assert(out@[a] == out0[a]);
                    assert(out@[b] == out0[b]);
                } else {
                    assert(a > j || (a == j && b == j));
                    assert(out@[a] == out0[a - 1]);
                    assert(out@[b] == out0[b - 1]);
                }
            }
            assert(out@.to_multiset().add(rest@.to_multiset()) =~= out0.to_multiset().insert(
                s,
            ).add(rest@.to_multiset()));
            assert(out0.to_multiset().insert(s).add(rest@.to_multiset())
                =~= out0.to_multiset().add(rest@.to_multiset().insert(s)));
        }
    }
    proof {
        broadcast use group_to_multiset_ensures;

        assert(rest@.to_multiset().len() == 0);
        assert(out@.to_multiset().add(rest@.to_multiset()) =~= out@.to_multiset());
    }
    out
}

fn clone_bytes(v: &Vec<u8>) -> (r: Vec<u8>)
    ensures
        r@ == v@,
{
    let r = v.clone();
    proof {
        assert forall|i: int| 0 <= i < v@.len() implies r@[i] == v@[i] by {
            assert(cloned::<u8>(v@[i], r@[i]));
        }
        assert(r@ =~= v@);
    }
    r
}

/// An executable label list matches its mathematical counterpart
/// element by element.
pub open spec fn labels_match(v: Seq<Vec<u8>>, l: Seq<Seq<u8>>) -> bool {
    v.len() == l.len() && forall|i: int| 0 <= i < l.len() ==> (#[trigger] v[i])@ == l[i]
}

/// Redact a text with spans already in descending begin order: apply
/// each span in turn, skipping any whose bounds do not fit the text at
/// its turn, and report the statistics of the applied spans. When
/// `include_confidence` is false the score list stays empty; the count
/// and the label list are unaffected.
pub fn apply_redactions(
    text: &Vec<u8>,
    spans: &Vec<Span>,
    include_confidence: bool,
    elapsed_ms: u128,
) -> (r: RedactResponse)
    ensures
        matches_redaction(text@, spans@, r, include_confidence, elapsed_ms),
{
    let mut cur = clone_bytes(text);
    let mut types: Vec<Vec<u8>> = Vec::new();
    let mut scores: Vec<u32> = Vec::new();
    let n = spans.len();
    let mut i: usize = 0;
    proof {
        assert(spans@.take(0) =~= Seq::<Span>::empty());
    }
    while i < n
        invariant
            n == spans@.len(),
            i <= n,
            cur@ == redact_fold(text@, spans@.take(i as int)).0,
            labels_match(types@, redact_fold(text@, spans@.take(i as int)).1),
            scores@ == if include_confidence {
                redact_fold(text@, spans@.take(i as int)).2
            } else {
                Seq::<u32>::empty()
            },
        decreases n - i,
    {
        proof {
            assert(spans@.take(i as int).push(spans@[i as int]) =~= spans@.take(i as int + 1));
            lemma_fold_snoc(text@, spans@.take(i as int), spans@[i as int]);
        }
        let s = &spans[i];
        let ghost types0 = types@;
        if s.begin <= s.end && s.end <= cur.len() {
            let replaced = splice(&cur, s.begin, s.end, &s.label);
            cur = replaced;
            types.push(clone_bytes(&s.label));
            if include_confidence {
                scores.push(s.score);
            }
            proof {
                let l = redact_fold(text@, spans@.take(i as int + 1)).1;
                assert forall|k: int| 0 <= k < l.len() implies (#[trigger] types@[k])@ == l[k] by {
                    if k < l.len() - 1 {
                        assert(types@[k] == types0[k]);
                    }
                }
            }
        }
        i += 1;
    }
    proof {
        assert(spans@.take(n as int) =~= spans@);
    }
    let entities_found = types.len();
    RedactResponse {
        redacted_text: cur,
        processing_time_ms: elapsed_ms,
        entities_found,
        entity_types: types,
        confidence_scores: scores,
    }
}

/// What a redaction result must look like for a given processing
/// order of the spans.
pub open spec fn matches_redaction(
    text: Seq<u8>,
    sorted: Seq<Span>,
    r: RedactResponse,
    include_confidence: bool,
    elapsed_ms: u128,
) -> bool {
    let f = redact_fold(text, sorted);
    &&& r.redacted_text@ == f.0
    &&& labels_match(r.entity_types@, f.1)
    &&& r.entities_found == f.1.len()
    &&& r.confidence_scores@ == if include_confidence {
        f.2
    } else {
        Seq::<u32>::empty()
    }
    &&& r.processing_time_ms == elapsed_ms
}

/// `r` redacts `text` under `spans`: it is the fold of some descending
/// ordering of the spans. Spans that begin at the same offset may be
/// processed in either order, so the ordering is existential; when all
/// begin offsets are distinct it is unique.
pub open spec fn is_redaction_of(
    text: Seq<u8>,
    spans: Seq<Span>,
    r: RedactResponse,
    include_confidence: bool,
    elapsed_ms: u128,
) -> bool {
    exists|sorted: Seq<Span>|
        sorted.to_multiset() == spans.to_multiset() && sorted_desc(sorted) && matches_redaction(
            text,
            sorted,
            r,
            include_confidence,
            elapsed_ms,
        )
}

/// Redact one text: sort the spans by begin offset, descending, then
/// apply them. Confidence scores are always reported for a single
/// text.
pub fn redact_text(text: &Vec<u8>, spans: Vec<Span>, elapsed_ms: u128) -> (r: RedactResponse)
    ensures
        is_redaction_of(text@, spans@, r, true, elapsed_ms),
{
    let ghost spans0 = spans@;
    let sorted = sort_spans(spans);
    let r = apply_redactions(text, &sorted, true, elapsed_ms);
    proof {
        assert(sorted@.to_multiset() == spans0.to_multiset() && sorted_desc(sorted@)
            && matches_redaction(text@, sorted@, r, true, elapsed_ms));
    }
    r
}

/// The all-zero result a blank input earns: empty text, no entities,
/// no time spent.
pub fn empty_response() -> (r: RedactResponse)
    ensures
        r.redacted_text@.len() == 0,
        r.processing_time_ms == 0,
        r.entities_found == 0,
        r.entity_types@.len() == 0,
        r.confidence_scores@.len() == 0,
{
    RedactResponse {
        redacted_text: Vec::new(),
        processing_time_ms: 0,
        entities_found: 0,
        entity_types: Vec::new(),
        confidence_scores: Vec::new(),
    }
}

/// Decide the single-text pipeline's short-circuit in one step: a
/// text that is empty or all whitespace is answered at once with the
/// all-zero result — empty text, no entities, no scores, zero
/// processing time — and the recognition engine is never invoked for
/// it; any other text comes back trimmed, for the caller to recognize
/// and then redact.
pub fn redact_precheck(text: &Vec<u8>) -> (r: Result<Vec<u8>, RedactResponse>)
    ensures
        r is Ok <==> !is_blank(text@),
        match r {
            Ok(t) => t@ == trimmed(text@) && t@.len() > 0,
            Err(done) => trimmed(text@).len() == 0 && done.redacted_text@.len() == 0
                && done.processing_time_ms == 0 && done.entities_found == 0
                && done.entity_types@.len() == 0 && done.confidence_scores@.len() == 0,
        },
{
    proof {
        lemma_blank_trims_to_empty(text@);
    }
    let t = trim_whitespace(text);
    if t.len() == 0 {
        Err(empty_response())
    } else {
        Ok(t)
    }
}

} // verus!
