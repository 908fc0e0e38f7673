//! General properties of the paragraph scan, stated over its specification
//! and proved for all inputs.

use vstd::prelude::*;
use crate::matcher::{has_match, suffix_candidate, pick_pattern};
use crate::find_and_replace::{
    spec_scan, spec_paragraph, spec_spans_wf, spec_span_len, spec_span_gaps, spec_match_emit,
    spec_first_span, spec_stream, spec_stream_from, spec_tl, lemma_tl_mono,
};

verus! {

/// The text of spans `0..k`, concatenated: the characters the automaton
/// reads for one paragraph.
pub open spec fn spec_text_upto(input: Seq<u8>, spans: Seq<(usize, usize)>, k: int) -> Seq<u8>
    decreases k,
{
    if k <= 0 {
        Seq::empty()
    } else {
        spec_text_upto(input, spans, k - 1) + input.subrange(
            spans[k - 1].0 as int,
            spans[k - 1].1 as int,
        )
    }
}

/// The whole paragraph text: all span contents in order.
pub open spec fn spec_text(input: Seq<u8>, spans: Seq<(usize, usize)>) -> Seq<u8> {
    spec_text_upto(input, spans, spans.len() as int)
}

/// The pattern occurs in `text` starting at offset `t`.
pub open spec fn occurs_at(text: Seq<u8>, pat: Seq<u8>, t: int) -> bool {
    0 <= t && t + pat.len() <= text.len() && text.subrange(t, t + pat.len()) == pat
}

/// No pattern ends anywhere in `(c, text.len()]` when scanning a window that
/// starts at `w`.
pub open spec fn window_silent(pats: Seq<Seq<u8>>, text: Seq<u8>, w: int, c: int) -> bool {
    forall|e: int| c < e <= text.len() ==> !has_match(pats, #[trigger] text.subrange(w, e))
}

/// The text of spans `0..k` is as long as their content total.
proof fn lemma_text_upto_len(
    input: Seq<u8>,
    spans: Seq<(usize, usize)>,
    lo: int,
    hi: int,
    k: int,
)
    requires
        spec_spans_wf(spans, lo, hi),
        hi == input.len(),
        0 <= k <= spans.len(),
    ensures
        spec_text_upto(input, spans, k).len() == spec_tl(spans, k),
    decreases k,
{
    if k > 0 {
        lemma_text_upto_len(input, spans, lo, hi, k - 1);
    }
}

/// Byte `o` of span `k` is byte `tl(k) + o` of the paragraph text.
#[verifier::rlimit(100)]
proof fn lemma_text_index(
    input: Seq<u8>,
    spans: Seq<(usize, usize)>,
    lo: int,
    hi: int,
    m: int,
    k: int,
    o: int,
)
    requires
        spec_spans_wf(spans, lo, hi),
        hi == input.len(),
        0 <= k < m <= spans.len(),
        0 <= o < spec_span_len(spans, k),
    ensures
        spec_text_upto(input, spans, m)[spec_tl(spans, k) + o] == input[spans[k].0 + o],
    decreases m,
{
    lemma_text_upto_len(input, spans, lo, hi, m - 1);
    lemma_tl_mono(spans, lo, hi, k + 1, m);
    lemma_tl_mono(spans, lo, hi, 0, k);
    if m - 1 == k {
        let s = spec_text_upto(input, spans, m - 1);
        let t = input.subrange(spans[k].0 as int, spans[k].1 as int);
        assert(spec_text_upto(input, spans, m) == s + t);
        assert(s.len() == spec_tl(spans, k));
        assert((s + t)[s.len() + o] == t[o]);
        assert(t[o] == input[spans[k].0 + o]);
        assert(spec_text_upto(input, spans, m)[spec_tl(spans, k) + o] == input[spans[k].0 + o]);
    } else {
        lemma_text_index(input, spans, lo, hi, m - 1, k, o);
        assert(spec_tl(spans, k) + o < spec_tl(spans, k + 1) <= spec_tl(spans, m - 1)) by {
            lemma_tl_mono(spans, lo, hi, k + 1, m - 1);
        }
        let s = spec_text_upto(input, spans, m - 1);
        let t = input.subrange(spans[m - 1].0 as int, spans[m - 1].1 as int);
        assert(spec_text_upto(input, spans, m) == s + t);
        assert((s + t)[spec_tl(spans, k) + o] == s[spec_tl(spans, k) + o]);
    }
}

/// A match in any window is an occurrence of some pattern ending at the
/// window's end.
proof fn lemma_match_is_occurrence(text: Seq<u8>, pats: Seq<Seq<u8>>, w: int, e: int)
    requires
        0 <= w <= e <= text.len(),
        has_match(pats, text.subrange(w, e)),
    ensures
        exists|j: int|
            0 <= j < pats.len() && (#[trigger] pats[j]).len() <= e - w && occurs_at(
                text,
                pats[j],
                e - pats[j].len(),
            ),
{
    let fed = text.subrange(w, e);
    let j = choose|j: int| 0 <= j < pats.len() && (#[trigger] pats[j]).is_suffix_of(fed);
    let pl = pats[j].len() as int;
    assert(fed.subrange(fed.len() - pl, fed.len() as int) =~= text.subrange(e - pl, e));
    assert(text.subrange(e - pl, e) == pats[j]);
    assert(occurs_at(text, pats[j], e - pl));
}

/// A scan that meets no match point emits nothing and leaves the reported
/// cursor alone.
proof fn lemma_scan_silent(
    input: Seq<u8>,
    spans: Seq<(usize, usize)>,
    pats: Seq<Seq<u8>>,
    reps: Seq<Seq<u8>>,
    lo: int,
    hi: int,
    k: int,
    o: int,
    w: int,
    rep: int,
)
    requires
        spec_spans_wf(spans, lo, hi),
        hi == input.len(),
        0 <= k <= spans.len(),
        k < spans.len() ==> 0 <= o <= spec_span_len(spans, k),
        k == spans.len() ==> o == 0,
        0 <= w <= spec_tl(spans, k) + o,
        window_silent(pats, spec_text(input, spans), w, spec_tl(spans, k) + o),
    ensures
        spec_scan(
            input,
            spans,
            pats,
            reps,
            k,
            o,
            spec_text(input, spans).subrange(w, spec_tl(spans, k) + o),
            rep,
        ) == (Seq::<u8>::empty(), rep),
    decreases spans.len() - k, spec_span_len(spans, k) - o,
{
    let text = spec_text(input, spans);
    let c = spec_tl(spans, k) + o;
    lemma_text_upto_len(input, spans, lo, hi, spans.len() as int);
    lemma_tl_mono(spans, lo, hi, k, spans.len() as int);
    if k == spans.len() {
    } else if o == spec_span_len(spans, k) {
        assert(spec_tl(spans, k + 1) == c);
        lemma_scan_silent(input, spans, pats, reps, lo, hi, k + 1, 0, w, rep);
    } else {
        assert(c + 1 <= spec_tl(spans, k + 1));
        lemma_tl_mono(spans, lo, hi, k + 1, spans.len() as int);
        let b = input[spans[k].0 + o];
        lemma_text_index(input, spans, lo, hi, spans.len() as int, k, o);
        assert(text.subrange(w, c).push(b) =~= text.subrange(w, c + 1));
        assert(!has_match(pats, text.subrange(w, c + 1)));
        lemma_scan_silent(input, spans, pats, reps, lo, hi, k, o + 1, w, rep);
    }
}

/// A paragraph in whose text no configured pattern occurs is left untouched:
/// its scan emits nothing and the reported cursor stays where it was, so the
/// surrounding copy passes all its bytes through unchanged. In particular a
/// placeholder split across separate paragraphs, or placeholder-shaped text
/// outside the collected text nodes, is never replaced.
pub proof fn lemma_no_occurrence_untouched(
    input: Seq<u8>,
    spans: Seq<(usize, usize)>,
    pats: Seq<Seq<u8>>,
    reps: Seq<Seq<u8>>,
    rep: int,
)
    requires
        spec_spans_wf(spans, rep, input.len() as int),
        0 <= rep <= input.len(),
        forall|j: int, t: int|
            0 <= j < pats.len() ==> !#[trigger] occurs_at(spec_text(input, spans), pats[j], t),
    ensures
        spec_paragraph(input, spans, pats, reps, rep) == (Seq::<u8>::empty(), rep),
{
    let text = spec_text(input, spans);
    assert forall|e: int| 0 < e <= text.len() implies !has_match(
        pats,
        #[trigger] text.subrange(0, e),
    ) by {
        if has_match(pats, text.subrange(0, e)) {
            lemma_match_is_occurrence(text, pats, 0, e);
        }
    }
    assert(spec_tl(spans, 0) == 0);
    lemma_scan_silent(input, spans, pats, reps, rep, input.len() as int, 0, 0, 0, rep);
    assert(text.subrange(0, 0) =~= Seq::<u8>::empty());
}

/// A scan of one span whose only match point is the end of the occurrence
/// at `t0`, with `a0` the only pattern ending there: everything before the
/// occurrence is copied, the replacement for `a0` is written, and the cursor
/// lands just past the occurrence.
proof fn lemma_fire_from(
    input: Seq<u8>,
    spans: Seq<(usize, usize)>,
    pats: Seq<Seq<u8>>,
    reps: Seq<Seq<u8>>,
    lo: int,
    hi: int,
    rep: int,
    a0: int,
    t0: int,
    o: int,
)
    requires
        spans.len() == 1,
        spec_spans_wf(spans, lo, hi),
        hi == input.len(),
        0 <= a0 < pats.len(),
        pats[a0].len() >= 1,
        occurs_at(spec_text(input, spans), pats[a0], t0),
        forall|e: int|
            0 < e <= spec_text(input, spans).len() && e != t0 + pats[a0].len() ==> !has_match(
                pats,
                #[trigger] spec_text(input, spans).subrange(0, e),
            ),
        forall|j: int|
            #[trigger] suffix_candidate(
                pats,
                spec_text(input, spans).subrange(0, t0 + pats[a0].len() as int),
                j,
            ) ==> j == a0,
        0 <= o <= t0 + pats[a0].len() - 1,
    ensures
        spec_scan(
            input,
            spans,
            pats,
            reps,
            0,
            o,
            spec_text(input, spans).subrange(0, o),
            rep,
        ) == (input.subrange(rep, spans[0].0 + t0) + reps[a0], spans[0].0 + t0 + pats[a0].len()),
    decreases t0 + pats[a0].len() - o,
{
    let text = spec_text(input, spans);
    let plen = pats[a0].len() as int;
    let e0 = t0 + plen;
    lemma_text_upto_len(input, spans, lo, hi, 1);
    assert(spec_tl(spans, 0) == 0);
    assert(spec_tl(spans, 1) == spec_span_len(spans, 0));
    assert(text.len() == spec_span_len(spans, 0));
    assert(e0 <= text.len());
    let b = input[spans[0].0 + o];
    lemma_text_index(input, spans, lo, hi, 1, 0, o);
    assert(text.subrange(0, o).push(b) =~= text.subrange(0, o + 1));
    if o < e0 - 1 {
        assert(!has_match(pats, text.subrange(0, o + 1)));
        lemma_fire_from(input, spans, pats, reps, lo, hi, rep, a0, t0, o + 1);
    } else {
        assert(o == e0 - 1);
        // the occurrence fires here, and only pattern `a0` can be reported
        assert(text.subrange(t0, e0) == pats[a0]);
        assert(text.subrange(0, e0).subrange(e0 - plen, e0) =~= text.subrange(t0, e0));
        assert(pats[a0].is_suffix_of(text.subrange(0, e0)));
        assert(suffix_candidate(pats, text.subrange(0, e0), a0));
        assert(has_match(pats, text.subrange(0, e0)));
        let picked = pick_pattern(pats, text.subrange(0, e0));
        assert(picked == a0) by {
            assert(suffix_candidate(pats, text.subrange(0, e0), a0) && (forall|j2: int|
                suffix_candidate(pats, text.subrange(0, e0), j2) ==> j2 == a0));
        }
        // the whole occurrence lies inside the single span
        assert(plen <= o + 1);
        // after the replacement the rest of the span is silent
        assert forall|e: int| e0 < e <= text.len() implies !has_match(
            pats,
            #[trigger] text.subrange(e0, e),
        ) by {
            if has_match(pats, text.subrange(e0, e)) {
                lemma_match_is_occurrence(text, pats, e0, e);
                let j = choose|j: int|
                    0 <= j < pats.len() && (#[trigger] pats[j]).len() <= e - e0 && occurs_at(
                        text,
                        pats[j],
                        e - pats[j].len(),
                    );
                assert(pats[j].subrange(
                    pats[j].len() - pats[j].len(),
                    pats[j].len() as int,
                ) =~= pats[j]);
                assert(text.subrange(0, e).subrange(e - pats[j].len(), e) =~= text.subrange(
                    e - pats[j].len(),
                    e,
                ));
                assert(pats[j].is_suffix_of(text.subrange(0, e)));
                assert(has_match(pats, text.subrange(0, e)));
            }
        }
        lemma_scan_silent(input, spans, pats, reps, lo, hi, 0, o + 1, e0, spans[0].0 + o + 1);
        assert(text.subrange(e0, spec_tl(spans, 0) + (o + 1)) =~= Seq::<u8>::empty());
        // assemble the unfolding of the match step
        assert(spec_scan(input, spans, pats, reps, 0, o + 1, Seq::<u8>::empty(), spans[0].0 + o
            + 1) == (Seq::<u8>::empty(), spans[0].0 + o + 1));
        assert(spec_scan(input, spans, pats, reps, 0, o, text.subrange(0, o), rep) == (
            input.subrange(rep, spans[0].0 + o + 1 - plen) + reps[a0] + Seq::<u8>::empty(),
            spans[0].0 + o + 1,
        ));
        assert(input.subrange(rep, spans[0].0 + t0) + reps[a0] + Seq::<u8>::empty()
            =~= input.subrange(rep, spans[0].0 + t0) + reps[a0]);
    }
}

/// Replacing a single placeholder that occurs exactly once in one text node:
/// the scan's output is the bytes before the occurrence, then the configured
/// value, and the cursor lands just past the occurrence — every other byte
/// of the node is left for the surrounding copy, unchanged.
pub proof fn lemma_single_replacement(
    input: Seq<u8>,
    a: usize,
    b: usize,
    pat: Seq<u8>,
    val: Seq<u8>,
    rep: int,
    t0: int,
)
    requires
        0 <= rep <= a <= b <= input.len(),
        pat.len() >= 1,
        occurs_at(input.subrange(a as int, b as int), pat, t0),
        forall|t: int| t != t0 ==> !occurs_at(input.subrange(a as int, b as int), pat, t),
    ensures
        spec_paragraph(input, seq![(a, b)], seq![pat], seq![val], rep) == (
            input.subrange(rep, a + t0) + val,
            a + t0 + pat.len(),
        ),
{
    let spans: Seq<(usize, usize)> = seq![(a, b)];
    let pats: Seq<Seq<u8>> = seq![pat];
    let reps: Seq<Seq<u8>> = seq![val];
    let text = spec_text(input, spans);
    assert(spec_spans_wf(spans, rep, input.len() as int));
    assert(text =~= input.subrange(a as int, b as int)) by {
        assert(spec_text_upto(input, spans, 0) =~= Seq::<u8>::empty());
        assert(text =~= spec_text_upto(input, spans, 0) + input.subrange(a as int, b as int));
    }
    assert forall|e: int| 0 < e <= text.len() && e != t0 + pat.len() implies !has_match(
        pats,
        #[trigger] text.subrange(0, e),
    ) by {
        if has_match(pats, text.subrange(0, e)) {
            lemma_match_is_occurrence(text, pats, 0, e);
            let j = choose|j: int|
                0 <= j < pats.len() && (#[trigger] pats[j]).len() <= e - 0 && occurs_at(
                    text,
                    pats[j],
                    e - pats[j].len(),
                );
            assert(j == 0);
            assert(occurs_at(text, pat, e - pat.len()));
            assert(e - pat.len() != t0);
            assert(false);
        }
    }
    assert forall|j: int|
        #[trigger] suffix_candidate(pats, text.subrange(0, t0 + pat.len() as int), j) implies j
        == 0 by {}
    lemma_fire_from(input, spans, pats, reps, rep, input.len() as int, rep, 0, t0, 0);
    assert(text.subrange(0, 0) =~= Seq::<u8>::empty());
}

/// The scan is single-pass: when pattern A's replacement equals pattern B's
/// literal and the node contains one occurrence of A and none of B, only
/// that occurrence is replaced — with A's value — and the written
/// replacement is never scanned again, so B's value never appears.
pub proof fn lemma_single_pass(
    input: Seq<u8>,
    a: usize,
    b: usize,
    pat_a: Seq<u8>,
    val_a: Seq<u8>,
    pat_b: Seq<u8>,
    val_b: Seq<u8>,
    rep: int,
    t0: int,
)
    requires
        0 <= rep <= a <= b <= input.len(),
        pat_a.len() >= 1,
        pat_b.len() >= 1,
        occurs_at(input.subrange(a as int, b as int), pat_a, t0),
        forall|t: int| t != t0 ==> !occurs_at(input.subrange(a as int, b as int), pat_a, t),
        forall|t: int| !occurs_at(input.subrange(a as int, b as int), pat_b, t),
    ensures
        spec_paragraph(input, seq![(a, b)], seq![pat_a, pat_b], seq![val_a, val_b], rep) == (
            input.subrange(rep, a + t0) + val_a,
            a + t0 + pat_a.len(),
        ),
{
    let spans: Seq<(usize, usize)> = seq![(a, b)];
    let pats: Seq<Seq<u8>> = seq![pat_a, pat_b];
    let reps: Seq<Seq<u8>> = seq![val_a, val_b];
    let text = spec_text(input, spans);
    assert(spec_spans_wf(spans, rep, input.len() as int));
    assert(text =~= input.subrange(a as int, b as int)) by {
        assert(spec_text_upto(input, spans, 0) =~= Seq::<u8>::empty());
        assert(text =~= spec_text_upto(input, spans, 0) + input.subrange(a as int, b as int));
    }
    assert forall|e: int| 0 < e <= text.len() && e != t0 + pat_a.len() implies !has_match(
        pats,
        #[trigger] text.subrange(0, e),
    ) by {
        if has_match(pats, text.subrange(0, e)) {
            lemma_match_is_occurrence(text, pats, 0, e);
            let j = choose|j: int|
                0 <= j < pats.len() && (#[trigger] pats[j]).len() <= e - 0 && occurs_at(
                    text,
                    pats[j],
                    e - pats[j].len(),
                );
            if j == 0 {
                assert(occurs_at(text, pat_a, e - pat_a.len()));
                assert(e - pat_a.len() != t0);
                assert(false);
            } else {
                assert(j == 1);
                assert(occurs_at(text, pat_b, e - pat_b.len()));
                assert(false);
            }
        }
    }
    assert forall|j: int|
        #[trigger] suffix_candidate(pats, text.subrange(0, t0 + pat_a.len() as int), j) implies j
        == 0 by {
        if j == 1 {
            let e0 = t0 + pat_a.len() as int;
            assert(pat_b.is_suffix_of(text.subrange(0, e0)));
            assert(text.subrange(0, e0).subrange(e0 - pat_b.len(), e0) =~= text.subrange(
                e0 - pat_b.len(),
                e0,
            ));
            assert(occurs_at(text, pat_b, e0 - pat_b.len()));
            assert(false);
        }
    }
    lemma_fire_from(input, spans, pats, reps, rep, input.len() as int, rep, 0, t0, 0);
    assert(text.subrange(0, 0) =~= Seq::<u8>::empty());
}


/// The scan of a three-span paragraph whose single pattern occurrence starts
/// in the first span, covers the whole second span and ends inside the
/// third: walking from position `(k, o)` before or at the fire point, the
/// scan emits the first span's head, the markup between the spans, and the
/// replacement, and the cursor lands after the occurrence's tail.
#[verifier::rlimit(100)]
proof fn lemma_split_run(
    input: Seq<u8>,
    spans: Seq<(usize, usize)>,
    pats: Seq<Seq<u8>>,
    reps: Seq<Seq<u8>>,
    lo: int,
    hi: int,
    rep: int,
    t0: int,
    k: int,
    o: int,
)
    requires
        spans.len() == 3,
        spec_spans_wf(spans, lo, hi),
        hi == input.len(),
        pats.len() == 1,
        reps.len() == 1,
        pats[0].len() >= 1,
        occurs_at(spec_text(input, spans), pats[0], t0),
        forall|t: int| t != t0 ==> !occurs_at(spec_text(input, spans), pats[0], t),
        0 <= t0 < spec_tl(spans, 1),
        t0 + pats[0].len() > spec_tl(spans, 2),
        0 <= k < 3,
        0 <= o <= spec_span_len(spans, k),
        spec_tl(spans, k) + o <= t0 + pats[0].len() - 1,
        k == 2 ==> o <= t0 + pats[0].len() - 1 - spec_tl(spans, 2),
    ensures
        spec_scan(
            input,
            spans,
            pats,
            reps,
            k,
            o,
            spec_text(input, spans).subrange(0, spec_tl(spans, k) + o),
            rep,
        ) == (
            input.subrange(rep, spans[0].0 + t0) + input.subrange(
                spans[0].1 as int,
                spans[1].0 as int,
            ) + input.subrange(spans[1].1 as int, spans[2].0 as int) + reps[0],
            spans[2].0 + (t0 + pats[0].len() - spec_tl(spans, 2)),
        ),
    decreases 3 - k, spec_span_len(spans, k) - o,
{
    let text = spec_text(input, spans);
    let plen = pats[0].len() as int;
    let e0 = t0 + plen;
    let o2 = e0 - 1 - spec_tl(spans, 2);
    lemma_text_upto_len(input, spans, lo, hi, 3);
    lemma_tl_mono(spans, lo, hi, k, 3);
    lemma_tl_mono(spans, lo, hi, 0, k);
    lemma_tl_mono(spans, lo, hi, k + 1, 3);
    assert(e0 <= text.len());
    // no pattern fires before the occurrence's end
    assert forall|e: int| 0 < e <= text.len() && e != e0 implies !has_match(
        pats,
        #[trigger] text.subrange(0, e),
    ) by {
        if has_match(pats, text.subrange(0, e)) {
            lemma_match_is_occurrence(text, pats, 0, e);
            let j = choose|j: int|
                0 <= j < pats.len() && (#[trigger] pats[j]).len() <= e - 0 && occurs_at(
                    text,
                    pats[j],
                    e - pats[j].len(),
                );
            assert(j == 0);
            assert(e - plen != t0);
            assert(false);
        }
    }
    let c = spec_tl(spans, k) + o;
    if k < 2 || o < o2 {
        if o == spec_span_len(spans, k) {
            assert(k < 2);
            assert(spec_tl(spans, k + 1) == c);
            lemma_split_run(input, spans, pats, reps, lo, hi, rep, t0, k + 1, 0);
        } else {
            let b = input[spans[k].0 + o];
            lemma_text_index(input, spans, lo, hi, 3, k, o);
            assert(text.subrange(0, c).push(b) =~= text.subrange(0, c + 1));
            assert(c + 1 <= e0 - 1 || (c + 1 < e0)) by {
                if k < 2 {
                    assert(c + 1 <= spec_tl(spans, k + 1) <= spec_tl(spans, 2) < e0);
                }
            }
            assert(c + 1 != e0);
            assert(!has_match(pats, text.subrange(0, c + 1)));
            lemma_split_run(input, spans, pats, reps, lo, hi, rep, t0, k, o + 1);
        }
    } else {
        // the fire byte: the occurrence ends here, split across all three spans
        assert(k == 2 && o == o2);
        assert(c == e0 - 1);
        let b = input[spans[2].0 + o];
        lemma_text_index(input, spans, lo, hi, 3, 2, o);
        let fed2 = text.subrange(0, e0);
        assert(text.subrange(0, c).push(b) =~= fed2);
        assert(text.subrange(t0, e0) == pats[0]);
        assert(fed2.subrange(e0 - plen, e0) =~= text.subrange(t0, e0));
        assert(pats[0].is_suffix_of(fed2));
        assert(suffix_candidate(pats, fed2, 0));
        assert(has_match(pats, fed2));
        assert(pick_pattern(pats, fed2) == 0) by {
            assert(suffix_candidate(pats, fed2, 0) && (forall|j2: int|
                suffix_candidate(pats, fed2, j2) ==> j2 == 0));
        }
        // the backward walk lands on the first span's tail
        assert(plen > o + 1);
        let btc0 = plen - (o + 1);
        assert(btc0 == spec_tl(spans, 2) - t0);
        assert(spec_tl(spans, 2) == spec_tl(spans, 1) + spec_span_len(spans, 1));
        assert(spec_tl(spans, 1) == spec_span_len(spans, 0));
        let tail = spec_tl(spans, 1) - t0;
        assert(spec_first_span(spans, 2, btc0) == (0int, tail)) by {
            if btc0 > spec_span_len(spans, 1) {
                assert(spec_first_span(spans, 2, btc0) == spec_first_span(
                    spans,
                    1,
                    btc0 - spec_span_len(spans, 1),
                ));
                assert(btc0 - spec_span_len(spans, 1) == tail);
                assert(tail <= spec_span_len(spans, 0));
                assert(spec_first_span(spans, 1, tail) == (0int, tail));
            } else {
                assert(spec_tl(spans, 1) <= t0);
                assert(false);
            }
        }
        let e = spec_match_emit(input, spans, reps, 2, o, 0, plen, rep);
        assert(e.0 == input.subrange(rep, spans[0].1 - tail) + spec_span_gaps(input, spans, 0, 2)
            + reps[0]);
        assert(e.1 == spans[2].0 + o + 1);
        assert(spans[0].1 - tail == spans[0].0 + t0);
        assert(spec_span_gaps(input, spans, 2, 2) =~= Seq::<u8>::empty());
        assert(spec_span_gaps(input, spans, 1, 2) == input.subrange(
            spans[1].1 as int,
            spans[2].0 as int,
        ) + spec_span_gaps(input, spans, 2, 2));
        assert(spec_span_gaps(input, spans, 0, 2) == input.subrange(
            spans[0].1 as int,
            spans[1].0 as int,
        ) + spec_span_gaps(input, spans, 1, 2));
        assert(spec_span_gaps(input, spans, 0, 2) =~= input.subrange(
            spans[0].1 as int,
            spans[1].0 as int,
        ) + (input.subrange(spans[1].1 as int, spans[2].0 as int) + Seq::<u8>::empty()));
        // past the match the scan is silent
        assert forall|e2: int| e0 < e2 <= text.len() implies !has_match(
            pats,
            #[trigger] text.subrange(e0, e2),
        ) by {
            if has_match(pats, text.subrange(e0, e2)) {
                lemma_match_is_occurrence(text, pats, e0, e2);
                let j = choose|j: int|
                    0 <= j < pats.len() && (#[trigger] pats[j]).len() <= e2 - e0 && occurs_at(
                        text,
                        pats[j],
                        e2 - pats[j].len(),
                    );
                assert(j == 0);
                assert(e2 - plen != t0);
                assert(false);
            }
        }
        assert(o + 1 <= spec_span_len(spans, 2)) by {
            assert(e0 <= spec_tl(spans, 3));
            assert(spec_tl(spans, 3) == spec_tl(spans, 2) + spec_span_len(spans, 2));
        }
        lemma_scan_silent(input, spans, pats, reps, lo, hi, 2, o + 1, e0, e.1);
        assert(text.subrange(e0, spec_tl(spans, 2) + (o + 1)) =~= Seq::<u8>::empty());
        assert(spec_scan(input, spans, pats, reps, 2, o + 1, Seq::<u8>::empty(), e.1) == (
            Seq::<u8>::empty(),
            e.1,
        ));
        assert(spec_scan(input, spans, pats, reps, 2, o, text.subrange(0, c), rep) == (
            e.0 + Seq::<u8>::empty(),
            e.1,
        ));
        assert(e.0 + Seq::<u8>::empty() =~= e.0);
        assert(e.0 =~= input.subrange(rep, spans[0].0 + t0) + input.subrange(
            spans[0].1 as int,
            spans[1].0 as int,
        ) + input.subrange(spans[1].1 as int, spans[2].0 as int) + reps[0]);
        assert(e.1 == spans[2].0 + (e0 - spec_tl(spans, 2)));
    }
}

/// Replacing a placeholder whose characters are split across three
/// consecutive text nodes of one paragraph: the first node keeps its bytes
/// before the placeholder, the markup between the nodes is preserved, the
/// middle node's content is erased, and the replacement lands where the
/// placeholder's last fragment ended — the remaining tail of the third node
/// is left for the surrounding copy, unchanged.
pub proof fn lemma_split_across_nodes(
    input: Seq<u8>,
    s0: (usize, usize),
    s1: (usize, usize),
    s2: (usize, usize),
    pat: Seq<u8>,
    val: Seq<u8>,
    rep: int,
    t0: int,
)
    requires
        0 <= rep <= s0.0 <= s0.1 <= s1.0 <= s1.1 <= s2.0 <= s2.1 <= input.len(),
        pat.len() >= 1,
        occurs_at(spec_text(input, seq![s0, s1, s2]), pat, t0),
        forall|t: int| t != t0 ==> !occurs_at(spec_text(input, seq![s0, s1, s2]), pat, t),
        // the occurrence starts in the first node, covers the second whole,
        // and ends inside the third
        t0 < s0.1 - s0.0,
        t0 + pat.len() > s0.1 - s0.0 + s1.1 - s1.0,
    ensures
        spec_paragraph(input, seq![s0, s1, s2], seq![pat], seq![val], rep) == (
            input.subrange(rep, s0.0 + t0) + input.subrange(s0.1 as int, s1.0 as int)
                + input.subrange(s1.1 as int, s2.0 as int) + val,
            s2.0 + (t0 + pat.len() - (s0.1 - s0.0) - (s1.1 - s1.0)),
        ),
{
    let spans: Seq<(usize, usize)> = seq![s0, s1, s2];
    let pats: Seq<Seq<u8>> = seq![pat];
    let reps: Seq<Seq<u8>> = seq![val];
    assert(spec_spans_wf(spans, rep, input.len() as int));
    assert(spec_tl(spans, 0) == 0);
    assert(spec_tl(spans, 1) == s0.1 - s0.0);
    assert(spec_tl(spans, 2) == s0.1 - s0.0 + s1.1 - s1.0);
    lemma_split_run(input, spans, pats, reps, rep, input.len() as int, rep, t0, 0, 0);
    assert(spec_text(input, spans).subrange(0, 0) =~= Seq::<u8>::empty());
}


/// A scan with no patterns at all emits nothing and leaves the cursor alone,
/// whatever state it starts from.
proof fn lemma_scan_no_patterns(
    input: Seq<u8>,
    spans: Seq<(usize, usize)>,
    reps: Seq<Seq<u8>>,
    k: int,
    o: int,
    fed: Seq<u8>,
    rep: int,
)
    requires
        0 <= k,
        0 <= o,
    ensures
        spec_scan(input, spans, Seq::empty(), reps, k, o, fed, rep) == (Seq::<u8>::empty(), rep),
    decreases spans.len() - k, spec_span_len(spans, k) - o,
{
    let pats = Seq::<Seq<u8>>::empty();
    if k >= spans.len() {
    } else if o >= spec_span_len(spans, k) {
        lemma_scan_no_patterns(input, spans, reps, k + 1, 0, fed, rep);
    } else {
        let b = input[spans[k].0 + o];
        assert(!has_match(pats, fed.push(b)));
        lemma_scan_no_patterns(input, spans, reps, k, o + 1, fed.push(b), rep);
    }
}

/// A stream transformation with no patterns changes nothing beyond the
/// reported cursor's tail copy.
proof fn lemma_stream_no_patterns_from(
    input: Seq<u8>,
    reps: Seq<Seq<u8>>,
    i: int,
    p: bool,
    r: bool,
    cap: int,
    cs: int,
    lp: int,
    spans: Seq<(usize, usize)>,
    rep: int,
)
    ensures
        ({
            let s = spec_stream_from(input, Seq::empty(), reps, i, p, r, cap, cs, lp, spans, rep);
            s.1 ==> s.0 == input.subrange(rep, input.len() as int)
        }),
    decreases crate::xmlscan::xml_events(input).len() - i,
{
    reveal(spec_stream_from);
    let evs = crate::xmlscan::xml_events(input);
    if 0 <= i < evs.len() {
        let kind = evs[i].0;
        let name = evs[i].1;
        let pos = evs[i].2;
        if kind == 4 || kind == 3 {
        } else if cap > 0 {
            if kind == 0 && name == crate::find_and_replace::spec_wt() {
                lemma_stream_no_patterns_from(
                    input, reps, i + 1, p, r, cap + 1, cs, pos, spans, rep,
                );
            } else if kind == 1 && name == crate::find_and_replace::spec_wt() {
                if cap == 1 {
                    lemma_stream_no_patterns_from(
                        input,
                        reps,
                        i + 1,
                        p,
                        r,
                        0,
                        0,
                        pos,
                        spans.push((cs as usize, lp as usize)),
                        rep,
                    );
                } else {
                    lemma_stream_no_patterns_from(
                        input, reps, i + 1, p, r, cap - 1, cs, pos, spans, rep,
                    );
                }
            } else {
                lemma_stream_no_patterns_from(input, reps, i + 1, p, r, cap, cs, pos, spans, rep);
            }
        } else if kind == 0 {
            if name == crate::find_and_replace::spec_wp() {
                lemma_stream_no_patterns_from(input, reps, i + 1, true, r, cap, cs, pos, spans, rep);
            } else if name == crate::find_and_replace::spec_wr() {
                lemma_stream_no_patterns_from(input, reps, i + 1, p, true, cap, cs, pos, spans, rep);
            } else if name == crate::find_and_replace::spec_wt() && p && r {
                lemma_stream_no_patterns_from(input, reps, i + 1, p, r, 1, pos, pos, spans, rep);
            } else {
                lemma_stream_no_patterns_from(input, reps, i + 1, p, r, cap, cs, pos, spans, rep);
            }
        } else if kind == 1 {
            if name == crate::find_and_replace::spec_wp() {
                lemma_scan_no_patterns(input, spans, reps, 0, 0, Seq::empty(), rep);
                lemma_stream_no_patterns_from(
                    input,
                    reps,
                    i + 1,
                    false,
                    r,
                    cap,
                    cs,
                    pos,
                    Seq::empty(),
                    rep,
                );
            } else if name == crate::find_and_replace::spec_wr() {
                lemma_stream_no_patterns_from(input, reps, i + 1, p, false, cap, cs, pos, spans, rep);
            } else {
                lemma_stream_no_patterns_from(input, reps, i + 1, p, r, cap, cs, pos, spans, rep);
            }
        } else {
            lemma_stream_no_patterns_from(input, reps, i + 1, p, r, cap, cs, pos, spans, rep);
        }
    }
}

/// The identity property at the level of one part: a transformation with an
/// empty placeholder set that reads the part to its end returns the part's
/// bytes unchanged.
pub proof fn lemma_stream_identity(input: Seq<u8>, reps: Seq<Seq<u8>>)
    ensures
        ({
            let s = spec_stream(input, Seq::empty(), reps);
            s.1 ==> s.0 == input
        }),
{
    lemma_stream_no_patterns_from(
        input,
        reps,
        0,
        false,
        false,
        0,
        0,
        0,
        Seq::empty(),
        0,
    );
    assert(input.subrange(0, input.len() as int) =~= input);
}


/// Walking back from span `k`, the bytes still to account for land exactly
/// on the tail of span `f0` that follows offset `c0`.
proof fn lemma_first_span_at(
    spans: Seq<(usize, usize)>,
    lo: int,
    hi: int,
    f0: int,
    c0: int,
    k: int,
)
    requires
        spec_spans_wf(spans, lo, hi),
        0 <= f0 < k <= spans.len(),
        0 <= c0 < spec_span_len(spans, f0),
    ensures
        spec_first_span(spans, k, spec_tl(spans, k) - spec_tl(spans, f0) - c0) == (
            f0,
            spec_span_len(spans, f0) - c0,
        ),
    decreases k,
{
    let btc = spec_tl(spans, k) - spec_tl(spans, f0) - c0;
    assert(spec_tl(spans, k) == spec_tl(spans, k - 1) + spec_span_len(spans, k - 1));
    if k == f0 + 1 {
        assert(btc == spec_span_len(spans, f0) - c0);
        assert(!(btc > spec_span_len(spans, k - 1)));
    } else {
        lemma_tl_mono(spans, lo, hi, f0 + 1, k - 1);
        assert(spec_tl(spans, f0 + 1) == spec_tl(spans, f0) + spec_span_len(spans, f0));
        assert(btc - spec_span_len(spans, k - 1) == spec_tl(spans, k - 1) - spec_tl(spans, f0)
            - c0);
        assert(spec_tl(spans, k - 1) - spec_tl(spans, f0) - c0 >= spec_span_len(spans, f0) - c0);
        assert(btc > spec_span_len(spans, k - 1));
        lemma_first_span_at(spans, lo, hi, f0, c0, k - 1);
    }
}

/// The scan of a paragraph holding exactly one occurrence of its single
/// pattern, walking from position `(k, o)` at or before the occurrence's
/// last byte: everything before the occurrence is copied, the markup between
/// the spans the occurrence crosses is kept, the replacement is written, and
/// the cursor lands just past the occurrence's tail.
#[verifier::rlimit(100)]
proof fn lemma_fire_walk(
    input: Seq<u8>,
    spans: Seq<(usize, usize)>,
    pats: Seq<Seq<u8>>,
    reps: Seq<Seq<u8>>,
    lo: int,
    hi: int,
    rep: int,
    t0: int,
    f0: int,
    c0: int,
    k0: int,
    o0: int,
    k: int,
    o: int,
)
    requires
        spec_spans_wf(spans, lo, hi),
        hi == input.len(),
        pats.len() == 1,
        reps.len() == 1,
        pats[0].len() >= 1,
        occurs_at(spec_text(input, spans), pats[0], t0),
        forall|t: int| t != t0 ==> !occurs_at(spec_text(input, spans), pats[0], t),
        0 <= f0 <= k0 < spans.len(),
        0 <= c0 < spec_span_len(spans, f0),
        spec_tl(spans, f0) + c0 == t0,
        0 <= o0 < spec_span_len(spans, k0),
        spec_tl(spans, k0) + o0 == t0 + pats[0].len() - 1,
        0 <= k <= k0,
        0 <= o <= spec_span_len(spans, k),
        k == k0 ==> o <= o0,
        spec_tl(spans, k) + o <= spec_tl(spans, k0) + o0,
    ensures
        spec_scan(
            input,
            spans,
            pats,
            reps,
            k,
            o,
            spec_text(input, spans).subrange(0, spec_tl(spans, k) + o),
            rep,
        ) == (
            input.subrange(rep, spans[f0].0 + c0) + spec_span_gaps(input, spans, f0, k0)
                + reps[0],
            spans[k0].0 + o0 + 1,
        ),
    decreases k0 - k, spec_span_len(spans, k) - o,
{
    let text = spec_text(input, spans);
    let plen = pats[0].len() as int;
    let e0 = t0 + plen;
    let c = spec_tl(spans, k) + o;
    lemma_text_upto_len(input, spans, lo, hi, spans.len() as int);
    lemma_tl_mono(spans, lo, hi, k0 + 1, spans.len() as int);
    assert(spec_tl(spans, k0 + 1) == spec_tl(spans, k0) + spec_span_len(spans, k0));
    assert(e0 <= text.len());
    // no pattern fires anywhere but at the occurrence's end
    assert forall|e: int| 0 < e <= text.len() && e != e0 implies !has_match(
        pats,
        #[trigger] text.subrange(0, e),
    ) by {
        if has_match(pats, text.subrange(0, e)) {
            lemma_match_is_occurrence(text, pats, 0, e);
            let j = choose|j: int|
                0 <= j < pats.len() && (#[trigger] pats[j]).len() <= e - 0 && occurs_at(
                    text,
                    pats[j],
                    e - pats[j].len(),
                );
            assert(j == 0);
            assert(e - plen != t0);
            assert(false);
        }
    }
    if k < k0 || o < o0 {
        if o == spec_span_len(spans, k) {
            assert(k < k0);
            assert(spec_tl(spans, k + 1) == c);
            lemma_fire_walk(
                input, spans, pats, reps, lo, hi, rep, t0, f0, c0, k0, o0, k + 1, 0,
            );
        } else {
            let b = input[spans[k].0 + o];
            lemma_text_index(input, spans, lo, hi, spans.len() as int, k, o);
            lemma_tl_mono(spans, lo, hi, 0, k);
            // a byte position strictly before the fire point
            if k < k0 {
                lemma_tl_mono(spans, lo, hi, k + 1, k0);
                assert(spec_tl(spans, k + 1) == spec_tl(spans, k) + spec_span_len(spans, k));
                assert(c < spec_tl(spans, k + 1) <= spec_tl(spans, k0) + o0);
            }
            assert(0 <= c && c + 1 <= e0 - 1 && c + 1 != e0);
            assert(text.subrange(0, c).push(b) =~= text.subrange(0, c + 1));
            assert(!has_match(pats, text.subrange(0, c + 1)));
            lemma_fire_walk(
                input, spans, pats, reps, lo, hi, rep, t0, f0, c0, k0, o0, k, o + 1,
            );
        }
    } else {
        // the fire byte: the occurrence ends here
        assert(k == k0 && o == o0);
        assert(c == e0 - 1);
        let b = input[spans[k0].0 + o];
        lemma_text_index(input, spans, lo, hi, spans.len() as int, k0, o);
        let fed2 = text.subrange(0, e0);
        assert(text.subrange(0, c).push(b) =~= fed2);
        assert(text.subrange(t0, e0) == pats[0]);
        assert(fed2.subrange(e0 - plen, e0) =~= text.subrange(t0, e0));
        assert(pats[0].is_suffix_of(fed2));
        assert(suffix_candidate(pats, fed2, 0));
        assert(has_match(pats, fed2));
        assert(pick_pattern(pats, fed2) == 0) by {
            assert(suffix_candidate(pats, fed2, 0) && (forall|j2: int|
                suffix_candidate(pats, fed2, j2) ==> j2 == 0));
        }
        let e = spec_match_emit(input, spans, reps, k0, o, 0, plen, rep);
        if f0 == k0 {
            // the occurrence lies inside one span
            assert(plen <= o + 1);
            assert(spans[k0].0 + o + 1 - plen == spans[f0].0 + c0);
            assert(e.0 == input.subrange(rep, spans[f0].0 + c0) + reps[0]);
            assert(spec_span_gaps(input, spans, f0, k0) =~= Seq::<u8>::empty());
            assert(e.0 =~= input.subrange(rep, spans[f0].0 + c0) + spec_span_gaps(
                input,
                spans,
                f0,
                k0,
            ) + reps[0]);
        } else {
            // the occurrence crosses spans: it begins before span k0
            lemma_tl_mono(spans, lo, hi, f0 + 1, k0);
            assert(spec_tl(spans, f0 + 1) == spec_tl(spans, f0) + spec_span_len(spans, f0));
            assert(t0 < spec_tl(spans, f0 + 1) <= spec_tl(spans, k0));
            assert(plen > o + 1);
            assert(plen - (o + 1) == spec_tl(spans, k0) - spec_tl(spans, f0) - c0);
            lemma_first_span_at(spans, lo, hi, f0, c0, k0);
            assert(spec_first_span(spans, k0, plen - (o + 1)) == (
                f0,
                spec_span_len(spans, f0) - c0,
            ));
            assert(spans[f0].1 - (spec_span_len(spans, f0) - c0) == spans[f0].0 + c0);
            assert(e.0 == input.subrange(rep, spans[f0].0 + c0) + spec_span_gaps(
                input,
                spans,
                f0,
                k0,
            ) + reps[0]);
        }
        assert(e.1 == spans[k0].0 + o + 1);
        // past the match the scan is silent
        assert forall|e2: int| e0 < e2 <= text.len() implies !has_match(
            pats,
            #[trigger] text.subrange(e0, e2),
        ) by {
            if has_match(pats, text.subrange(e0, e2)) {
                lemma_match_is_occurrence(text, pats, e0, e2);
                let j = choose|j: int|
                    0 <= j < pats.len() && (#[trigger] pats[j]).len() <= e2 - e0 && occurs_at(
                        text,
                        pats[j],
                        e2 - pats[j].len(),
                    );
                assert(j == 0);
                assert(e2 - plen != t0);
                assert(false);
            }
        }
        lemma_scan_silent(input, spans, pats, reps, lo, hi, k0, o + 1, e0, spans[k0].0 + o + 1);
        assert(text.subrange(e0, spec_tl(spans, k0) + (o + 1)) =~= Seq::<u8>::empty());
        assert(spec_scan(input, spans, pats, reps, k0, o + 1, Seq::<u8>::empty(), spans[k0].0 + o
            + 1) == (Seq::<u8>::empty(), spans[k0].0 + o + 1));
        assert(spec_scan(input, spans, pats, reps, k, o, text.subrange(0, c), rep) == (
            e.0 + Seq::<u8>::empty(),
            e.1,
        ));
        assert(e.0 + Seq::<u8>::empty() =~= e.0);
    }
}

/// Replacing a placeholder whose characters are split, in order, across any
/// run of consecutive text nodes of one paragraph: with the single pattern
/// occurring exactly once, starting at offset `c0` of node `f0` and ending
/// at offset `o0` of node `k0`, the node bytes before the occurrence are
/// copied, the markup between the crossed nodes is kept, their interior
/// content is erased, the replacement is written where the last fragment
/// ended, and the cursor lands just past it — the rest of the paragraph is
/// left for the surrounding copy, unchanged.
pub proof fn lemma_split_any_nodes(
    input: Seq<u8>,
    spans: Seq<(usize, usize)>,
    pat: Seq<u8>,
    val: Seq<u8>,
    rep: int,
    f0: int,
    c0: int,
    k0: int,
    o0: int,
)
    requires
        spec_spans_wf(spans, rep, input.len() as int),
        0 <= rep <= input.len(),
        pat.len() >= 1,
        0 <= f0 <= k0 < spans.len(),
        0 <= c0 < spec_span_len(spans, f0),
        0 <= o0 < spec_span_len(spans, k0),
        spec_tl(spans, k0) + o0 == spec_tl(spans, f0) + c0 + pat.len() - 1,
        occurs_at(spec_text(input, spans), pat, spec_tl(spans, f0) + c0),
        forall|t: int|
            t != spec_tl(spans, f0) + c0 ==> !occurs_at(spec_text(input, spans), pat, t),
    ensures
        spec_paragraph(input, spans, seq![pat], seq![val], rep) == (
            input.subrange(rep, spans[f0].0 + c0) + spec_span_gaps(input, spans, f0, k0) + val,
            spans[k0].0 + o0 + 1,
        ),
{
    let pats: Seq<Seq<u8>> = seq![pat];
    let reps: Seq<Seq<u8>> = seq![val];
    let t0 = spec_tl(spans, f0) + c0;
    lemma_tl_mono(spans, rep, input.len() as int, 0, f0);
    lemma_fire_walk(
        input,
        spans,
        pats,
        reps,
        rep,
        input.len() as int,
        rep,
        t0,
        f0,
        c0,
        k0,
        o0,
        0,
        0,
    );
    assert(spec_text(input, spans).subrange(0, 0) =~= Seq::<u8>::empty());
    assert(spec_tl(spans, 0) == 0);
}

} // verus!
