//! The streaming find-and-replace core: feeding the text spans of one
//! paragraph through the placeholder automaton and emitting the rewritten
//! bytes.
//!
//! A placeholder can be split across several text nodes of one paragraph.
//! The transformer feeds the paragraph's span contents byte by byte through
//! the automaton; when a match ends, the replacement is written in place of
//! the match, the markup between the spans the match crossed is preserved,
//! and the interior content of the crossed spans is erased.

use vstd::prelude::*;
use crate::matcher;
use crate::matcher::{Matcher, has_match, pick_pattern};
use crate::placeholders::{Placeholders, spec_all_nonempty};
use crate::replacements::Replacements;
use crate::bytes::{push_range, bytes_eq};
use crate::xmlscan::{self, XmlScan, XmlToken};
use vstd::string::StringSliceAdditionalSpecFns;

verus! {

/// Content length of span `k`.
pub open spec fn spec_span_len(spans: Seq<(usize, usize)>, k: int) -> int {
    if 0 <= k < spans.len() {
        spans[k].1 - spans[k].0
    } else {
        0
    }
}

/// Total content length of spans `0..k`.
pub open spec fn spec_tl(spans: Seq<(usize, usize)>, k: int) -> int
    decreases k,
{
    if k <= 0 {
        0
    } else {
        spec_tl(spans, k - 1) + spec_span_len(spans, k - 1)
    }
}

/// Spans are well-formed for an input of length `hi` scanned from offset
/// `lo`: each span lies within bounds, starts at or after `lo`, and
/// consecutive spans come in order without overlapping.
pub open spec fn spec_spans_wf(spans: Seq<(usize, usize)>, lo: int, hi: int) -> bool {
    &&& forall|k: int| 0 <= k < spans.len() ==> lo <= (#[trigger] spans[k]).0 <= spans[k].1 <= hi
    &&& forall|k: int| 0 <= k < spans.len() - 1 ==> (#[trigger] spans[k]).1 <= spans[k + 1].0
}

/// Walking backwards from span `k`, the span holding the first byte of a
/// match `btc` of whose pattern bytes precede span `k`, and how many content
/// bytes of that span the match covers: mirrors the backward accumulation
/// the transformer performs to locate a split placeholder's first fragment.
pub open spec fn spec_first_span(spans: Seq<(usize, usize)>, k: int, btc: int) -> (int, int)
    decreases k,
{
    if k <= 0 {
        (0, btc)
    } else if btc > spec_span_len(spans, k - 1) {
        spec_first_span(spans, k - 1, btc - spec_span_len(spans, k - 1))
    } else {
        (k - 1, btc)
    }
}

/// The markup bytes between consecutive spans `f..k`: what stands between a
/// split placeholder's fragments and is preserved in the output.
pub open spec fn spec_span_gaps(input: Seq<u8>, spans: Seq<(usize, usize)>, f: int, k: int) -> Seq<
    u8,
>
    decreases k - f,
{
    if f >= k {
        Seq::empty()
    } else {
        input.subrange(spans[f].1 as int, spans[f + 1].0 as int) + spec_span_gaps(
            input,
            spans,
            f + 1,
            k,
        )
    }
}

/// What a match ending at offset `o` of span `k` emits, and the new reported
/// cursor: the unmatched bytes from `rep` up to the match start, then — when
/// the match crosses spans — the markup between the crossed spans, then the
/// replacement for pattern `id`.
pub open spec fn spec_match_emit(
    input: Seq<u8>,
    spans: Seq<(usize, usize)>,
    reps: Seq<Seq<u8>>,
    k: int,
    o: int,
    id: int,
    plen: int,
    rep: int,
) -> (Seq<u8>, int) {
    if plen > o + 1 {
        let (f, tail) = spec_first_span(spans, k, plen - (o + 1));
        (
            input.subrange(rep, spans[f].1 - tail) + spec_span_gaps(input, spans, f, k)
                + reps[id],
            spans[k].0 + o + 1,
        )
    } else {
        (input.subrange(rep, spans[k].0 + o + 1 - plen) + reps[id], spans[k].0 + o + 1)
    }
}

/// One paragraph's scan from offset `o` of span `k`, with `fed` read since
/// the last automaton reset and output already written up to input offset
/// `rep`: the bytes emitted and the final reported cursor.
///
/// Each content byte extends `fed`; as soon as some pattern is a suffix of
/// `fed`, the automaton's chosen pattern is replaced and the scan restarts
/// from the automaton's start state, so matches never overlap.
pub open spec fn spec_scan(
    input: Seq<u8>,
    spans: Seq<(usize, usize)>,
    pats: Seq<Seq<u8>>,
    reps: Seq<Seq<u8>>,
    k: int,
    o: int,
    fed: Seq<u8>,
    rep: int,
) -> (Seq<u8>, int)
    decreases spans.len() - k, spec_span_len(spans, k) - o,
{
    if k < 0 || k >= spans.len() {
        (Seq::empty(), rep)
    } else if o >= spec_span_len(spans, k) {
        spec_scan(input, spans, pats, reps, k + 1, 0, fed, rep)
    } else {
        let b = input[spans[k].0 + o];
        let fed2 = fed.push(b);
        if has_match(pats, fed2) {
            let id = pick_pattern(pats, fed2);
            let plen = pats[id].len() as int;
            let e = spec_match_emit(input, spans, reps, k, o, id, plen, rep);
            let rest = spec_scan(input, spans, pats, reps, k, o + 1, Seq::empty(), e.1);
            (e.0 + rest.0, rest.1)
        } else {
            spec_scan(input, spans, pats, reps, k, o + 1, fed2, rep)
        }
    }
}

/// The scan of a whole paragraph: all its spans from the beginning, with a
/// fresh automaton and the reported cursor at `rep`.
pub open spec fn spec_paragraph(
    input: Seq<u8>,
    spans: Seq<(usize, usize)>,
    pats: Seq<Seq<u8>>,
    reps: Seq<Seq<u8>>,
    rep: int,
) -> (Seq<u8>, int) {
    spec_scan(input, spans, pats, reps, 0, 0, Seq::empty(), rep)
}

/// Totals of spans `0..k` are monotone under well-formed spans.
pub proof fn lemma_tl_mono(spans: Seq<(usize, usize)>, lo: int, hi: int, i: int, j: int)
    requires
        spec_spans_wf(spans, lo, hi),
        0 <= i <= j <= spans.len(),
    ensures
        spec_tl(spans, i) <= spec_tl(spans, j),
    decreases j - i,
{
    if i < j {
        lemma_tl_mono(spans, lo, hi, i, j - 1);
        assert(spec_span_len(spans, j - 1) >= 0);
    }
}

/// Spans that come earlier end before later ones start.
pub proof fn lemma_span_order(spans: Seq<(usize, usize)>, lo: int, hi: int, i: int, j: int)
    requires
        spec_spans_wf(spans, lo, hi),
        0 <= i < j < spans.len(),
    ensures
        spans[i].1 <= spans[j].0,
    decreases j - i,
{
    if i + 1 < j {
        lemma_span_order(spans, lo, hi, i + 1, j);
    }
}

/// The content of spans `i..j` fits between the starts of spans `i` and `j`:
/// input distance dominates content distance.
pub proof fn lemma_span_progress(spans: Seq<(usize, usize)>, lo: int, hi: int, i: int, j: int)
    requires
        spec_spans_wf(spans, lo, hi),
        0 <= i <= j < spans.len(),
    ensures
        spans[i].0 + (spec_tl(spans, j) - spec_tl(spans, i)) <= spans[j].0,
    decreases j - i,
{
    if i < j {
        lemma_span_progress(spans, lo, hi, i, j - 1);
        assert(spans[j - 1].1 <= spans[j].0);
        assert(spec_tl(spans, j) == spec_tl(spans, j - 1) + spec_span_len(spans, j - 1));
    }
}

/// The start of a split match's flush lies at or after the anchored window
/// start, so the reported cursor never has to move backwards.
proof fn lemma_flush_bound(
    sv: Seq<(usize, usize)>,
    lo: int,
    hi: int,
    ak: int,
    ao: int,
    k: int,
    o: int,
    plen: int,
    f: int,
    tail: int,
)
    requires
        spec_spans_wf(sv, lo, hi),
        0 <= ak <= k < sv.len(),
        0 <= ao <= spec_span_len(sv, ak),
        plen <= spec_tl(sv, k) + o + 1 - (spec_tl(sv, ak) + ao),
        0 <= f < k,
        1 <= tail <= spec_span_len(sv, f),
        spec_tl(sv, f + 1) - tail == spec_tl(sv, k) + o + 1 - plen,
    ensures
        sv[ak].0 + ao <= sv[f].1 - tail,
{
    lemma_tl_mono(sv, lo, hi, ak, k);
    if f < ak {
        lemma_tl_mono(sv, lo, hi, f + 1, ak);
        assert(spec_tl(sv, f + 1) - tail < spec_tl(sv, f + 1) <= spec_tl(sv, ak) + ao);
        assert(false);
    }
    if f > ak {
        lemma_span_order(sv, lo, hi, ak, f);
        assert(sv[ak].0 + ao <= sv[ak].1 <= sv[f].0);
        assert(sv[f].1 - tail >= sv[f].0);
    } else {
        assert(f == ak);
        assert(spec_tl(sv, f + 1) == spec_tl(sv, ak) + spec_span_len(sv, ak));
        assert(spec_span_len(sv, ak) - tail >= ao);
        assert(sv[f].1 - tail == sv[ak].0 + spec_span_len(sv, ak) - tail);
    }
}

/// Appending one more gap to a run of span gaps.
proof fn lemma_gaps_snoc(input: Seq<u8>, spans: Seq<(usize, usize)>, f: int, j: int)
    requires
        f <= j,
    ensures
        spec_span_gaps(input, spans, f, j + 1) == spec_span_gaps(input, spans, f, j)
            + input.subrange(spans[j].1 as int, spans[j + 1].0 as int),
    decreases j - f,
{
    if f == j {
        assert(spec_span_gaps(input, spans, f, j) =~= Seq::<u8>::empty());
        assert(spec_span_gaps(input, spans, f + 1, j + 1) =~= Seq::<u8>::empty());
        assert(spec_span_gaps(input, spans, f, j + 1) =~= spec_span_gaps(input, spans, f, j)
            + input.subrange(spans[j].1 as int, spans[j + 1].0 as int));
    } else {
        lemma_gaps_snoc(input, spans, f + 1, j);
        assert(spec_span_gaps(input, spans, f, j + 1) =~= spec_span_gaps(input, spans, f, j)
            + input.subrange(spans[j].1 as int, spans[j + 1].0 as int));
    }
}

/// Name of a paragraph element.
pub open spec fn spec_wp() -> Seq<u8> {
    "w:p".spec_bytes()
}

/// Name of a run element.
pub open spec fn spec_wr() -> Seq<u8> {
    "w:r".spec_bytes()
}

/// Name of a text element.
pub open spec fn spec_wt() -> Seq<u8> {
    "w:t".spec_bytes()
}

/// What can stop a transformation: only a malformed or unreadable document,
/// reported with the XML reader's own error.
#[derive(Debug)]
pub enum TransformerError {
    ReadXmlErr(quick_xml::Error),
}

/// The stream transformation from event `i` on, over the state the scan has
/// reached: whether we are inside a paragraph and inside a run, the nesting
/// depth of an open text element (`cap`, zero when outside one) with the
/// content start of its capture, the position after the previous event, the
/// text spans collected for the open paragraph, and the reported cursor.
///
/// Yields the bytes still to be emitted and whether the stream ends well: a
/// read error fails, and so does an unclosed text element at end of input.
/// On a paragraph end the collected spans are scanned and replaced; at end
/// of input the tail from the reported cursor is copied through.
#[verifier::opaque]
pub open spec fn spec_stream_from(
    input: Seq<u8>,
    pats: Seq<Seq<u8>>,
    reps: Seq<Seq<u8>>,
    i: int,
    in_p: bool,
    in_r: bool,
    cap: int,
    cap_start: int,
    last_pos: int,
    spans: Seq<(usize, usize)>,
    rep: int,
) -> (Seq<u8>, bool)
    decreases crate::xmlscan::xml_events(input).len() - i,
{
    let evs = crate::xmlscan::xml_events(input);
    if i < 0 || i >= evs.len() {
        (Seq::empty(), false)
    } else {
        let kind = evs[i].0;
        let name = evs[i].1;
        let pos = evs[i].2;
        if kind == 4 {
            (Seq::empty(), false)
        } else if kind == 3 {
            if cap > 0 {
                (Seq::empty(), false)
            } else {
                (input.subrange(rep, input.len() as int), true)
            }
        } else if cap > 0 {
            if kind == 0 && name == spec_wt() {
                spec_stream_from(
                    input, pats, reps, i + 1, in_p, in_r, cap + 1, cap_start, pos, spans, rep,
                )
            } else if kind == 1 && name == spec_wt() {
                if cap == 1 {
                    spec_stream_from(
                        input,
                        pats,
                        reps,
                        i + 1,
                        in_p,
                        in_r,
                        0,
                        0,
                        pos,
                        spans.push((cap_start as usize, last_pos as usize)),
                        rep,
                    )
                } else {
                    spec_stream_from(
                        input, pats, reps, i + 1, in_p, in_r, cap - 1, cap_start, pos, spans, rep,
                    )
                }
            } else {
                spec_stream_from(
                    input, pats, reps, i + 1, in_p, in_r, cap, cap_start, pos, spans, rep,
                )
            }
        } else if kind == 0 {
            if name == spec_wp() {
                spec_stream_from(
                    input, pats, reps, i + 1, true, in_r, cap, cap_start, pos, spans, rep,
                )
            } else if name == spec_wr() {
                spec_stream_from(
                    input, pats, reps, i + 1, in_p, true, cap, cap_start, pos, spans, rep,
                )
            } else if name == spec_wt() && in_p && in_r {
                spec_stream_from(input, pats, reps, i + 1, in_p, in_r, 1, pos, pos, spans, rep)
            } else {
                spec_stream_from(
                    input, pats, reps, i + 1, in_p, in_r, cap, cap_start, pos, spans, rep,
                )
            }
        } else if kind == 1 {
            if name == spec_wp() {
                let para = spec_paragraph(input, spans, pats, reps, rep);
                let rest = spec_stream_from(
                    input,
                    pats,
                    reps,
                    i + 1,
                    false,
                    in_r,
                    cap,
                    cap_start,
                    pos,
                    Seq::empty(),
                    para.1,
                );
                (para.0 + rest.0, rest.1)
            } else if name == spec_wr() {
                spec_stream_from(
                    input, pats, reps, i + 1, in_p, false, cap, cap_start, pos, spans, rep,
                )
            } else {
                spec_stream_from(
                    input, pats, reps, i + 1, in_p, in_r, cap, cap_start, pos, spans, rep,
                )
            }
        } else {
            spec_stream_from(input, pats, reps, i + 1, in_p, in_r, cap, cap_start, pos, spans, rep)
        }
    }
}

/// The transformation of one whole part: the bytes appended to the output
/// and whether the part was read to its end.
pub open spec fn spec_stream(input: Seq<u8>, pats: Seq<Seq<u8>>, reps: Seq<Seq<u8>>) -> (
    Seq<u8>,
    bool,
) {
    spec_stream_from(input, pats, reps, 0, false, false, 0, 0, 0, Seq::empty(), 0)
}

/// Pipes the input part to the output, replacing matched placeholders
/// according to the replacement table.
///
/// A placeholder can reside in more than one run of a paragraph: the first
/// fragment carries the replacement and the rest are erased, while the
/// markup between them is kept. Each paragraph is scanned on its own, so a
/// placeholder split across paragraphs is never reconstructed.
#[derive(Clone)]
pub struct FindAndReplace {
    pub placeholders: Placeholders,
    pub replacements: Replacements,
}

impl FindAndReplace {
    /// The replacement table is aligned with the pattern ids, and no pattern
    /// is empty: a zero-width match would break the streaming scan.
    pub open spec fn wf(self) -> bool {
        &&& self.placeholders@.len() == self.replacements@.len()
        &&& spec_all_nonempty(self.placeholders@)
    }

    /// The shape of a split match's emission, read off the definition.
    proof fn lemma_emit_split_shape(
        input: Seq<u8>,
        spans: Seq<(usize, usize)>,
        reps: Seq<Seq<u8>>,
        k: int,
        o: int,
        id: int,
        plen: int,
        rep: int,
        f: int,
        tail: int,
    )
        requires
            plen > o + 1,
            spec_first_span(spans, k, plen - (o + 1)) == (f, tail),
        ensures
            spec_match_emit(input, spans, reps, k, o, id, plen, rep).0 == input.subrange(
                rep,
                spans[f].1 - tail,
            ) + spec_span_gaps(input, spans, f, k) + reps[id],
            spec_match_emit(input, spans, reps, k, o, id, plen, rep).1 == spans[k].0 + o + 1,
    {
    }

    /// The shape of an in-span match's emission, read off the definition.
    proof fn lemma_emit_single_shape(
        input: Seq<u8>,
        spans: Seq<(usize, usize)>,
        reps: Seq<Seq<u8>>,
        k: int,
        o: int,
        id: int,
        plen: int,
        rep: int,
    )
        requires
            plen <= o + 1,
        ensures
            spec_match_emit(input, spans, reps, k, o, id, plen, rep).0 == input.subrange(
                rep,
                spans[k].0 + o + 1 - plen,
            ) + reps[id],
            spec_match_emit(input, spans, reps, k, o, id, plen, rep).1 == spans[k].0 + o + 1,
    {
    }

    /// Write out what one match emits: the bytes from `rep` up to the match
    /// start, the markup between any spans the match crosses, and the
    /// replacement payload. Returns the new reported cursor, just past the
    /// match end.
    #[verifier::rlimit(100)]
    fn emit_match(
        &self,
        input: &[u8],
        out: &mut Vec<u8>,
        spans: &Vec<(usize, usize)>,
        k: usize,
        o: usize,
        id: usize,
        plen: usize,
        rep: usize,
        anchor: Ghost<(int, int, int)>,
    ) -> (r: usize)
        requires
            self.wf(),
            spec_spans_wf(spans@, anchor@.0, input@.len() as int),
            0 <= anchor@.1 <= k < spans@.len(),
            0 <= anchor@.2 <= spec_span_len(spans@, anchor@.1),
            (o as int) < spec_span_len(spans@, k as int),
            id < self.placeholders@.len(),
            plen == self.placeholders@[id as int].len(),
            plen >= 1,
            plen as int <= spec_tl(spans@, k as int) + o + 1 - (spec_tl(spans@, anchor@.1)
                + anchor@.2),
            rep as int <= spans@[anchor@.1].0 + anchor@.2,
        ensures
            final(out)@ == old(out)@ + spec_match_emit(
                input@,
                spans@,
                self.replacements@,
                k as int,
                o as int,
                id as int,
                plen as int,
                rep as int,
            ).0,
            r as int == spec_match_emit(
                input@,
                spans@,
                self.replacements@,
                k as int,
                o as int,
                id as int,
                plen as int,
                rep as int,
            ).1,
            rep <= r <= input@.len(),
    {
        let ghost sv = spans@;
        let ghost lo = anchor@.0;
        let ghost hi = input@.len() as int;
        let ghost ak = anchor@.1;
        let ghost ao = anchor@.2;
        proof {
            lemma_tl_nonneg_pair(sv, lo, hi, ak, ao);
        }
        if plen > o + 1 {
            self.emit_split(input, out, spans, k, o, id, plen, rep, anchor);
        } else {
            self.emit_single(input, out, spans, k, o, id, plen, rep, anchor);
        }
        let a = spans[k].0;
        proof {
            // the new cursor does not precede the old one and stays in bounds
            lemma_span_progress(sv, lo, hi, ak, k as int);
            assert(sv[ak].0 + ao <= sv[k as int].0 + o + 1);
            assert(sv[k as int].0 + o + 1 <= sv[k as int].1 <= hi);
        }
        a + o + 1
    }

    /// The match crossed span boundaries: walk back to its first span, copy
    /// the unmatched head of that span, keep the markup between the crossed
    /// spans, and write the replacement.
    #[verifier::rlimit(100)]
    fn emit_split(
        &self,
        input: &[u8],
        out: &mut Vec<u8>,
        spans: &Vec<(usize, usize)>,
        k: usize,
        o: usize,
        id: usize,
        plen: usize,
        rep: usize,
        anchor: Ghost<(int, int, int)>,
    )
        requires
            self.wf(),
            spec_spans_wf(spans@, anchor@.0, input@.len() as int),
            0 <= anchor@.1 <= k < spans@.len(),
            0 <= anchor@.2 <= spec_span_len(spans@, anchor@.1),
            (o as int) < spec_span_len(spans@, k as int),
            id < self.placeholders@.len(),
            plen as int <= spec_tl(spans@, k as int) + o + 1 - (spec_tl(spans@, anchor@.1)
                + anchor@.2),
            rep as int <= spans@[anchor@.1].0 + anchor@.2,
            plen > o + 1,
        ensures
            final(out)@ == old(out)@ + spec_match_emit(
                input@,
                spans@,
                self.replacements@,
                k as int,
                o as int,
                id as int,
                plen as int,
                rep as int,
            ).0,
    {
        let ghost sv = spans@;
        let ghost reps = self.replacements@;
        let ghost lo = anchor@.0;
        let ghost hi = input@.len() as int;
        let ghost ak = anchor@.1;
        let ghost ao = anchor@.2;
        let ghost rep_pre = rep as int;
        let ghost pre_out = out@;
        let ghost e = spec_match_emit(
            input@,
            sv,
            reps,
            k as int,
            o as int,
            id as int,
            plen as int,
            rep_pre,
        );
        proof {
            lemma_tl_nonneg_pair(sv, lo, hi, ak, ao);
            // a match cannot reach before the window anchor
            if k == 0 {
                assert(spec_tl(sv, 0) == 0);
                assert(plen as int <= o + 1);
                assert(false);
            }
        }
        let mut idx: usize = k - 1;
        let mut btc: usize = plen - (o + 1);
        let mut l: usize = spans[idx].1 - spans[idx].0;
        while btc > l
            invariant
                sv == spans@,
                spec_spans_wf(sv, lo, hi),
                0 <= ak && spec_tl(sv, ak) + ao >= 0,
                0 <= k < sv.len(),
                0 <= o,
                plen as int <= spec_tl(sv, k as int) + o + 1 - (spec_tl(sv, ak) + ao),
                plen > o + 1,
                0 <= idx < k,
                l as int == spec_span_len(sv, idx as int),
                1 <= btc,
                btc as int == plen - (o + 1) - (spec_tl(sv, k as int) - spec_tl(sv, idx + 1)),
                spec_first_span(sv, k as int, plen - (o + 1)) == spec_first_span(
                    sv,
                    idx + 1,
                    btc as int,
                ),
            decreases idx,
        {
            proof {
                // the walk cannot pass the first span
                if idx == 0 {
                    assert(spec_tl(sv, 0) == 0);
                    assert(spec_tl(sv, 1) == spec_tl(sv, 0) + spec_span_len(sv, 0));
                    assert(btc as int <= spec_tl(sv, 1) - (spec_tl(sv, ak) + ao));
                    assert(false);
                }
            }
            btc = btc - l;
            idx = idx - 1;
            l = spans[idx].1 - spans[idx].0;
        }
        let f = idx;
        let tail = btc;
        proof {
            assert(spec_first_span(sv, f + 1, tail as int) == (f as int, tail as int));
            assert(spec_first_span(sv, k as int, plen - (o + 1)) == (f as int, tail as int));
        }
        let q = spans[f].1 - tail;
        proof {
            // the flush start q is at or after the reported cursor
            lemma_flush_bound(
                sv,
                lo,
                hi,
                ak,
                ao,
                k as int,
                o as int,
                plen as int,
                f as int,
                tail as int,
            );
            assert(rep_pre <= q as int);
        }
        push_range(out, input, rep, q);
        let mut j: usize = f;
        while j < k
            invariant
                sv == spans@,
                spec_spans_wf(sv, lo, hi),
                0 <= f <= j <= k < sv.len(),
                hi == input@.len() as int,
                rep_pre <= q as int <= hi,
                out@ == pre_out + input@.subrange(rep_pre, q as int) + spec_span_gaps(
                    input@,
                    sv,
                    f as int,
                    j as int,
                ),
            decreases k - j,
        {
            proof {
                if j + 1 < sv.len() {
                    assert(sv[j as int].1 <= sv[j + 1].0);
                }
            }
            push_range(out, input, spans[j].1, spans[j + 1].0);
            proof {
                lemma_gaps_snoc(input@, sv, f as int, j as int);
                assert(out@ =~= pre_out + input@.subrange(rep_pre, q as int) + spec_span_gaps(
                    input@,
                    sv,
                    f as int,
                    j + 1,
                ));
            }
            j = j + 1;
        }
        let rv = self.replacements.get(id);
        out.extend_from_slice(rv.bytes());
        proof {
            Self::lemma_emit_split_shape(
                input@,
                sv,
                reps,
                k as int,
                o as int,
                id as int,
                plen as int,
                rep_pre,
                f as int,
                tail as int,
            );
            assert(e.0 =~= input@.subrange(rep_pre, q as int) + spec_span_gaps(
                input@,
                sv,
                f as int,
                k as int,
            ) + reps[id as int]);
            assert(out@ =~= pre_out + e.0);
        }
    }

    /// The match lies inside the current span: copy the unmatched bytes up
    /// to the match start and write the replacement.
    #[verifier::rlimit(100)]
    fn emit_single(
        &self,
        input: &[u8],
        out: &mut Vec<u8>,
        spans: &Vec<(usize, usize)>,
        k: usize,
        o: usize,
        id: usize,
        plen: usize,
        rep: usize,
        anchor: Ghost<(int, int, int)>,
    )
        requires
            self.wf(),
            spec_spans_wf(spans@, anchor@.0, input@.len() as int),
            0 <= anchor@.1 <= k < spans@.len(),
            0 <= anchor@.2 <= spec_span_len(spans@, anchor@.1),
            (o as int) < spec_span_len(spans@, k as int),
            id < self.placeholders@.len(),
            plen as int <= spec_tl(spans@, k as int) + o + 1 - (spec_tl(spans@, anchor@.1)
                + anchor@.2),
            rep as int <= spans@[anchor@.1].0 + anchor@.2,
            plen >= 1,
            plen <= o + 1,
        ensures
            final(out)@ == old(out)@ + spec_match_emit(
                input@,
                spans@,
                self.replacements@,
                k as int,
                o as int,
                id as int,
                plen as int,
                rep as int,
            ).0,
    {
        let ghost sv = spans@;
        let ghost reps = self.replacements@;
        let ghost lo = anchor@.0;
        let ghost hi = input@.len() as int;
        let ghost ak = anchor@.1;
        let ghost ao = anchor@.2;
        let ghost rep_pre = rep as int;
        let ghost pre_out = out@;
        let ghost e = spec_match_emit(
            input@,
            sv,
            reps,
            k as int,
            o as int,
            id as int,
            plen as int,
            rep_pre,
        );
        let a = spans[k].0;
        let start = a + (o + 1 - plen);
        proof {
            // the match start is at or after the reported cursor
            lemma_span_progress(sv, lo, hi, ak, k as int);
            lemma_tl_nonneg_pair(sv, lo, hi, ak, ao);
            assert(rep_pre <= sv[ak].0 + ao);
            assert(sv[ak].0 + (spec_tl(sv, k as int) - spec_tl(sv, ak)) <= a as int);
            assert(rep_pre <= start as int);
            assert(start as int <= sv[k as int].1 <= hi);
        }
        push_range(out, input, rep, start);
        let rv = self.replacements.get(id);
        out.extend_from_slice(rv.bytes());
        proof {
            Self::lemma_emit_single_shape(
                input@,
                sv,
                reps,
                k as int,
                o as int,
                id as int,
                plen as int,
                rep_pre,
            );
            assert(e.0 =~= input@.subrange(rep_pre, start as int) + reps[id as int]);
            assert(out@ =~= pre_out + e.0);
        }
    }

    /// Scan one paragraph's text spans and emit its rewritten bytes.
    ///
    /// `spans` are the byte ranges of the paragraph's text nodes in `input`,
    /// in increasing order; `reported` is the input offset up to which
    /// output has been written for the whole stream. Returns the new
    /// reported offset, having written exactly the paragraph scan's output.
    #[verifier::rlimit(100)]
    pub fn transform_paragraph(
        &self,
        input: &[u8],
        out: &mut Vec<u8>,
        spans: &Vec<(usize, usize)>,
        reported: usize,
    ) -> (r: usize)
        requires
            self.wf(),
            spec_spans_wf(spans@, reported as int, input@.len() as int),
            reported <= input@.len(),
        ensures
            final(out)@ == old(out)@ + spec_paragraph(
                input@,
                spans@,
                self.placeholders@,
                self.replacements@,
                reported as int,
            ).0,
            r as int == spec_paragraph(
                input@,
                spans@,
                self.placeholders@,
                self.replacements@,
                reported as int,
            ).1,
            reported <= r <= input@.len(),
            spans@.len() == 0 ==> r == reported,
            spans@.len() > 0 ==> r as int <= spans@[spans@.len() - 1].1,
    {
        let ghost pats = self.placeholders@;
        let ghost reps = self.replacements@;
        let ghost sv = spans@;
        let ghost base = old(out)@;
        let ghost lo = reported as int;
        let ghost hi = input@.len() as int;
        let ghost goal = spec_paragraph(input@, sv, pats, reps, lo);

        let mut m: Matcher = self.placeholders.start_scan();
        let mut rep: usize = reported;
        let mut k: usize = 0;
        let ghost mut ak: int = 0;
        let ghost mut ao: int = 0;
        let ghost mut fed: Seq<u8> = Seq::empty();
        let ghost mut emitted: Seq<u8> = Seq::empty();

        proof {
            assert(out@ =~= base + emitted);
        }

        while k < spans.len()
            invariant
                self.wf(),
                pats == self.placeholders@,
                reps == self.replacements@,
                sv == spans@,
                spec_spans_wf(sv, lo, hi),
                lo == reported as int,
                hi == input@.len() as int,
                goal == spec_paragraph(input@, sv, pats, reps, lo),
                0 <= k <= sv.len(),
                matcher::matcher_patterns(m) == pats,
                matcher::matcher_fed(m) == fed,
                sv.len() == 0 ==> rep as int == lo,
                sv.len() > 0 ==> ak < sv.len() && 0 <= ao <= spec_span_len(sv, ak),
                0 <= ak <= k,
                ak < k ==> ak < sv.len() && 0 <= ao <= spec_span_len(sv, ak),
                ak == k ==> ao == 0,
                fed.len() == spec_tl(sv, k as int) - (spec_tl(sv, ak) + ao),
                lo <= rep as int <= hi,
                ak < sv.len() ==> rep as int <= sv[ak].0 + ao,
                out@ == base + emitted,
                goal.0 == emitted + spec_scan(input@, sv, pats, reps, k as int, 0, fed, rep as int).0,
                goal.1 == spec_scan(input@, sv, pats, reps, k as int, 0, fed, rep as int).1,
            decreases sv.len() - k,
        {
            let a = spans[k].0;
            let b = spans[k].1;
            let mut o: usize = 0;
            while o < b - a
                invariant
                    self.wf(),
                    pats == self.placeholders@,
                    reps == self.replacements@,
                    sv == spans@,
                    spec_spans_wf(sv, lo, hi),
                    lo == reported as int,
                    hi == input@.len() as int,
                    goal == spec_paragraph(input@, sv, pats, reps, lo),
                    0 <= k < sv.len(),
                    a == sv[k as int].0,
                    b == sv[k as int].1,
                    0 <= o <= spec_span_len(sv, k as int),
                    matcher::matcher_patterns(m) == pats,
                    matcher::matcher_fed(m) == fed,
                    0 <= ak <= k,
                    ak < sv.len(),
                    0 <= ao <= spec_span_len(sv, ak),
                    ak == k ==> ao <= o,
                    fed.len() == spec_tl(sv, k as int) + o - (spec_tl(sv, ak) + ao),
                    lo <= rep as int <= hi,
                    rep as int <= sv[ak].0 + ao,
                    out@ == base + emitted,
                    goal.0 == emitted + spec_scan(
                        input@,
                        sv,
                        pats,
                        reps,
                        k as int,
                        o as int,
                        fed,
                        rep as int,
                    ).0,
                    goal.1 == spec_scan(
                        input@,
                        sv,
                        pats,
                        reps,
                        k as int,
                        o as int,
                        fed,
                        rep as int,
                    ).1,
                decreases b - a - o,
            {
                let ghost fed_pre = fed;
                let ghost rep_pre = rep as int;
                let byte = input[a + o];
                matcher::step(&mut m, byte);
                proof {
                    fed = fed_pre.push(byte);
                    lemma_tl_nonneg_pair(sv, lo, hi, ak, ao);
                }
                let is_hit = matcher::is_match(&m);
                if is_hit {
                    let id = matcher::match_pattern(&m);
                    let plen = matcher::pattern_len(&m, id);
                    proof {
                        assert(pats[id as int].is_suffix_of(fed));
                        assert(plen as int <= fed.len());
                        assert(pats[id as int].len() > 0);
                    }
                    let ghost e = spec_match_emit(
                        input@,
                        sv,
                        reps,
                        k as int,
                        o as int,
                        id as int,
                        plen as int,
                        rep_pre,
                    );
                    proof {
                        assert(plen as int <= spec_tl(sv, k as int) + o + 1 - (spec_tl(sv, ak)
                            + ao));
                    }
                    rep = self.emit_match(input, out, spans, k, o, id, plen, rep, Ghost((lo, ak, ao)));
                    proof {
                        assert(out@ =~= base + emitted + e.0);
                        assert(e.1 == rep as int);
                    }
                    m = self.placeholders.start_scan();
                    proof {
                        // unfold one scan step at the match
                        assert(spec_scan(input@, sv, pats, reps, k as int, o as int, fed_pre, rep_pre)
                            == {
                            let rest = spec_scan(
                                input@,
                                sv,
                                pats,
                                reps,
                                k as int,
                                o + 1,
                                Seq::empty(),
                                e.1,
                            );
                            (e.0 + rest.0, rest.1)
                        }) by {
                            assert(input@[sv[k as int].0 + o] == byte);
                            assert(fed_pre.push(byte) == fed);
                            assert(has_match(pats, fed));
                            assert(pick_pattern(pats, fed) == id as int);
                        }
                        emitted = emitted + e.0;
                        assert(out@ =~= base + emitted);
                        let rest = spec_scan(
                            input@,
                            sv,
                            pats,
                            reps,
                            k as int,
                            o + 1,
                            Seq::empty(),
                            e.1,
                        );
                        assert(goal.0 =~= emitted + rest.0);
                        fed = Seq::empty();
                        ak = k as int;
                        ao = o + 1;
                    }
                } else {
                    proof {
                        assert(spec_scan(input@, sv, pats, reps, k as int, o as int, fed_pre, rep_pre)
                            == spec_scan(input@, sv, pats, reps, k as int, o + 1, fed, rep_pre))
                            by {
                            assert(input@[sv[k as int].0 + o] == byte);
                            assert(fed_pre.push(byte) == fed);
                            assert(!has_match(pats, fed));
                        };
                    }
                }
                o = o + 1;
            }
            proof {
                // past the span's content: the scan moves to the next span
                assert(o as int == spec_span_len(sv, k as int));
                assert(spec_scan(input@, sv, pats, reps, k as int, o as int, fed, rep as int)
                    == spec_scan(input@, sv, pats, reps, k as int + 1, 0, fed, rep as int));
                assert(spec_tl(sv, k as int + 1) == spec_tl(sv, k as int) + spec_span_len(
                    sv,
                    k as int,
                ));
            }
            k = k + 1;
        }
        proof {
            assert(spec_scan(input@, sv, pats, reps, k as int, 0, fed, rep as int) == (
                Seq::<u8>::empty(),
                rep as int,
            ));
            assert(goal.0 =~= emitted);
            assert(out@ =~= base + goal.0);
            if sv.len() > 0 {
                assert(ak < sv.len());
                assert(rep as int <= sv[ak].0 + ao);
                assert(sv[ak].0 + ao <= sv[ak].1);
                if ak < sv.len() - 1 {
                    lemma_span_order(sv, lo, hi, ak, sv.len() - 1);
                }
                assert(rep as int <= sv[sv.len() - 1].1);
            }
        }
        rep
    }
}

/// A span total together with an offset into the span is non-negative.
proof fn lemma_tl_nonneg_pair(spans: Seq<(usize, usize)>, lo: int, hi: int, ak: int, ao: int)
    requires
        spec_spans_wf(spans, lo, hi),
        0 <= ak,
        0 <= ao,
    ensures
        spec_tl(spans, ak) + ao >= 0,
{
    if ak <= spans.len() {
        lemma_tl_mono(spans, lo, hi, 0, ak);
    } else {
        lemma_tl_beyond(spans, lo, hi, ak);
    }
}

/// Totals past the end of the span list stay non-negative.
proof fn lemma_tl_beyond(spans: Seq<(usize, usize)>, lo: int, hi: int, k: int)
    requires
        spec_spans_wf(spans, lo, hi),
        k >= 0,
    ensures
        spec_tl(spans, k) >= 0,
    decreases k,
{
    if k > 0 {
        lemma_tl_beyond(spans, lo, hi, k - 1);
        assert(spec_span_len(spans, k - 1) >= 0);
    }
}

/// One scan step that only moves the flags, the capture state and the
/// position: the stream transformation is unchanged by taking it.
proof fn lemma_step_keep(
    input: Seq<u8>,
    pats: Seq<Seq<u8>>,
    reps: Seq<Seq<u8>>,
    i: int,
    p: bool,
    r: bool,
    cap: int,
    cs: int,
    lp: int,
    sp: Seq<(usize, usize)>,
    rp: int,
    p2: bool,
    r2: bool,
    cap2: int,
    cs2: int,
    pos: int,
)
    requires
        0 <= i < crate::xmlscan::xml_events(input).len(),
        ({
            let e = crate::xmlscan::xml_events(input)[i];
            let kind = e.0;
            let name = e.1;
            &&& pos == e.2
            &&& 0 <= kind <= 2
            &&& if cap > 0 {
                if kind == 0 && name == spec_wt() {
                    cap2 == cap + 1 && cs2 == cs && p2 == p && r2 == r
                } else if kind == 1 && name == spec_wt() {
                    cap > 1 && cap2 == cap - 1 && cs2 == cs && p2 == p && r2 == r
                } else {
                    cap2 == cap && cs2 == cs && p2 == p && r2 == r
                }
            } else if kind == 0 {
                if name == spec_wp() {
                    p2 && r2 == r && cap2 == cap && cs2 == cs
                } else if name == spec_wr() {
                    r2 && p2 == p && cap2 == cap && cs2 == cs
                } else if name == spec_wt() && p && r {
                    cap2 == 1 && cs2 == pos && p2 == p && r2 == r
                } else {
                    p2 == p && r2 == r && cap2 == cap && cs2 == cs
                }
            } else if kind == 1 {
                if name == spec_wp() {
                    false
                } else if name == spec_wr() {
                    p2 == p && !r2 && cap2 == cap && cs2 == cs
                } else {
                    p2 == p && r2 == r && cap2 == cap && cs2 == cs
                }
            } else {
                p2 == p && r2 == r && cap2 == cap && cs2 == cs
            }
        }),
    ensures
        spec_stream_from(input, pats, reps, i, p, r, cap, cs, lp, sp, rp) == spec_stream_from(
            input,
            pats,
            reps,
            i + 1,
            p2,
            r2,
            cap2,
            cs2,
            pos,
            sp,
            rp,
        ),
{
    reveal(spec_stream_from);
}

/// Closing the text element that opened a capture records its span.
proof fn lemma_step_span(
    input: Seq<u8>,
    pats: Seq<Seq<u8>>,
    reps: Seq<Seq<u8>>,
    i: int,
    p: bool,
    r: bool,
    cs: int,
    lp: int,
    sp: Seq<(usize, usize)>,
    rp: int,
    pos: int,
)
    requires
        0 <= i < crate::xmlscan::xml_events(input).len(),
        crate::xmlscan::xml_events(input)[i].0 == 1,
        crate::xmlscan::xml_events(input)[i].1 == spec_wt(),
        pos == crate::xmlscan::xml_events(input)[i].2,
    ensures
        spec_stream_from(input, pats, reps, i, p, r, 1, cs, lp, sp, rp) == spec_stream_from(
            input,
            pats,
            reps,
            i + 1,
            p,
            r,
            0,
            0,
            pos,
            sp.push((cs as usize, lp as usize)),
            rp,
        ),
{
    reveal(spec_stream_from);
}

/// Closing a paragraph scans its spans and continues with the cursor the
/// scan reports.
proof fn lemma_step_paragraph(
    input: Seq<u8>,
    pats: Seq<Seq<u8>>,
    reps: Seq<Seq<u8>>,
    i: int,
    p: bool,
    r: bool,
    cs: int,
    lp: int,
    sp: Seq<(usize, usize)>,
    rp: int,
    pos: int,
)
    requires
        0 <= i < crate::xmlscan::xml_events(input).len(),
        crate::xmlscan::xml_events(input)[i].0 == 1,
        crate::xmlscan::xml_events(input)[i].1 == spec_wp(),
        pos == crate::xmlscan::xml_events(input)[i].2,
    ensures
        ({
            let para = spec_paragraph(input, sp, pats, reps, rp);
            let rest = spec_stream_from(
                input,
                pats,
                reps,
                i + 1,
                false,
                r,
                0,
                cs,
                pos,
                Seq::empty(),
                para.1,
            );
            spec_stream_from(input, pats, reps, i, p, r, 0, cs, lp, sp, rp) == (
                para.0 + rest.0,
                rest.1,
            )
        }),
{
    reveal(spec_stream_from);
}

/// At the end of input with no open text element, the tail is copied
/// through and the stream ends well.
proof fn lemma_step_eof(
    input: Seq<u8>,
    pats: Seq<Seq<u8>>,
    reps: Seq<Seq<u8>>,
    i: int,
    p: bool,
    r: bool,
    cs: int,
    lp: int,
    sp: Seq<(usize, usize)>,
    rp: int,
)
    requires
        0 <= i < crate::xmlscan::xml_events(input).len(),
        crate::xmlscan::xml_events(input)[i].0 == 3,
    ensures
        spec_stream_from(input, pats, reps, i, p, r, 0, cs, lp, sp, rp) == (
            input.subrange(rp, input.len() as int),
            true,
        ),
{
    reveal(spec_stream_from);
}

/// A read error, or an unclosed text element at the end of input, fails the
/// stream.
proof fn lemma_step_fail(
    input: Seq<u8>,
    pats: Seq<Seq<u8>>,
    reps: Seq<Seq<u8>>,
    i: int,
    p: bool,
    r: bool,
    cap: int,
    cs: int,
    lp: int,
    sp: Seq<(usize, usize)>,
    rp: int,
)
    requires
        0 <= i < crate::xmlscan::xml_events(input).len(),
        crate::xmlscan::xml_events(input)[i].0 == 4 || (crate::xmlscan::xml_events(input)[i].0
            == 3 && cap > 0),
    ensures
        !spec_stream_from(input, pats, reps, i, p, r, cap, cs, lp, sp, rp).1,
{
    reveal(spec_stream_from);
}

impl FindAndReplace {
    /// Pipe one XML part to the output, replacing every matched placeholder.
    ///
    /// On success the returned vector is the given output with the rewritten
    /// part appended; the transformation fails exactly when the reader
    /// reports an error or a text element is left unclosed at end of input.
    #[verifier::rlimit(100)]
    pub fn transform_stream(&self, input: &[u8], output: Vec<u8>) -> (r: Result<
        Vec<u8>,
        TransformerError,
    >)
        requires
            self.wf(),
        ensures
            ({
                let s = spec_stream(input@, self.placeholders@, self.replacements@);
                &&& (r is Ok <==> s.1)
                &&& (r matches Ok(v) ==> v@ == output@ + s.0)
            }),
    {
        let ghost pats = self.placeholders@;
        let ghost reps = self.replacements@;
        let ghost evs = xmlscan::xml_events(input@);
        let ghost sgoal = spec_stream(input@, pats, reps);
        let ghost base = output@;

        let mut out = output;
        let mut scan: XmlScan = xmlscan::xml_open(input);
        let mut spans: Vec<(usize, usize)> = Vec::new();
        let mut in_p = false;
        let mut in_r = false;
        let mut cap_depth: usize = 0;
        let mut cap_start: usize = 0;
        let mut last_pos: usize = 0;
        let mut rep: usize = 0;
        let ghost mut i: int = 0;
        let ghost mut emitted: Seq<u8> = Seq::empty();

        let mut done = false;
        let mut failure: Option<TransformerError> = None;

        proof {
            assert(spans@ =~= Seq::<(usize, usize)>::empty());
            assert(out@ =~= base + emitted);
            assert(sgoal.0 =~= emitted + sgoal.0);
            assert(evs.len() >= 1) by {
                reveal(crate::xmlscan::spec_events_wf);
            }
        }

        while !done
            invariant
                self.wf(),
                pats == self.placeholders@,
                reps == self.replacements@,
                evs == xmlscan::xml_events(input@),
                sgoal == spec_stream(input@, pats, reps),
                xmlscan::spec_events_wf(input@),
                xmlscan::scan_buf(scan) == input@,
                i == xmlscan::scan_done(scan),
                0 <= i <= evs.len(),
                !done ==> i < evs.len(),
                !done ==> failure is None,
                !done && i > 0 ==> last_pos as int == evs[i - 1].2,
                !done && i == 0 ==> last_pos == 0,
                !done && cap_depth > 0 ==> i > 0,
                last_pos as int <= input@.len(),
                rep as int <= last_pos as int,
                cap_depth > 0 ==> cap_start <= last_pos && 3 * (cap_depth as int - 1) <= last_pos
                    as int - cap_start as int && rep as int <= cap_start as int && (spans@.len()
                    > 0 ==> spans@[spans@.len() - 1].1 as int <= cap_start as int),
                spec_spans_wf(spans@, rep as int, input@.len() as int),
                spans@.len() > 0 ==> spans@[spans@.len() - 1].1 as int <= last_pos as int,
                out@ == base + emitted,
                !done ==> sgoal.0 == emitted + spec_stream_from(
                    input@,
                    pats,
                    reps,
                    i,
                    in_p,
                    in_r,
                    cap_depth as int,
                    cap_start as int,
                    last_pos as int,
                    spans@,
                    rep as int,
                ).0,
                !done ==> sgoal.1 == spec_stream_from(
                    input@,
                    pats,
                    reps,
                    i,
                    in_p,
                    in_r,
                    cap_depth as int,
                    cap_start as int,
                    last_pos as int,
                    spans@,
                    rep as int,
                ).1,
                done ==> (failure is Some ==> !sgoal.1),
                done ==> (failure is None ==> sgoal.1 && out@ == base + sgoal.0),
            decreases evs.len() - i,
        {
            let ghost i0 = i;
            let ghost cd0 = cap_depth as int;
            let ghost cs0 = cap_start as int;
            let ghost lp0 = last_pos as int;
            let ghost sp0 = spans@;
            let ghost rp0 = rep as int;
            let ghost p0 = in_p;
            let ghost r0 = in_r;
            let step = xmlscan::xml_next(&mut scan);
            proof {
                i = i0 + 1;
            }
            match step {
                Err(e) => {
                    failure = Some(TransformerError::ReadXmlErr(e));
                    done = true;
                    proof {
                        reveal(crate::xmlscan::spec_events_wf);
                        lemma_step_fail(input@, pats, reps, i0, p0, r0, cd0, cs0, lp0, sp0, rp0);
                    }
                },
                Ok(tok) => match tok {
                    XmlToken::Eof => {
                        proof {
                            reveal(crate::xmlscan::spec_events_wf);
                        }
                        if cap_depth > 0 {
                            failure = Some(
                                TransformerError::ReadXmlErr(xmlscan::missing_end_error()),
                            );
                            done = true;
                            proof {
                                lemma_step_fail(
                                    input@, pats, reps, i0, p0, r0, cd0, cs0, lp0, sp0, rp0,
                                );
                            }
                        } else {
                            push_range(&mut out, input, rep, input.len());
                            done = true;
                            proof {
                                lemma_step_eof(input@, pats, reps, i0, p0, r0, cs0, lp0, sp0, rp0);
                                emitted = emitted + input@.subrange(rp0, input@.len() as int);
                                assert(out@ =~= base + emitted);
                                assert(sgoal.0 =~= emitted);
                            }
                        }
                    },
                    XmlToken::Open(n, pos) => {
                        let wt = bytes_eq(n.as_slice(), "w:t".as_bytes());
                        let wp = bytes_eq(n.as_slice(), "w:p".as_bytes());
                        let wr = bytes_eq(n.as_slice(), "w:r".as_bytes());
                        proof {
                            reveal(crate::xmlscan::spec_events_wf);
                            assert(n@ == evs[i0].1 && pos as int == evs[i0].2 && evs[i0].0 == 0);
                            assert(i0 < evs.len() - 1);
                            reveal_strlit("w:p");
                            reveal_strlit("w:r");
                            reveal_strlit("w:t");
                        }
                        if cap_depth > 0 {
                            if wt {
                                proof {
                                    assert(spec_wt().len() == 3) by {
                                        assert(vstd::utf8::is_ascii_chars("w:t"@));
                                        vstd::utf8::is_ascii_chars_encode_utf8("w:t"@);
                                    }
                                    assert(evs[i0].1.len() == 3);
                                    assert(evs[i0 - 1].2 + 3 <= evs[i0].2);
                                }
                                cap_depth = cap_depth + 1;
                                proof {
                                    lemma_step_keep(
                                        input@, pats, reps, i0, p0, r0, cd0, cs0, lp0, sp0, rp0,
                                        p0, r0, cd0 + 1, cs0, pos as int,
                                    );
                                }
                            } else {
                                proof {
                                    lemma_step_keep(
                                        input@, pats, reps, i0, p0, r0, cd0, cs0, lp0, sp0, rp0,
                                        p0, r0, cd0, cs0, pos as int,
                                    );
                                }
                            }
                        } else if wp {
                            in_p = true;
                            proof {
                                lemma_step_keep(
                                    input@, pats, reps, i0, p0, r0, cd0, cs0, lp0, sp0, rp0, true,
                                    r0, cd0, cs0, pos as int,
                                );
                            }
                        } else if wr {
                            in_r = true;
                            proof {
                                lemma_step_keep(
                                    input@, pats, reps, i0, p0, r0, cd0, cs0, lp0, sp0, rp0, p0,
                                    true, cd0, cs0, pos as int,
                                );
                            }
                        } else if wt && in_p && in_r {
                            cap_depth = 1;
                            cap_start = pos;
                            proof {
                                lemma_step_keep(
                                    input@, pats, reps, i0, p0, r0, cd0, cs0, lp0, sp0, rp0, p0,
                                    r0, 1, pos as int, pos as int,
                                );
                            }
                        } else {
                            proof {
                                lemma_step_keep(
                                    input@, pats, reps, i0, p0, r0, cd0, cs0, lp0, sp0, rp0, p0,
                                    r0, cd0, cs0, pos as int,
                                );
                            }
                        }
                        last_pos = pos;
                    },
                    XmlToken::Close(n, pos) => {
                        let wt = bytes_eq(n.as_slice(), "w:t".as_bytes());
                        let wp = bytes_eq(n.as_slice(), "w:p".as_bytes());
                        let wr = bytes_eq(n.as_slice(), "w:r".as_bytes());
                        proof {
                            reveal(crate::xmlscan::spec_events_wf);
                            assert(n@ == evs[i0].1 && pos as int == evs[i0].2 && evs[i0].0 == 1);
                            assert(i0 < evs.len() - 1);
                            reveal_strlit("w:p");
                            reveal_strlit("w:r");
                            reveal_strlit("w:t");
                        }
                        if cap_depth > 0 {
                            if wt {
                                if cap_depth == 1 {
                                    spans.push((cap_start, last_pos));
                                    cap_depth = 0;
                                    cap_start = 0;
                                    proof {
                                        assert(spans@ =~= sp0.push((cs0 as usize, lp0 as usize)));
                                        lemma_step_span(
                                            input@, pats, reps, i0, p0, r0, cs0, lp0, sp0, rp0,
                                            pos as int,
                                        );
                                    }
                                } else {
                                    cap_depth = cap_depth - 1;
                                    proof {
                                        lemma_step_keep(
                                            input@, pats, reps, i0, p0, r0, cd0, cs0, lp0, sp0,
                                            rp0, p0, r0, cd0 - 1, cs0, pos as int,
                                        );
                                    }
                                }
                            } else {
                                proof {
                                    lemma_step_keep(
                                        input@, pats, reps, i0, p0, r0, cd0, cs0, lp0, sp0, rp0,
                                        p0, r0, cd0, cs0, pos as int,
                                    );
                                }
                            }
                        } else if wp {
                            let ghost para = spec_paragraph(input@, sp0, pats, reps, rp0);
                            let new_rep = self.transform_paragraph(input, &mut out, &spans, rep);
                            spans.clear();
                            in_p = false;
                            rep = new_rep;
                            proof {
                                lemma_step_paragraph(
                                    input@, pats, reps, i0, p0, r0, cs0, lp0, sp0, rp0, pos as int,
                                );
                                emitted = emitted + para.0;
                                assert(out@ =~= base + emitted);
                                assert(spans@ =~= Seq::<(usize, usize)>::empty());
                                let rest = spec_stream_from(
                                    input@,
                                    pats,
                                    reps,
                                    i0 + 1,
                                    false,
                                    r0,
                                    0,
                                    cs0,
                                    pos as int,
                                    Seq::empty(),
                                    para.1,
                                );
                                assert(sgoal.0 =~= emitted + rest.0);
                            }
                        } else if wr {
                            in_r = false;
                            proof {
                                lemma_step_keep(
                                    input@, pats, reps, i0, p0, r0, cd0, cs0, lp0, sp0, rp0, p0,
                                    false, cd0, cs0, pos as int,
                                );
                            }
                        } else {
                            proof {
                                lemma_step_keep(
                                    input@, pats, reps, i0, p0, r0, cd0, cs0, lp0, sp0, rp0, p0,
                                    r0, cd0, cs0, pos as int,
                                );
                            }
                        }
                        last_pos = pos;
                    },
                    XmlToken::Other(pos) => {
                        proof {
                            reveal(crate::xmlscan::spec_events_wf);
                            assert(pos as int == evs[i0].2 && evs[i0].0 == 2);
                            assert(i0 < evs.len() - 1);
                            lemma_step_keep(
                                input@, pats, reps, i0, p0, r0, cd0, cs0, lp0, sp0, rp0, p0, r0,
                                cd0, cs0, pos as int,
                            );
                        }
                        last_pos = pos;
                    },
                },
            }
        }
        match failure {
            Some(e) => Err(e),
            None => Ok(out),
        }
    }
}

} // verus!
