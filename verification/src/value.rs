//! Replacement payloads: escaped text or raw markup, stored as bytes that
//! are ready to be written into the rewritten part.

use vstd::prelude::*;
use vstd::string::StringSliceAdditionalSpecFns;
use crate::iter_tools::{spec_join, lemma_join_push};

verus! {

/// The markup written between consecutive lines of an escaped text value, so
/// that a line break in the input becomes an explicit break element.
pub open spec fn spec_line_break() -> Seq<u8> {
    "</w:t><w:br/><w:t>".spec_bytes()
}

/// What one text byte becomes in escaped output: the five XML special
/// characters and the carriage return get their character references, every
/// other byte stays itself.
pub open spec fn spec_escape_byte(b: u8) -> Seq<u8> {
    if b == '<' as u8 {
        "&lt;".spec_bytes()
    } else if b == '>' as u8 {
        "&gt;".spec_bytes()
    } else if b == '&' as u8 {
        "&amp;".spec_bytes()
    } else if b == '\'' as u8 {
        "&apos;".spec_bytes()
    } else if b == '"' as u8 {
        "&quot;".spec_bytes()
    } else if b == 13 {
        "&#13;".spec_bytes()
    } else {
        seq![b]
    }
}

/// A byte sequence with every byte escaped.
pub open spec fn spec_escape(s: Seq<u8>) -> Seq<u8>
    decreases s.len(),
{
    if s.len() == 0 {
        Seq::empty()
    } else {
        spec_escape_byte(s[0]) + spec_escape(s.drop_first())
    }
}

/// Index of the first line feed in `s`, or `s.len()` if there is none.
pub open spec fn spec_first_nl(s: Seq<u8>) -> int
    decreases s.len(),
{
    if s.len() == 0 {
        0
    } else if s[0] == 10 {
        0
    } else {
        1 + spec_first_nl(s.drop_first())
    }
}

/// A line with one trailing carriage return removed, as a line-feed split
/// leaves it when the input used `\r\n` endings.
pub open spec fn spec_strip_cr(line: Seq<u8>) -> Seq<u8> {
    if line.len() > 0 && line.last() == 13 {
        line.drop_last()
    } else {
        line
    }
}

/// The lines of `s`, as the standard line iterator yields them: pieces
/// between line feeds, each with a trailing carriage return removed, and no
/// empty piece after a terminal line feed.
pub open spec fn spec_lines(s: Seq<u8>) -> Seq<Seq<u8>>
    decreases s.len(),
    via spec_lines_decreases
{
    if s.len() == 0 {
        Seq::empty()
    } else {
        let i = spec_first_nl(s);
        if i == s.len() {
            seq![s]
        } else {
            seq![spec_strip_cr(s.take(i))] + spec_lines(s.skip(i + 1))
        }
    }
}

#[via_fn]
proof fn spec_lines_decreases(s: Seq<u8>) {
    lemma_first_nl_bounds(s);
}

/// The first line feed position lies within the sequence.
proof fn lemma_first_nl_bounds(s: Seq<u8>)
    ensures
        0 <= spec_first_nl(s) <= s.len(),
    decreases s.len(),
{
    if s.len() > 0 && s[0] != 10 {
        lemma_first_nl_bounds(s.drop_first());
    }
}

/// The pieces of `s` split at every line feed, with a preceding carriage
/// return consumed by the split: unlike `spec_lines`, a terminal line feed
/// yields a final empty piece, and an empty input is one empty piece.
pub open spec fn spec_split_crlf(s: Seq<u8>) -> Seq<Seq<u8>>
    decreases s.len(),
    via spec_split_crlf_decreases
{
    let i = spec_first_nl(s);
    if i == s.len() {
        seq![s]
    } else {
        seq![spec_strip_cr(s.take(i))] + spec_split_crlf(s.skip(i + 1))
    }
}

#[via_fn]
proof fn spec_split_crlf_decreases(s: Seq<u8>) {
    lemma_first_nl_bounds(s);
}

/// The payload an escaped text value renders to: its lines, each escaped,
/// joined with explicit line breaks.
pub open spec fn spec_text_payload(s: Seq<u8>) -> Seq<u8> {
    spec_join(spec_lines(s).map_values(|l: Seq<u8>| spec_escape(l)), spec_line_break())
}

/// As `spec_text_payload`, but over the carriage-return-aware split that
/// keeps a final empty piece.
pub open spec fn spec_split_payload(s: Seq<u8>) -> Seq<u8> {
    spec_join(spec_split_crlf(s).map_values(|l: Seq<u8>| spec_escape(l)), spec_line_break())
}

/// A text value or a piece of XML ready to replace a placeholder.
#[derive(Debug)]
pub struct Value(pub(crate) Vec<u8>);

impl Clone for Value {
    /// A copy carries the same payload bytes.
    fn clone(&self) -> (r: Self)
        ensures
            r@ == self@,
    {
        Value(vstd::slice::slice_to_vec(self.0.as_slice()))
    }
}

impl View for Value {
    type V = Seq<u8>;

    /// A value is, abstractly, the bytes it writes into the output part.
    closed spec fn view(&self) -> Seq<u8> {
        self.0@
    }
}

impl DeepView for Value {
    type V = Seq<u8>;

    open spec fn deep_view(&self) -> Seq<u8> {
        self.view()
    }
}

impl Value {
    /// The bytes this value writes into the output.
    pub fn bytes(&self) -> (r: &[u8])
        ensures
            r@ == self@,
    {
        self.0.as_slice()
    }

    /// A raw markup fragment, stored verbatim.
    pub fn from_xml(xml: &str) -> (r: Value)
        ensures
            r@ == xml.spec_bytes(),
    {
        Value(vstd::slice::slice_to_vec(xml.as_bytes()))
    }

    /// Escaped plain text: each line is escaped and lines are joined with an
    /// explicit break element, so that line breaks survive in the document.
    pub fn from_text(text: &str) -> (r: Value)
        ensures
            r@ == spec_text_payload(text.spec_bytes()),
    {
        let lines = split_lines(text.as_bytes());
        let escaped = escape_all(lines);
        Value(join_payload(escaped))
    }
}

/// Legacy single-payload form of a replacement value.
#[derive(Debug, Clone)]
pub enum Replacement {
    Xml(Vec<u8>),
}

impl View for Replacement {
    type V = Seq<u8>;

    closed spec fn view(&self) -> Seq<u8> {
        match self {
            Replacement::Xml(v) => v@,
        }
    }
}

impl Replacement {
    /// A raw markup fragment, stored verbatim.
    pub fn from_xml(xml: &str) -> (r: Replacement)
        ensures
            r@ == xml.spec_bytes(),
    {
        Replacement::Xml(vstd::slice::slice_to_vec(xml.as_bytes()))
    }

    /// Escaped plain text, split at every line ending so that a trailing
    /// line ending still produces a break element.
    pub fn from_text(text: &str) -> (r: Replacement)
        ensures
            r@ == spec_split_payload(text.spec_bytes()),
    {
        let pieces = split_crlf(text.as_bytes());
        let escaped = escape_all(pieces);
        Replacement::Xml(join_payload(escaped))
    }
}

/// `spec_first_nl` is the least line-feed position.
proof fn lemma_first_nl_is(s: Seq<u8>, j: int)
    requires
        0 <= j <= s.len(),
        forall|k: int| 0 <= k < j ==> s[k] != 10,
        j == s.len() || s[j] == 10,
    ensures
        spec_first_nl(s) == j,
    decreases s.len(),
{
    if s.len() == 0 {
    } else if s[0] == 10 {
        assert(j == 0);
    } else {
        assert(j >= 1);
        lemma_first_nl_is(s.drop_first(), j - 1);
    }
}

/// Escaping distributes over extending by one byte.
proof fn lemma_escape_push(s: Seq<u8>, b: u8)
    ensures
        spec_escape(s.push(b)) == spec_escape(s) + spec_escape_byte(b),
    decreases s.len(),
{
    if s.len() == 0 {
        assert(s.push(b).len() == 1);
        assert(s.push(b)[0] == b);
        assert(s.push(b).drop_first() =~= Seq::<u8>::empty());
        assert(spec_escape(s.push(b)) == spec_escape_byte(b) + spec_escape(Seq::<u8>::empty()));
        assert(spec_escape_byte(b) + Seq::<u8>::empty() =~= spec_escape_byte(b));
        assert(spec_escape(s) =~= Seq::<u8>::empty());
        assert(spec_escape(s) + spec_escape_byte(b) =~= spec_escape_byte(b));
    } else {
        lemma_escape_push(s.drop_first(), b);
        assert(s.push(b).drop_first() =~= s.drop_first().push(b));
        assert(s.push(b)[0] == s[0]);
        assert(spec_escape(s) + spec_escape_byte(b) =~= spec_escape_byte(s[0]) + (spec_escape(
            s.drop_first(),
        ) + spec_escape_byte(b)));
    }
}

/// One escaped piece of text.
fn escape_bytes(s: &[u8]) -> (r: Vec<u8>)
    ensures
        r@ == spec_escape(s@),
{
    let mut out: Vec<u8> = Vec::new();
    let mut i: usize = 0;
    while i < s.len()
        invariant
            0 <= i <= s@.len(),
            out@ == spec_escape(s@.take(i as int)),
        decreases s@.len() - i,
    {
        let b = s[i];
        if b == '<' as u8 {
            out.extend_from_slice("&lt;".as_bytes());
        } else if b == '>' as u8 {
            out.extend_from_slice("&gt;".as_bytes());
        } else if b == '&' as u8 {
            out.extend_from_slice("&amp;".as_bytes());
        } else if b == '\'' as u8 {
            out.extend_from_slice("&apos;".as_bytes());
        } else if b == '"' as u8 {
            out.extend_from_slice("&quot;".as_bytes());
        } else if b == 13 {
            out.extend_from_slice("&#13;".as_bytes());
        } else {
            out.push(b);
        }
        proof {
            lemma_escape_push(s@.take(i as int), b);
            assert(s@.take(i as int).push(b) =~= s@.take(i + 1));
            if !(b == '<' as u8 || b == '>' as u8 || b == '&' as u8 || b == '\'' as u8 || b == '"'
                as u8 || b == 13) {
                assert(spec_escape_byte(b) =~= seq![b]);
            }
        }
        i += 1;
    }
    proof {
        assert(s@.take(s@.len() as int) =~= s@);
    }
    out
}

/// Every piece escaped, in order.
fn escape_all(pieces: Vec<Vec<u8>>) -> (r: Vec<Vec<u8>>)
    ensures
        r.deep_view() == pieces.deep_view().map_values(|l: Seq<u8>| spec_escape(l)),
{
    let ghost views = pieces.deep_view();
    let mut out: Vec<Vec<u8>> = Vec::new();
    let mut i: usize = 0;
    while i < pieces.len()
        invariant
            0 <= i <= pieces.len(),
            views == pieces.deep_view(),
            views.len() == pieces.len(),
            out@.len() == i,
            forall|k: int| 0 <= k < i ==> (#[trigger] out@[k])@ == spec_escape(views[k]),
        decreases pieces.len() - i,
    {
        assert(pieces@[i as int].deep_view() =~= pieces@[i as int]@);
        let e = escape_bytes(pieces[i].as_slice());
        out.push(e);
        i += 1;
    }
    proof {
        assert forall|k: int| 0 <= k < views.len() implies out.deep_view()[k] == views.map_values(
            |l: Seq<u8>| spec_escape(l),
        )[k] by {
            assert(out@[k].deep_view() =~= out@[k]@);
        }
        assert(out.deep_view() =~= views.map_values(|l: Seq<u8>| spec_escape(l)));
    }
    out
}

/// The pieces joined with the line-break markup.
fn join_payload(pieces: Vec<Vec<u8>>) -> (r: Vec<u8>)
    ensures
        r@ == spec_join(pieces.deep_view(), spec_line_break()),
{
    let ghost views = pieces.deep_view();
    let mut out: Vec<u8> = Vec::new();
    if pieces.len() == 0 {
        return out;
    }
    assert(pieces@[0].deep_view() =~= pieces@[0]@);
    out.extend_from_slice(pieces[0].as_slice());
    assert(out@ == spec_join(views.take(1), spec_line_break()));
    let mut i: usize = 1;
    while i < pieces.len()
        invariant
            1 <= i <= pieces.len(),
            views == pieces.deep_view(),
            views.len() == pieces.len(),
            out@ == spec_join(views.take(i as int), spec_line_break()),
        decreases pieces.len() - i,
    {
        out.extend_from_slice("</w:t><w:br/><w:t>".as_bytes());
        assert(pieces@[i as int].deep_view() =~= pieces@[i as int]@);
        out.extend_from_slice(pieces[i].as_slice());
        proof {
            lemma_join_push(views.take(i as int), views[i as int], spec_line_break());
            assert(views.take(i as int).push(views[i as int]) =~= views.take(i + 1));
        }
        i += 1;
    }
    proof {
        assert(views.take(pieces.len() as int) =~= views);
    }
    out
}

/// The input cut into standard lines.
fn split_lines(s: &[u8]) -> (r: Vec<Vec<u8>>)
    ensures
        r.deep_view() == spec_lines(s@),
{
    let mut out: Vec<Vec<u8>> = Vec::new();
    let mut p: usize = 0;
    proof {
        assert(out.deep_view() =~= Seq::<Seq<u8>>::empty());
        assert(s@.skip(0) =~= s@);
    }
    while p < s.len()
        invariant
            0 <= p <= s@.len(),
            out@.len() >= 0,
            spec_lines(s@) == out.deep_view() + spec_lines(s@.skip(p as int)),
        decreases s@.len() - p,
    {
        let ghost rest = s@.skip(p as int);
        // find the next line feed at or after p
        let mut q: usize = p;
        while q < s.len() && s[q] != 10
            invariant
                p <= q <= s@.len(),
                forall|k: int| p <= k < q ==> s@[k] != 10,
            decreases s@.len() - q,
        {
            q += 1;
        }
        proof {
            assert forall|k: int| 0 <= k < q - p implies rest[k] != 10 by {
                assert(rest[k] == s@[p + k]);
            }
            if q < s@.len() {
                assert(rest[q - p] == s@[q as int]);
            }
            lemma_first_nl_is(rest, q - p);
        }
        // the line is s[p..q], minus one trailing carriage return
        let mut line_end = q;
        if q > p && s[q - 1] == 13 && q < s.len() {
            line_end = q - 1;
        }
        let line = vstd::slice::slice_to_vec(vstd::slice::slice_subrange(s, p, line_end));
        proof {
            assert(rest.take(q - p) =~= s@.subrange(p as int, q as int));
            if q > p && s@[q - 1] == 13 && q < s@.len() {
                assert(spec_strip_cr(rest.take(q - p)) =~= s@.subrange(p as int, q - 1));
            } else if q < s@.len() {
                assert(spec_strip_cr(rest.take(q - p)) =~= s@.subrange(p as int, q as int));
            } else {
                assert(rest =~= s@.subrange(p as int, q as int));
            }
        }
        let ghost pre_dv = out.deep_view();
        let ghost pre_v = out@;
        out.push(line);
        proof {
            assert forall|k: int| 0 <= k < pre_dv.len() implies out.deep_view()[k] == pre_dv[k] by {
                assert(out@[k] == pre_v[k]);
            }
            assert(out@[out@.len() - 1].deep_view() =~= line@);
            assert(out.deep_view() =~= pre_dv.push(line@));
        }
        if q < s.len() {
            proof {
                assert(rest.skip(q + 1 - p) =~= s@.skip(q + 1));
                assert(spec_lines(rest) == seq![spec_strip_cr(rest.take(q - p))] + spec_lines(
                    rest.skip(q - p + 1),
                ));
            }
            p = q + 1;
        } else {
            proof {
                assert(spec_lines(rest) == seq![rest]);
                assert(s@.skip(s@.len() as int) =~= Seq::<u8>::empty());
            }
            p = q;
            assert(p == s@.len());
        }
        proof {
            assert(spec_lines(s@) =~= out.deep_view() + spec_lines(s@.skip(p as int)));
        }
    }
    proof {
        assert(s@.skip(p as int) =~= Seq::<u8>::empty());
        assert(spec_lines(s@.skip(p as int)) =~= Seq::<Seq<u8>>::empty());
        assert(out.deep_view() =~= spec_lines(s@));
    }
    out
}

/// The input cut at every line ending, keeping a final empty piece.
fn split_crlf(s: &[u8]) -> (r: Vec<Vec<u8>>)
    ensures
        r.deep_view() == spec_split_crlf(s@),
{
    let mut out: Vec<Vec<u8>> = Vec::new();
    let mut p: usize = 0;
    let mut done = false;
    proof {
        assert(out.deep_view() =~= Seq::<Seq<u8>>::empty());
        assert(s@.skip(0) =~= s@);
    }
    while !done
        invariant
            0 <= p <= s@.len(),
            !done ==> spec_split_crlf(s@) == out.deep_view() + spec_split_crlf(s@.skip(p as int)),
            done ==> out.deep_view() == spec_split_crlf(s@),
        decreases s@.len() - p + (if done { 0int } else { 1int }),
    {
        let ghost rest = s@.skip(p as int);
        let mut q: usize = p;
        while q < s.len() && s[q] != 10
            invariant
                p <= q <= s@.len(),
                forall|k: int| p <= k < q ==> s@[k] != 10,
            decreases s@.len() - q,
        {
            q += 1;
        }
        proof {
            assert forall|k: int| 0 <= k < q - p implies rest[k] != 10 by {
                assert(rest[k] == s@[p + k]);
            }
            if q < s@.len() {
                assert(rest[q - p] == s@[q as int]);
            }
            lemma_first_nl_is(rest, q - p);
        }
        let mut line_end = q;
        if q > p && s[q - 1] == 13 && q < s.len() {
            line_end = q - 1;
        }
        let line = vstd::slice::slice_to_vec(vstd::slice::slice_subrange(s, p, line_end));
        proof {
            assert(rest.take(q - p) =~= s@.subrange(p as int, q as int));
            if q > p && s@[q - 1] == 13 && q < s@.len() {
                assert(spec_strip_cr(rest.take(q - p)) =~= s@.subrange(p as int, q - 1));
            } else if q < s@.len() {
                assert(spec_strip_cr(rest.take(q - p)) =~= s@.subrange(p as int, q as int));
            } else {
                assert(rest =~= s@.subrange(p as int, q as int));
            }
        }
        let ghost pre_dv = out.deep_view();
        let ghost pre_v = out@;
        out.push(line);
        proof {
            assert forall|k: int| 0 <= k < pre_dv.len() implies out.deep_view()[k] == pre_dv[k] by {
                assert(out@[k] == pre_v[k]);
            }
            assert(out@[out@.len() - 1].deep_view() =~= line@);
            assert(out.deep_view() =~= pre_dv.push(line@));
        }
        if q < s.len() {
            proof {
                assert(rest.skip(q + 1 - p) =~= s@.skip(q + 1));
                assert(spec_split_crlf(rest) == seq![spec_strip_cr(rest.take(q - p))]
                    + spec_split_crlf(rest.skip(q - p + 1)));
            }
            p = q + 1;
            proof {
                assert(spec_split_crlf(s@) =~= out.deep_view() + spec_split_crlf(
                    s@.skip(p as int),
                ));
            }
        } else {
            proof {
                assert(spec_split_crlf(rest) == seq![rest]);
                assert(out.deep_view() =~= spec_split_crlf(s@));
            }
            done = true;
        }
    }
    out
}

} // verus!
