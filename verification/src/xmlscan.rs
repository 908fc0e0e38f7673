//! Trusted surface over the event-based XML reader.
//!
//! The reader yields the markup of one part as a stream of events; the
//! stream, with the byte position just after each event, is a function of
//! the input bytes alone. Events are abstracted as tuples
//! `(kind, name, pos)`: kind 0 is an element start tag with its name, kind 1
//! an end tag with its name, kind 2 any other event (text, comment, CDATA,
//! declaration, processing instruction, self-closing tag, entity
//! reference), kind 3 the end of input and kind 4 a read error; `pos` is the
//! byte offset just after the event's bytes. Consecutive events cover the
//! input in order, so positions never decrease, and the last event of the
//! stream is the end of input or an error.

use vstd::prelude::*;

verus! {

/// The XML reader's error type, carried through unchanged so that callers
/// can tell a malformed document from an I/O failure.
#[verifier::external_type_specification]
#[verifier::external_body]
pub struct ExQuickXmlError(quick_xml::Error);

/// A pull-based scanner over one XML part.
///
/// The reader type borrows from internal buffers and cannot be declared to
/// the verifier, so the whole handle is opaque: its abstract content is the
/// scanned bytes and the number of events already consumed.
#[verifier::external_body]
pub struct XmlScan {
    rdr: quick_xml::Reader<std::io::Cursor<Vec<u8>>>,
    scratch: Vec<u8>,
}

/// The event stream the XML reader yields on `buf`, one `(kind, name, pos)`
/// tuple per `read_event` call, cut off after the first end-of-input or
/// error event.
pub uninterp spec fn xml_events(buf: Seq<u8>) -> Seq<(int, Seq<u8>, int)>;

/// The bytes a scanner reads.
pub uninterp spec fn scan_buf(s: XmlScan) -> Seq<u8>;

/// How many events a scanner has already yielded.
pub uninterp spec fn scan_done(s: XmlScan) -> int;

/// One event handed to the transformer: an element start or end tag with
/// its name and the position just after it, any other markup with its
/// position, or the end of input.
pub enum XmlToken {
    Open(Vec<u8>, usize),
    Close(Vec<u8>, usize),
    Other(usize),
    Eof,
}

/// The token faithfully renders the abstract event.
pub open spec fn token_matches(t: XmlToken, e: (int, Seq<u8>, int)) -> bool {
    match t {
        XmlToken::Open(n, p) => e.0 == 0 && n@ == e.1 && p as int == e.2,
        XmlToken::Close(n, p) => e.0 == 1 && n@ == e.1 && p as int == e.2,
        XmlToken::Other(p) => e.0 == 2 && p as int == e.2,
        XmlToken::Eof => e.0 == 3,
    }
}

/// Structure of an event stream: it is non-empty, only its last event is an
/// end-of-input or error, kinds lie in range, and positions stay within the
/// buffer and never decrease. Each markup or text event covers at least one
/// input byte, and a start tag covers at least its angle brackets and its
/// name (a nameless `<>` covers two bytes), so positions strictly advance.
#[verifier::opaque]
pub open spec fn spec_events_wf(buf: Seq<u8>) -> bool {
    let evs = xml_events(buf);
    &&& evs.len() >= 1
    &&& (evs.last().0 == 3 || evs.last().0 == 4)
    &&& forall|i: int| 0 <= i < evs.len() - 1 ==> 0 <= (#[trigger] evs[i]).0 <= 2
    &&& forall|i: int| 0 <= i < evs.len() ==> 0 <= (#[trigger] evs[i]).2 <= buf.len()
    &&& forall|i: int, j: int|
        0 <= i <= j < evs.len() ==> (#[trigger] evs[i]).2 <= (#[trigger] evs[j]).2
    &&& forall|i: int|
        1 <= i < evs.len() && (#[trigger] evs[i]).0 <= 2 ==> evs[i - 1].2 < evs[i].2
    &&& forall|i: int|
        1 <= i < evs.len() && (#[trigger] evs[i]).0 == 0 ==> evs[i - 1].2 + 2 + evs[i].1.len()
            <= evs[i].2
}

/// Relies on `quick_xml::Reader::from_reader` and `Config::check_end_names`:
/// an event reader over the given bytes with strict end-tag name checking,
/// positioned before the first event.
#[verifier::external_body]
pub(crate) fn xml_open(input: &[u8]) -> (r: XmlScan)
    ensures
        scan_buf(r) == input@,
        scan_done(r) == 0,
        spec_events_wf(scan_buf(r)),
{
    let mut rdr = quick_xml::Reader::from_reader(std::io::Cursor::new(input.to_vec()));
    rdr.config_mut().check_end_names = true;
    XmlScan { rdr, scratch: Vec::new() }
}

/// Relies on `quick_xml::Reader::read_event_into` and `buffer_position`:
/// the next event of the stream — a function of the scanned bytes and of
/// how many events came before — with the byte position just after it.
#[verifier::external_body]
pub(crate) fn xml_next(s: &mut XmlScan) -> (r: Result<XmlToken, quick_xml::Error>)
    ensures
        scan_buf(*final(s)) == scan_buf(*old(s)),
        scan_done(*final(s)) == scan_done(*old(s)) + 1,
        ({
            let evs = xml_events(scan_buf(*old(s)));
            let i = scan_done(*old(s));
            0 <= i < evs.len() ==> match r {
                Ok(t) => evs[i].0 != 4 && token_matches(t, evs[i]),
                Err(_) => evs[i].0 == 4,
            }
        }),
{
    s.scratch.clear();
    let ev = match s.rdr.read_event_into(&mut s.scratch) {
        Ok(ev) => ev,
        Err(e) => return Err(e),
    };
    let pos = s.rdr.buffer_position() as usize;
    Ok(
        match ev {
            quick_xml::events::Event::Start(t) => XmlToken::Open(t.name().as_ref().as_bytes().to_vec(), pos),
            quick_xml::events::Event::End(t) => XmlToken::Close(t.name().as_ref().as_bytes().to_vec(), pos),
            quick_xml::events::Event::Eof => XmlToken::Eof,
            _ => XmlToken::Other(pos),
        },
    )
}

/// Relies on `quick_xml::errors::IllFormedError`: the error that a text
/// element left unclosed at the end of input is reported with.
#[verifier::external_body]
pub(crate) fn missing_end_error() -> (r: quick_xml::Error)
{
    quick_xml::Error::IllFormed(
        quick_xml::errors::IllFormedError::MissingEndTag("w:t".to_string()),
    )
}

} // verus!
