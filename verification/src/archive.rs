//! Trusted surface over the zip archive codec.
//!
//! A source archive is, abstractly, its ordered list of entries; each entry
//! is a tuple
//! `(name, method, time, mode, csize, usize, comment, content, raw)`: the
//! entry's path bytes, its compression method as the raw registry number,
//! its stored modification time as raw MS-DOS date and time words, its unix
//! permission bits, its compressed and uncompressed sizes, its comment
//! bytes, its decoded content bytes, and its stored compressed
//! representation. An output archive under construction is its list of
//! written entries `(name, method, time, mode, large, comment, content,
//! repr)`, where `time`, `mode` and `large` are the values the entry was
//! declared with and `repr` is the stored representation it was copied from,
//! or nothing for an entry compressed freshly from its content.

use vstd::prelude::*;

verus! {

/// One entry of a source archive, as stored: path bytes, compression method
/// number, raw MS-DOS time, unix permission bits, compressed and
/// uncompressed sizes, comment bytes, decoded content, stored compressed
/// representation.
pub type SrcEntry = (
    Seq<u8>,
    u16,
    Option<(u16, u16)>,
    Option<u32>,
    u64,
    u64,
    Seq<u8>,
    Seq<u8>,
    Seq<u8>,
);

/// One entry of an output archive, as declared to the writer: path bytes,
/// compression method number, MS-DOS time, unix permission bits, large-file
/// flag, comment bytes, content, and the stored representation it was
/// raw-copied from (nothing when the writer compresses the content afresh).
pub type OutEntry = (Seq<u8>, u16, (u16, u16), u32, bool, Seq<u8>, Seq<u8>, Option<Seq<u8>>);

/// The archive codec's error type, carried through unchanged.
#[verifier::external_type_specification]
#[verifier::external_body]
pub struct ExZipError(zip::result::ZipError);

/// A readable archive over an in-memory buffer.
#[verifier::external_body]
pub struct SourceArchive {
    inner: zip::ZipArchive<std::io::Cursor<Vec<u8>>>,
}

/// An output archive being written into an in-memory buffer.
#[verifier::external_body]
pub struct ZipSink {
    inner: zip::ZipWriter<std::io::Cursor<Vec<u8>>>,
}

/// The entries a source archive holds, in their stored order.
pub uninterp spec fn src_entries(a: SourceArchive) -> Seq<SrcEntry>;

/// Per entry of a source archive: whether it can be opened and its streams
/// read — false for example for an encrypted entry, one using an unsupported
/// method, or one whose compressed data is corrupt. A function of the
/// archive value alone: the buffer is in memory and decoding is
/// deterministic.
pub uninterp spec fn src_accessible(a: SourceArchive) -> Seq<bool>;

/// What opening the given bytes as an archive yields: the stored entry list,
/// or nothing when the bytes are not a well-formed archive. A deterministic
/// function of the bytes.
pub uninterp spec fn zip_parses(bytes: Seq<u8>) -> Option<Seq<SrcEntry>>;

/// The entries written to an output archive so far, in order.
pub uninterp spec fn out_entries(w: ZipSink) -> Seq<OutEntry>;

/// Whether a raw MS-DOS date and time pair denotes a representable date.
pub uninterp spec fn dos_valid(date: u16, time: u16) -> bool;

/// Whether the writer can compress fresh content with the given method
/// number at its default settings.
pub uninterp spec fn method_writable(method: u16) -> bool;

/// The bytes the archive writer serializes a list of entries to: a
/// deterministic function of the written entries for this build of the
/// codec — an entry carrying a stored representation is copied from it, and
/// a fresh entry is compressed from its content with the default settings.
pub uninterp spec fn zip_serialize(entries: Seq<OutEntry>) -> Seq<u8>;

/// The modification time an output entry is declared with when reusing a
/// source entry's metadata: the stored time when it is representable, the
/// fixed fallback otherwise — the resolution `ZipFile::options` performs.
pub open spec fn spec_out_time(time: Option<(u16, u16)>) -> (u16, u16) {
    match time {
        Some(dt) => if dos_valid(dt.0, dt.1) {
            dt
        } else {
            (33u16, 0u16)
        },
        None => (33u16, 0u16),
    }
}

/// The permission bits an output entry is declared with when reusing a
/// source entry's metadata: the stored bits or a plain-file default, with
/// the regular-file flag set — the resolution `ZipFile::options` performs.
pub open spec fn spec_out_mode(mode: Option<u32>) -> u32 {
    (match mode {
        Some(m) => m,
        None => 0o644u32,
    }) | 0o100000u32
}

/// Whether an output entry reusing a source entry's sizes must be declared
/// in the large-file format.
pub open spec fn spec_out_large(csize: u64, usz: u64) -> bool {
    (if csize > usz {
        csize
    } else {
        usz
    }) > 0xFFFF_FFFFu64
}

/// What a raw copy of a source entry appends to the output: the stored
/// representation verbatim, under the source's name, method, comment and
/// content, declared with the resolved time, mode and large-file flag.
pub open spec fn spec_raw_out(e: SrcEntry) -> OutEntry {
    (
        e.0,
        e.1,
        spec_out_time(e.2),
        spec_out_mode(e.3),
        spec_out_large(e.4, e.5),
        e.6,
        e.7,
        Some(e.8),
    )
}

/// The metadata of one source entry, as plain values.
pub struct EntryMeta {
    pub method: u16,
    pub time: Option<(u16, u16)>,
    pub time_valid: bool,
    pub mode: Option<u32>,
    pub csize: u64,
    pub usize_: u64,
}

/// What a new output entry is declared with.
pub struct WriteMeta {
    pub method: u16,
    pub date: u16,
    pub time: u16,
    pub mode: u32,
    pub large: bool,
}

/// Relies on `zip::ZipArchive::new`: opens an archive over the given bytes,
/// succeeding exactly when they parse as a well-formed archive, whose stored
/// entries it then holds.
#[verifier::external_body]
pub(crate) fn zip_open(bytes: Vec<u8>) -> (r: Result<SourceArchive, zip::result::ZipError>)
    ensures
        r is Ok <==> zip_parses(bytes@) is Some,
        r matches Ok(a) ==> src_entries(a) == zip_parses(bytes@).unwrap() && src_accessible(
            a,
        ).len() == src_entries(a).len(),
{
    Ok(SourceArchive { inner: zip::ZipArchive::new(std::io::Cursor::new(bytes))? })
}

/// Relies on `zip::ZipArchive::len`: how many entries the archive holds.
#[verifier::external_body]
pub(crate) fn entry_count(a: &SourceArchive) -> (r: usize)
    ensures
        r == src_entries(*a).len(),
{
    a.inner.len()
}

/// Relies on `zip::ZipArchive::by_index` and `ZipFile::name`: the stored
/// path of entry `i`, decoded as the codec reads it; it is returned whenever
/// the entry can be opened at all.
#[verifier::external_body]
pub(crate) fn entry_name(a: &mut SourceArchive, i: usize) -> (r: Result<
    String,
    zip::result::ZipError,
>)
    requires
        i < src_entries(*old(a)).len(),
    ensures
        src_entries(*final(a)) == src_entries(*old(a)),
        src_accessible(*final(a)) == src_accessible(*old(a)),
        r matches Ok(n) ==> vstd::utf8::encode_utf8(n@) == src_entries(*old(a))[i as int].0,
        i < src_accessible(*old(a)).len() && src_accessible(*old(a))[i as int] ==> r is Ok,
{
    let f = a.inner.by_index(i)?;
    Ok(f.name().to_string())
}

/// Relies on `zip::ZipArchive::by_index` and the `ZipFile` accessors
/// `compression`, `last_modified`, `unix_mode`, `compressed_size` and
/// `size`: the stored metadata of entry `i`, with the time's validity as
/// `DateTime::is_valid` reports it.
#[verifier::external_body]
pub(crate) fn entry_meta(a: &mut SourceArchive, i: usize) -> (r: Result<
    EntryMeta,
    zip::result::ZipError,
>)
    requires
        i < src_entries(*old(a)).len(),
    ensures
        src_entries(*final(a)) == src_entries(*old(a)),
        src_accessible(*final(a)) == src_accessible(*old(a)),
        r matches Ok(m) ==> {
            let e = src_entries(*old(a))[i as int];
            &&& m.method == e.1
            &&& m.time == e.2
            &&& m.mode == e.3
            &&& m.csize == e.4
            &&& m.usize_ == e.5
            &&& m.time_valid == match e.2 {
                Some(dt) => dos_valid(dt.0, dt.1),
                None => false,
            }
        },
        i < src_accessible(*old(a)).len() && src_accessible(*old(a))[i as int] ==> r is Ok,
{
    #[allow(deprecated)]
    let f = a.inner.by_index(i)?;
    #[allow(deprecated)]
    let method = f.compression().to_u16();
    Ok(
        EntryMeta {
            method,
            time: f.last_modified().map(|d| (d.datepart(), d.timepart())),
            time_valid: f.last_modified().map(|d| d.is_valid()).unwrap_or(false),
            mode: f.unix_mode(),
            csize: f.compressed_size(),
            usize_: f.size(),
        },
    )
}

/// Relies on `zip::ZipArchive::by_index` and `Read::read_to_string`: the
/// decoded content of entry `i`, read as text the way a part selected for
/// transformation is; it is returned whenever the entry's stream can be read
/// and its content decodes as text.
#[verifier::external_body]
pub(crate) fn read_entry_text(a: &mut SourceArchive, i: usize) -> (r: Result<
    Vec<u8>,
    zip::result::ZipError,
>)
    requires
        i < src_entries(*old(a)).len(),
    ensures
        src_entries(*final(a)) == src_entries(*old(a)),
        src_accessible(*final(a)) == src_accessible(*old(a)),
        r matches Ok(v) ==> v@ == src_entries(*old(a))[i as int].7,
        i < src_accessible(*old(a)).len() && src_accessible(*old(a))[i as int]
            && vstd::utf8::valid_utf8(src_entries(*old(a))[i as int].7) ==> r is Ok,
{
    let mut f = a.inner.by_index(i)?;
    let mut buf = String::new();
    std::io::Read::read_to_string(&mut f, &mut buf).map_err(zip::result::ZipError::Io)?;
    Ok(buf.into_bytes())
}

/// Relies on `zip::ZipWriter::new`: a fresh output archive over an empty
/// buffer.
#[verifier::external_body]
pub(crate) fn sink_new() -> (r: ZipSink)
    ensures
        out_entries(r) == Seq::<OutEntry>::empty(),
{
    ZipSink { inner: zip::ZipWriter::new(std::io::Cursor::new(Vec::new())) }
}

/// Relies on `zip::ZipWriter::start_file` and `Write::write_all`: declares a
/// new entry with the given metadata and no comment, and writes its content,
/// compressed afresh by the writer. On the in-memory sink this fails only
/// for a method the writer cannot compress with, a name past the header's
/// 16-bit length field or already written to this archive, or content past
/// the plain-format limit without the large-file flag (the writer
/// additionally sets the regular-file bit on the declared mode when it is
/// missing).
#[verifier::external_body]
pub(crate) fn write_entry(
    w: &mut ZipSink,
    name: &str,
    meta: &WriteMeta,
    bytes: &[u8],
) -> (r: Result<(), zip::result::ZipError>)
    requires
        dos_valid(meta.date, meta.time),
    ensures
        r is Ok ==> out_entries(*final(w)) == out_entries(*old(w)).push(
            (
                vstd::utf8::encode_utf8(name@),
                meta.method,
                (meta.date, meta.time),
                meta.mode,
                meta.large,
                Seq::<u8>::empty(),
                bytes@,
                None,
            ),
        ),
        method_writable(meta.method) && vstd::utf8::encode_utf8(name@).len() < 0x10000 && (
        meta.large || bytes@.len() <= 0xFFFF_FFFF) && (forall|j: int|
            0 <= j < out_entries(*old(w)).len() ==> (#[trigger] out_entries(*old(w))[j]).0
                != vstd::utf8::encode_utf8(name@)) ==> r is Ok,
{
    let dt = zip::DateTime::try_from_msdos(meta.date, meta.time).unwrap_or_else(
        |_| zip::DateTime::default_for_write(),
    );
    #[allow(deprecated)]
    let method = zip::CompressionMethod::from_u16(meta.method);
    let options = zip::write::SimpleFileOptions::default().large_file(meta.large)
        .last_modified_time(dt).compression_method(method).unix_permissions(meta.mode);
    w.inner.start_file(name, options)?;
    std::io::Write::write_all(&mut w.inner, bytes).map_err(zip::result::ZipError::Io)?;
    Ok(())
}

/// Relies on `zip::ZipWriter::raw_copy_file`: appends entry `i` of the
/// source archive, transferring its stored compressed representation
/// verbatim and keeping its name, comment and content; the header is rebuilt
/// from the source metadata the way `ZipFile::options` resolves it — the
/// valid stored time or the fixed fallback, the stored permission bits or
/// the plain-file default with the regular-file flag, and the large-file
/// format when the stored sizes need it. It succeeds whenever the entry can
/// be opened and its name was not already written to this archive, since
/// nothing is re-encoded and the in-memory sink does not fail.
#[verifier::external_body]
pub(crate) fn raw_copy(w: &mut ZipSink, a: &mut SourceArchive, i: usize) -> (r: Result<
    (),
    zip::result::ZipError,
>)
    requires
        i < src_entries(*old(a)).len(),
    ensures
        src_entries(*final(a)) == src_entries(*old(a)),
        src_accessible(*final(a)) == src_accessible(*old(a)),
        r is Ok ==> out_entries(*final(w)) == out_entries(*old(w)).push(
            spec_raw_out(src_entries(*old(a))[i as int]),
        ),
        i < src_accessible(*old(a)).len() && src_accessible(*old(a))[i as int] && (forall|j: int|
            0 <= j < out_entries(*old(w)).len() ==> (#[trigger] out_entries(*old(w))[j]).0
                != src_entries(*old(a))[i as int].0) ==> r is Ok,
{
    let f = a.inner.by_index(i)?;
    w.inner.raw_copy_file(f)
}

/// Relies on `zip::ZipWriter::finish`: closes the central directory and
/// returns the archive's bytes, the serialization of the written entries.
/// On the in-memory sink the writer's output cannot fail, so finishing
/// succeeds.
#[verifier::external_body]
pub(crate) fn finish_sink(w: ZipSink) -> (r: Result<Vec<u8>, zip::result::ZipError>)
    ensures
        r is Ok,
        r matches Ok(v) ==> v@ == zip_serialize(out_entries(w)),
{
    Ok(w.inner.finish()?.into_inner())
}

/// Relies on `zip::DateTime::default_for_write`: the fallback modification
/// time written when a source entry carries none, 1980-01-01 00:00:00 in
/// MS-DOS encoding (this build does not read the clock), which is a
/// representable date.
#[verifier::external_body]
pub(crate) fn default_write_time() -> (r: (u16, u16))
    ensures
        r == (33u16, 0u16) && dos_valid(r.0, r.1),
{
    let d = zip::DateTime::default_for_write();
    (d.datepart(), d.timepart())
}

} // verus!
