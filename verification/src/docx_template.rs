//! The repackager: builds a new archive that mirrors the source entry by
//! entry, transforming the parts selected for replacement and copying every
//! other entry through without re-encoding.

use vstd::prelude::*;
use vstd::string::StringSliceAdditionalSpecFns;
use crate::archive::{
    self, EntryMeta, WriteMeta, SrcEntry, OutEntry, ZipSink, src_entries, src_accessible,
    out_entries, dos_valid, method_writable, zip_serialize, spec_out_time, spec_out_mode,
    spec_out_large, spec_raw_out,
};
use crate::docx_file::DocxFile;
use crate::docx_part::{DocxPartType, spec_part_type, spec_is_transformable};
use crate::find_and_replace::{FindAndReplace, TransformerError, spec_stream};
use crate::placeholders::{Placeholders, spec_all_nonempty};
use crate::replacements::Replacements;

verus! {

/// Why a render failed: an archive or I/O problem, a placeholder set that
/// could not be compiled, or malformed markup in a part selected for
/// transformation.
#[derive(Debug)]
pub enum CantRenderError {
    ZipErr(zip::result::ZipError),
    AutomatonBuildErr,
    ReadXmlErr(quick_xml::Error),
}

impl CantRenderError {
    /// A transformer failure surfaces as a render failure: its read errors
    /// keep their category.
    pub fn from_transformer(e: TransformerError) -> (r: CantRenderError)
        ensures
            r is ReadXmlErr,
    {
        match e {
            TransformerError::ReadXmlErr(inner) => CantRenderError::ReadXmlErr(inner),
        }
    }
}

/// The write options for a new entry that reuses a source entry's metadata:
/// same compression method, the source's valid modification time or the
/// fixed fallback, the source's permission bits or a plain-file default with
/// the regular-file flag, and the large-file format when either size needs
/// it.
pub fn write_meta_of(m: &EntryMeta) -> (r: WriteMeta)
    requires
        m.time_valid == match m.time {
            Some(dt) => dos_valid(dt.0, dt.1),
            None => false,
        },
    ensures
        r.method == m.method,
        (r.date, r.time) == spec_out_time(m.time),
        dos_valid(r.date, r.time),
        r.mode == spec_out_mode(m.mode),
        r.large == spec_out_large(m.csize, m.usize_),
{
    let (date, time) = if m.time_valid {
        match m.time {
            Some(dt) => dt,
            None => archive::default_write_time(),
        }
    } else {
        archive::default_write_time()
    };
    let mode_bits = match m.mode {
        Some(bits) => bits,
        None => 0o644u32,
    };
    let larger = if m.csize > m.usize_ {
        m.csize
    } else {
        m.usize_
    };
    WriteMeta {
        method: m.method,
        date,
        time,
        mode: mode_bits | 0o100000u32,
        large: larger > 0xFFFF_FFFFu64,
    }
}

/// The registered whole-file replacements, as byte pairs of path and
/// content.
pub open spec fn spec_files_view(v: Seq<(Vec<u8>, Vec<u8>)>) -> Seq<(Seq<u8>, Seq<u8>)> {
    Seq::new(v.len(), |i: int| (v[i].0@, v[i].1@))
}

/// The content registered for a path, the most recent registration winning.
pub open spec fn spec_lookup(files: Seq<(Seq<u8>, Seq<u8>)>, name: Seq<u8>) -> Option<Seq<u8>>
    decreases files.len(),
{
    if files.len() == 0 {
        None
    } else if files.last().0 == name {
        Some(files.last().1)
    } else {
        spec_lookup(files.drop_last(), name)
    }
}

/// What one source entry becomes in the output: caller-supplied bytes when
/// its path is registered for whole-file replacement, the transformed
/// content when the part is eligible and a replacement table is configured,
/// and otherwise the entry itself, raw-copied with its stored
/// representation.
pub open spec fn spec_render_one(
    e: SrcEntry,
    files: Seq<(Seq<u8>, Seq<u8>)>,
    tr: Option<(Seq<Seq<u8>>, Seq<Seq<u8>>)>,
) -> OutEntry {
    match spec_lookup(files, e.0) {
        Some(bytes) => (
            e.0,
            e.1,
            spec_out_time(e.2),
            spec_out_mode(e.3),
            spec_out_large(e.4, e.5),
            Seq::<u8>::empty(),
            bytes,
            None,
        ),
        None => {
            if tr is Some && spec_is_transformable(spec_part_type(e.0)) {
                (
                    e.0,
                    e.1,
                    spec_out_time(e.2),
                    spec_out_mode(e.3),
                    spec_out_large(e.4, e.5),
                    Seq::<u8>::empty(),
                    spec_stream(e.7, tr.unwrap().0, tr.unwrap().1).0,
                    None,
                )
            } else {
                spec_raw_out(e)
            }
        },
    }
}

/// The whole output archive, entry by entry in source order.
pub open spec fn spec_render_all(
    entries: Seq<SrcEntry>,
    files: Seq<(Seq<u8>, Seq<u8>)>,
    tr: Option<(Seq<Seq<u8>>, Seq<Seq<u8>>)>,
) -> Seq<OutEntry> {
    entries.map_values(|e| spec_render_one(e, files, tr))
}

/// Whenever this holds of a pass's inputs, the pass must succeed: entry
/// names are distinct (the writer rejects duplicates), every entry can be
/// opened and read, every part selected for transformation decodes as text
/// and its scan reads it to the end, and every entry written afresh uses a
/// method the writer can compress with, a name that fits the header's
/// 16-bit length field, and content that fits its declared format.
pub open spec fn spec_render_succeeds(
    entries: Seq<SrcEntry>,
    accessible: Seq<bool>,
    files: Seq<(Seq<u8>, Seq<u8>)>,
    tr: Option<(Seq<Seq<u8>>, Seq<Seq<u8>>)>,
) -> bool {
    &&& accessible.len() == entries.len()
    &&& forall|i: int, j: int|
        0 <= i < j < entries.len() ==> (#[trigger] entries[i]).0 != (#[trigger] entries[j]).0
    &&& forall|i: int| 0 <= i < entries.len() ==> accessible[i]
    &&& forall|i: int|
        0 <= i < entries.len() ==> {
            let e = #[trigger] entries[i];
            spec_lookup(files, e.0) is None && tr is Some && spec_is_transformable(
                spec_part_type(e.0),
            ) ==> vstd::utf8::valid_utf8(e.7) && spec_stream(
                e.7,
                tr.unwrap().0,
                tr.unwrap().1,
            ).1
        }
    &&& forall|i: int|
        0 <= i < entries.len() ==> {
            let e = #[trigger] entries[i];
            spec_lookup(files, e.0) is Some || (tr is Some && spec_is_transformable(
                spec_part_type(e.0),
            )) ==> method_writable(e.1) && e.0.len() < 0x10000 && (spec_out_large(e.4, e.5)
                || spec_render_one(e, files, tr).6.len() <= 0xFFFF_FFFF)
        }
}

/// The output keeps each entry's name, whichever way it was produced.
pub proof fn lemma_out_name(
    e: SrcEntry,
    files: Seq<(Seq<u8>, Seq<u8>)>,
    tr: Option<(Seq<Seq<u8>>, Seq<Seq<u8>>)>,
)
    ensures
        spec_render_one(e, files, tr).0 == e.0,
{
}

/// An entry that is neither registered for whole-file replacement nor
/// selected for transformation is raw-copied: its method, comment, content
/// and stored representation are kept verbatim, a representable stored time
/// is kept, and stored permission bits are kept with the regular-file flag.
pub proof fn lemma_metadata_preserved(
    e: SrcEntry,
    files: Seq<(Seq<u8>, Seq<u8>)>,
    tr: Option<(Seq<Seq<u8>>, Seq<Seq<u8>>)>,
)
    requires
        spec_lookup(files, e.0) is None,
        tr is Some ==> !spec_is_transformable(spec_part_type(e.0)),
    ensures
        spec_render_one(e, files, tr) == spec_raw_out(e),
        match e.2 {
            Some(dt) => dos_valid(dt.0, dt.1) ==> spec_render_one(e, files, tr).2 == dt,
            None => true,
        },
        match e.3 {
            Some(m) => spec_render_one(e, files, tr).3 == (m | 0o100000u32),
            None => true,
        },
{
}

/// With no replacement table and no whole-file registrations, every entry of
/// the output is its source entry raw-copied: content, comment and stored
/// compressed representation verbatim, metadata as the codec resolves it.
pub proof fn lemma_identity_render(entries: Seq<SrcEntry>)
    ensures
        spec_render_all(entries, Seq::empty(), None) == entries.map_values(
            |e: SrcEntry| spec_raw_out(e),
        ),
{
    assert(spec_render_all(entries, Seq::empty(), None) =~= entries.map_values(
        |e: SrcEntry| spec_raw_out(e),
    ));
}

/// Builder accumulating all the transformations over one document, rendered
/// into a new archive.
pub struct DocxTemplate {
    file: DocxFile,
    placeholders: Placeholders,
    replacements: Option<Replacements>,
    inner_files_to_replace: Vec<(Vec<u8>, Vec<u8>)>,
    comments_to_delete: Vec<Vec<u8>>,
}

impl DocxTemplate {
    /// The source archive's entries.
    pub closed spec fn spec_entries(self) -> Seq<SrcEntry> {
        src_entries(self.file.archive)
    }

    /// Per source entry, whether it can be opened and read.
    pub closed spec fn spec_accessible(self) -> Seq<bool> {
        src_accessible(self.file.archive)
    }

    /// The compiled placeholder patterns.
    pub closed spec fn spec_placeholders(self) -> Seq<Seq<u8>> {
        self.placeholders@
    }

    /// The configured replacement payloads, if any.
    pub closed spec fn spec_replacements(self) -> Option<Seq<Seq<u8>>> {
        match self.replacements {
            Some(r) => Some(r@),
            None => None,
        }
    }

    /// The transformation a render pass applies to eligible parts, if any:
    /// the pattern list and the table aligned with it.
    pub open spec fn spec_transform(self) -> Option<(Seq<Seq<u8>>, Seq<Seq<u8>>)> {
        match self.spec_replacements() {
            Some(reps) => Some((self.spec_placeholders(), reps)),
            None => None,
        }
    }

    /// The registered whole-file replacements.
    pub closed spec fn spec_inner_files(self) -> Seq<(Seq<u8>, Seq<u8>)> {
        spec_files_view(self.inner_files_to_replace@)
    }

    /// The replacement table, when present, is aligned with the placeholder
    /// ids, and no placeholder is empty.
    pub open spec fn wf(self) -> bool {
        self.spec_replacements() matches Some(r) ==> r.len() == self.spec_placeholders().len()
            && spec_all_nonempty(self.spec_placeholders())
    }

    /// A template to be rendered once. Placeholders and replacements must
    /// have the same length: value `i` fills placeholder id `i`.
    pub fn new(file: DocxFile, placeholders: Placeholders, replacements: Replacements) -> (r:
        DocxTemplate)
        requires
            placeholders@.len() == replacements@.len(),
            spec_all_nonempty(placeholders@),
        ensures
            r.wf(),
            r.spec_entries() == file.entries(),
            r.spec_accessible() == file.accessible(),
            r.spec_placeholders() == placeholders@,
            r.spec_replacements() == Some(replacements@),
            r.spec_inner_files() == Seq::<(Seq<u8>, Seq<u8>)>::empty(),
    {
        let t = DocxTemplate {
            file,
            placeholders,
            replacements: Some(replacements),
            inner_files_to_replace: Vec::new(),
            comments_to_delete: Vec::new(),
        };
        proof {
            crate::docx_file::lemma_entries_def(t.file);
            assert(t.spec_inner_files() =~= Seq::<(Seq<u8>, Seq<u8>)>::empty());
        }
        t
    }

    /// A template to be rendered several times: compile the placeholders
    /// once, then pair them with a fresh table per render.
    pub fn new_with_placeholders(file: DocxFile, placeholders: Placeholders) -> (r: DocxTemplate)
        requires
            spec_all_nonempty(placeholders@),
        ensures
            r.wf(),
            r.spec_entries() == file.entries(),
            r.spec_accessible() == file.accessible(),
            r.spec_placeholders() == placeholders@,
            r.spec_replacements() is None,
            r.spec_inner_files() == Seq::<(Seq<u8>, Seq<u8>)>::empty(),
    {
        let t = DocxTemplate {
            file,
            placeholders,
            replacements: None,
            inner_files_to_replace: Vec::new(),
            comments_to_delete: Vec::new(),
        };
        proof {
            crate::docx_file::lemma_entries_def(t.file);
            assert(t.spec_inner_files() =~= Seq::<(Seq<u8>, Seq<u8>)>::empty());
        }
        t
    }

    /// Set the values to be used instead of placeholders; value `i` fills
    /// placeholder id `i`.
    pub fn replace_placeholders_with(&mut self, replacements: Replacements)
        requires
            old(self).spec_placeholders().len() == replacements@.len(),
            spec_all_nonempty(old(self).spec_placeholders()),
        ensures
            final(self).wf(),
            final(self).spec_entries() == old(self).spec_entries(),
            final(self).spec_accessible() == old(self).spec_accessible(),
            final(self).spec_placeholders() == old(self).spec_placeholders(),
            final(self).spec_replacements() == Some(replacements@),
            final(self).spec_inner_files() == old(self).spec_inner_files(),
    {
        self.replacements = Some(replacements);
    }

    /// Record a commented placeholder whose surrounding block should be
    /// deleted. The deletion pass itself is not part of this core, so the
    /// recorded names are inert.
    pub fn remove_commented_block(&mut self, placeholder: &str)
        ensures
            final(self).wf() == old(self).wf(),
            final(self).spec_entries() == old(self).spec_entries(),
            final(self).spec_accessible() == old(self).spec_accessible(),
            final(self).spec_placeholders() == old(self).spec_placeholders(),
            final(self).spec_replacements() == old(self).spec_replacements(),
            final(self).spec_inner_files() == old(self).spec_inner_files(),
    {
        self.comments_to_delete.push(vstd::slice::slice_to_vec(placeholder.as_bytes()));
        proof {
            assert(final(self).spec_inner_files() =~= old(self).spec_inner_files());
        }
    }

    /// Replace a file inside the archive wholesale, for example to swap an
    /// image; the latest registration for a path wins.
    pub fn replace_inner_file(&mut self, inner_path: &str, bytes: &[u8])
        ensures
            final(self).wf() == old(self).wf(),
            final(self).spec_entries() == old(self).spec_entries(),
            final(self).spec_accessible() == old(self).spec_accessible(),
            final(self).spec_placeholders() == old(self).spec_placeholders(),
            final(self).spec_replacements() == old(self).spec_replacements(),
            final(self).spec_inner_files() == old(self).spec_inner_files().push(
                (inner_path.spec_bytes(), bytes@),
            ),
    {
        self.inner_files_to_replace.push(
            (vstd::slice::slice_to_vec(inner_path.as_bytes()), vstd::slice::slice_to_vec(bytes)),
        );
        proof {
            assert(final(self).spec_inner_files() =~= old(self).spec_inner_files().push(
                (inner_path.spec_bytes(), bytes@),
            ));
        }
    }

    /// Render the template, applying all transformations set before, into
    /// the bytes of a new archive: same entries in the same order, with
    /// registered paths replaced wholesale, eligible parts transformed when
    /// a table is configured, and everything else raw-copied with its
    /// metadata. Success is owed whenever every entry is readable, every
    /// part selected for transformation decodes and scans to its end, and
    /// everything written afresh is acceptable to the writer; a part whose
    /// scan fails forces an error. The pass aborts at the first failure and
    /// nothing promises anything of a partial output.
    #[verifier::rlimit(100)]
    pub fn render(&mut self) -> (r: Result<Vec<u8>, CantRenderError>)
        requires
            old(self).wf(),
        ensures
            final(self).spec_entries() == old(self).spec_entries(),
            r matches Ok(v) ==> v@ == zip_serialize(
                spec_render_all(
                    old(self).spec_entries(),
                    old(self).spec_inner_files(),
                    old(self).spec_transform(),
                ),
            ),
            spec_render_succeeds(
                old(self).spec_entries(),
                old(self).spec_accessible(),
                old(self).spec_inner_files(),
                old(self).spec_transform(),
            ) ==> r is Ok,
            (exists|i: int|
                0 <= i < old(self).spec_entries().len() && {
                    let e = #[trigger] old(self).spec_entries()[i];
                    let tr = old(self).spec_transform();
                    &&& spec_lookup(old(self).spec_inner_files(), e.0) is None
                    &&& tr is Some
                    &&& spec_is_transformable(spec_part_type(e.0))
                    &&& !spec_stream(e.7, tr.unwrap().0, tr.unwrap().1).1
                }) ==> r is Err,
    {
        let ghost entries = self.spec_entries();
        let ghost acc = self.spec_accessible();
        let ghost files = self.spec_inner_files();
        let ghost tr: Option<(Seq<Seq<u8>>, Seq<Seq<u8>>)> = self.spec_transform();
        let ghost goal = spec_render_all(entries, files, tr);
        let ghost succ = spec_render_succeeds(entries, acc, files, tr);

        let n = archive::entry_count(&self.file.archive);
        let mut sink: ZipSink = archive::sink_new();
        let mut i: usize = 0;
        proof {
            assert(out_entries(sink) =~= goal.take(0));
        }
        while i < n
            invariant
                self.wf(),
                n == src_entries(self.file.archive).len(),
                entries == src_entries(self.file.archive),
                entries == old(self).spec_entries(),
                acc == src_accessible(self.file.archive),
                acc == old(self).spec_accessible(),
                files == self.spec_inner_files(),
                files == old(self).spec_inner_files(),
                tr == self.spec_transform(),
                tr == old(self).spec_transform(),
                goal == spec_render_all(entries, files, tr),
                succ == spec_render_succeeds(entries, acc, files, tr),
                goal.len() == entries.len(),
                0 <= i <= n,
                out_entries(sink) == goal.take(i as int),
                forall|j: int|
                    0 <= j < i ==> {
                        let e = #[trigger] entries[j];
                        spec_lookup(files, e.0) is None && tr is Some && spec_is_transformable(
                            spec_part_type(e.0),
                        ) ==> spec_stream(e.7, tr.unwrap().0, tr.unwrap().1).1
                    },
            decreases n - i,
        {
            let ghost e = entries[i as int];
            let name = match archive::entry_name(&mut self.file.archive, i) {
                Ok(s) => s,
                Err(err) => {
                    proof {
                        if succ {
                            assert(acc[i as int]);
                            assert(false);
                        }
                    }
                    return Err(CantRenderError::ZipErr(err));
                },
            };
            let replacement = lookup_file(&self.inner_files_to_replace, name.as_str().as_bytes());
            if let Some(idx) = replacement {
                let meta = match archive::entry_meta(&mut self.file.archive, i) {
                    Ok(m) => m,
                    Err(err) => {
                        proof {
                            if succ {
                                assert(acc[i as int]);
                                assert(false);
                            }
                        }
                        return Err(CantRenderError::ZipErr(err));
                    },
                };
                let wm = write_meta_of(&meta);
                let ghost pre_sink = out_entries(sink);
                let status = archive::write_entry(
                    &mut sink,
                    name.as_str(),
                    &wm,
                    self.inner_files_to_replace[idx].1.as_slice(),
                );
                if let Err(err) = status {
                    proof {
                        assert(spec_lookup(files, e.0) == Some(
                            self.inner_files_to_replace@[idx as int].1@,
                        ));
                        if succ {
                            assert forall|j: int| 0 <= j < pre_sink.len() implies (
                            #[trigger] pre_sink[j]).0 != vstd::utf8::encode_utf8(name@) by {
                                lemma_out_name(entries[j], files, tr);
                                assert(pre_sink[j] == spec_render_one(entries[j], files, tr));
                                assert(entries[j].0 != entries[i as int].0);
                            }
                            assert(vstd::utf8::encode_utf8(name@) == e.0);
                            assert(vstd::utf8::encode_utf8(name@).len() < 0x10000);
                            assert(wm.method == e.1 && wm.large == spec_out_large(e.4, e.5));
                            assert(spec_render_one(e, files, tr).6
                                == self.inner_files_to_replace@[idx as int].1@);
                            assert(method_writable(e.1));
                            assert(spec_out_large(e.4, e.5) || spec_render_one(
                                e,
                                files,
                                tr,
                            ).6.len() <= 0xFFFF_FFFF);
                            assert(false);
                        }
                    }
                    return Err(CantRenderError::ZipErr(err));
                }
                proof {
                    assert(spec_lookup(files, e.0) == Some(
                        self.inner_files_to_replace@[idx as int].1@,
                    ));
                    assert(out_entries(sink) =~= goal.take(i + 1));
                }
            } else {
                let part = DocxPartType::from_path(name.as_str().as_bytes());
                proof {
                    assert(spec_part_type(e.0) == spec_part_type(vstd::utf8::encode_utf8(name@)));
                }
                if part.is_transformable() && self.replacements.is_some() {
                    let meta = match archive::entry_meta(&mut self.file.archive, i) {
                        Ok(m) => m,
                        Err(err) => {
                            proof {
                                if succ {
                                    assert(acc[i as int]);
                                    assert(false);
                                }
                            }
                            return Err(CantRenderError::ZipErr(err));
                        },
                    };
                    let wm = write_meta_of(&meta);
                    let content = match archive::read_entry_text(&mut self.file.archive, i) {
                        Ok(c) => c,
                        Err(err) => {
                            proof {
                                if succ {
                                    assert(acc[i as int]);
                                    assert(vstd::utf8::valid_utf8(e.7));
                                    assert(false);
                                }
                            }
                            return Err(CantRenderError::ZipErr(err));
                        },
                    };
                    let far = FindAndReplace {
                        placeholders: self.placeholders.clone(),
                        replacements: match &self.replacements {
                            Some(r) => r.clone(),
                            None => vstd::pervasive::unreached(),
                        },
                    };
                    let transformed = match far.transform_stream(content.as_slice(), Vec::new()) {
                        Ok(v) => v,
                        Err(err) => {
                            proof {
                                if succ {
                                    assert(spec_stream(e.7, tr.unwrap().0, tr.unwrap().1).1);
                                    assert(false);
                                }
                            }
                            return Err(CantRenderError::from_transformer(err));
                        },
                    };
                    let ghost pre_sink = out_entries(sink);
                    let status = archive::write_entry(
                        &mut sink,
                        name.as_str(),
                        &wm,
                        transformed.as_slice(),
                    );
                    if let Err(err) = status {
                        proof {
                            assert(transformed@ =~= spec_stream(
                                e.7,
                                tr.unwrap().0,
                                tr.unwrap().1,
                            ).0);
                            if succ {
                                assert forall|j: int| 0 <= j < pre_sink.len() implies (
                                #[trigger] pre_sink[j]).0 != vstd::utf8::encode_utf8(name@) by {
                                    lemma_out_name(entries[j], files, tr);
                                    assert(pre_sink[j] == spec_render_one(entries[j], files, tr));
                                    assert(entries[j].0 != entries[i as int].0);
                                }
                                assert(vstd::utf8::encode_utf8(name@) == e.0);
                                assert(vstd::utf8::encode_utf8(name@).len() < 0x10000);
                                assert(wm.method == e.1 && wm.large == spec_out_large(e.4, e.5));
                                assert(spec_render_one(e, files, tr).6 == transformed@);
                                assert(method_writable(e.1));
                                assert(spec_out_large(e.4, e.5) || spec_render_one(
                                    e,
                                    files,
                                    tr,
                                ).6.len() <= 0xFFFF_FFFF);
                                assert(false);
                            }
                        }
                        return Err(CantRenderError::ZipErr(err));
                    }
                    proof {
                        assert(transformed@ =~= spec_stream(e.7, tr.unwrap().0, tr.unwrap().1).0);
                        assert(out_entries(sink) =~= goal.take(i + 1));
                    }
                } else {
                    let ghost pre_sink = out_entries(sink);
                    let status = archive::raw_copy(&mut sink, &mut self.file.archive, i);
                    if let Err(err) = status {
                        proof {
                            if succ {
                                assert forall|j: int| 0 <= j < pre_sink.len() implies (
                                #[trigger] pre_sink[j]).0 != entries[i as int].0 by {
                                    lemma_out_name(entries[j], files, tr);
                                    assert(pre_sink[j] == spec_render_one(entries[j], files, tr));
                                    assert(entries[j].0 != entries[i as int].0);
                                }
                                assert(acc[i as int]);
                                assert(false);
                            }
                        }
                        return Err(CantRenderError::ZipErr(err));
                    }
                    proof {
                        assert(spec_lookup(files, e.0) is None);
                        assert(out_entries(sink) =~= goal.take(i + 1));
                    }
                }
            }
            i += 1;
        }
        proof {
            assert(goal.take(n as int) =~= goal);
        }
        match archive::finish_sink(sink) {
            Ok(v) => Ok(v),
            Err(_) => vstd::pervasive::unreached(),
        }
    }
}

/// The index of the last registration for `name`, if any: later
/// registrations shadow earlier ones.
fn lookup_file(files: &Vec<(Vec<u8>, Vec<u8>)>, name: &[u8]) -> (r: Option<usize>)
    ensures
        match r {
            Some(idx) => idx < files@.len() && files@[idx as int].0@ == name@ && spec_lookup(
                spec_files_view(files@),
                name@,
            ) == Some(files@[idx as int].1@),
            None => spec_lookup(spec_files_view(files@), name@) is None,
        },
{
    let mut j: usize = files.len();
    proof {
        assert(spec_files_view(files@).take(files@.len() as int) =~= spec_files_view(files@));
    }
    while j > 0
        invariant
            0 <= j <= files@.len(),
            spec_lookup(spec_files_view(files@), name@) == spec_lookup(
                spec_files_view(files@).take(j as int),
                name@,
            ),
        decreases j,
    {
        let ghost pre = spec_files_view(files@).take(j as int);
        j = j - 1;
        if crate::bytes::bytes_eq(files[j].0.as_slice(), name) {
            proof {
                assert(pre.last() == (files@[j as int].0@, files@[j as int].1@));
                assert(spec_lookup(pre, name@) == Some(files@[j as int].1@));
            }
            return Some(j);
        }
        proof {
            assert(pre.last() == (files@[j as int].0@, files@[j as int].1@));
            assert(pre.drop_last() =~= spec_files_view(files@).take(j as int));
            assert(spec_lookup(pre, name@) == spec_lookup(
                spec_files_view(files@).take(j as int),
                name@,
            ));
        }
    }
    proof {
        assert(spec_files_view(files@).take(0) =~= Seq::<(Seq<u8>, Seq<u8>)>::empty());
    }
    None
}

} // verus!
