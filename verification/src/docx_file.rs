//! A document file: a zip archive of XML parts and other resources.

use vstd::prelude::*;
use crate::archive::{SourceArchive, SrcEntry, src_entries, src_accessible, zip_open, zip_parses};

verus! {

/// A document file, essentially a zip archive containing XML parts and
/// images.
pub struct DocxFile {
    pub(crate) archive: SourceArchive,
}

impl DocxFile {
    /// The entries of the underlying archive.
    pub closed spec fn entries(self) -> Seq<SrcEntry> {
        src_entries(self.archive)
    }

    /// Per entry, whether it can be opened and read.
    pub closed spec fn accessible(self) -> Seq<bool> {
        src_accessible(self.archive)
    }

    /// Read a document from the bytes of a `.docx` file: succeeds exactly
    /// when the bytes parse as a well-formed zip archive, whose stored
    /// entries the document then holds, untouched.
    pub fn from_bytes(bytes: Vec<u8>) -> (r: Result<DocxFile, zip::result::ZipError>)
        ensures
            r is Ok <==> zip_parses(bytes@) is Some,
            r matches Ok(f) ==> f.entries() == zip_parses(bytes@).unwrap() && f.accessible().len()
                == f.entries().len(),
    {
        match zip_open(bytes) {
            Ok(archive) => Ok(DocxFile { archive }),
            Err(e) => Err(e),
        }
    }

    /// Wrap an already opened archive.
    pub fn from_zip_archive(archive: SourceArchive) -> (r: DocxFile)
        ensures
            r.entries() == src_entries(archive),
            r.accessible() == src_accessible(archive),
    {
        DocxFile { archive }
    }
}

/// What a document's entry list and accessibility are, stated for the
/// crate's own proofs.
pub(crate) proof fn lemma_entries_def(f: DocxFile)
    ensures
        f.entries() == src_entries(f.archive),
        f.accessible() == src_accessible(f.archive),
{
}

} // verus!
