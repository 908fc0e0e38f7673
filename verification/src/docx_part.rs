//! Classification of archive entry paths into document layout roles.
//!
//! A document archive stores different parts of the layout in separate XML
//! files. Only the main body, headers and footers are eligible for text
//! transformation; everything else is passed through untouched.

use vstd::prelude::*;
use vstd::string::StringSliceAdditionalSpecFns;
use crate::bytes::{bytes_eq, has_prefix, has_suffix};

verus! {

/// Role of one archive entry within the document layout.
#[derive(Debug, Clone, Copy, PartialEq, Eq, Structural)]
pub enum DocxPartType {
    Main,
    Header,
    Footer,
    Comments,
    Unknown,
}

/// The canonical main-body path, as UTF-8 bytes.
pub open spec fn spec_main_path() -> Seq<u8> {
    vstd::utf8::encode_utf8("word/document.xml"@)
}

/// The canonical comments path, as UTF-8 bytes.
pub open spec fn spec_comments_path() -> Seq<u8> {
    vstd::utf8::encode_utf8("word/comments.xml"@)
}

pub open spec fn spec_header_prefix() -> Seq<u8> {
    vstd::utf8::encode_utf8("word/header"@)
}

pub open spec fn spec_footer_prefix() -> Seq<u8> {
    vstd::utf8::encode_utf8("word/footer"@)
}

pub open spec fn spec_xml_suffix() -> Seq<u8> {
    vstd::utf8::encode_utf8(".xml"@)
}

/// The role of an entry, decided by its path bytes alone: exact match for the
/// main body and comments paths, a prefix/suffix pattern for the header and
/// footer families, and `Unknown` for everything else.
pub open spec fn spec_part_type(path: Seq<u8>) -> DocxPartType {
    if path == spec_main_path() {
        DocxPartType::Main
    } else if path == spec_comments_path() {
        DocxPartType::Comments
    } else if spec_header_prefix().is_prefix_of(path) && spec_xml_suffix().is_suffix_of(path) {
        DocxPartType::Header
    } else if spec_footer_prefix().is_prefix_of(path) && spec_xml_suffix().is_suffix_of(path) {
        DocxPartType::Footer
    } else {
        DocxPartType::Unknown
    }
}

/// True for the roles whose entries may be transformed.
pub open spec fn spec_is_transformable(t: DocxPartType) -> bool {
    t is Main || t is Header || t is Footer
}

impl DocxPartType {
    /// The canonical path of the comments part.
    pub fn comments() -> (r: &'static str)
        ensures
            r.spec_bytes() == spec_comments_path(),
    {
        "word/comments.xml"
    }

    /// Classify an entry by its path bytes.
    pub fn from_path(path: &[u8]) -> (r: DocxPartType)
        ensures
            r == spec_part_type(path@),
    {
        let main: &[u8] = "word/document.xml".as_bytes();
        let comments: &[u8] = "word/comments.xml".as_bytes();
        let header: &[u8] = "word/header".as_bytes();
        let footer: &[u8] = "word/footer".as_bytes();
        let xml: &[u8] = ".xml".as_bytes();
        if bytes_eq(path, main) {
            DocxPartType::Main
        } else if bytes_eq(path, comments) {
            DocxPartType::Comments
        } else if has_prefix(path, header) && has_suffix(path, xml) {
            DocxPartType::Header
        } else if has_prefix(path, footer) && has_suffix(path, xml) {
            DocxPartType::Footer
        } else {
            DocxPartType::Unknown
        }
    }

    /// True when text substitution applies to entries of this role.
    pub fn is_transformable(&self) -> (r: bool)
        ensures
            r == spec_is_transformable(*self),
    {
        match self {
            DocxPartType::Main => true,
            DocxPartType::Header => true,
            DocxPartType::Footer => true,
            DocxPartType::Comments => false,
            DocxPartType::Unknown => false,
        }
    }
}

} // verus!
