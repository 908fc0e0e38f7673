//! Streaming placeholder replacement for packaged word-processor documents.
//!
//! A document is a zip archive of XML parts. This crate rewrites selected
//! parts by replacing byte-string placeholders with configured values while
//! keeping every other byte of the archive as it was, including entries that
//! are copied through without re-encoding.

pub mod archive;
pub mod bytes;
pub mod docx_file;
pub mod docx_part;
pub mod docx_template;
pub mod find_and_replace;
pub mod iter_tools;
pub mod joined_str;
pub mod laws;
pub mod matcher;
pub mod placeholders;
pub mod replacements;
pub mod value;
pub mod xmlscan;

pub use docx_file::DocxFile;
pub use docx_part::DocxPartType;
pub use docx_template::{CantRenderError, DocxTemplate};
pub use find_and_replace::TransformerError;
pub use find_and_replace::FindAndReplace;
pub use iter_tools::join;
pub use joined_str::JoinedStr;
pub use placeholders::Placeholders;
pub use replacements::Replacements;
pub use value::{Replacement, Value};
