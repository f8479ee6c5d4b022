//! Plain-text extraction from Office Open XML (.docx) word-processing documents.

pub mod strings;
pub mod numerals;
pub mod tables;
pub mod text;
pub mod list;
pub mod captures;
pub mod ooxml;
pub mod archive;
pub mod convert;
pub mod scrub;
pub mod strip;

pub use crate::convert::{convert, ConvertError};
