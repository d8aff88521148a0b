//! Extraction of note metadata from outline-markup documents: an identifier
//! taken from the document's path, a title and a date declaration that are
//! taken out of the body, and the task headings and cross-note links that
//! stay in it.
//!
//! - `text`: character classes and conversions.
//! - `scan`: the document grammar as spec functions, and its scanners.
//! - `note`: the `Note` type and `parse_org_file`, whose result is given
//!   exactly by `parse_model`.
//! - `properties`: laws relating parsed notes to their documents.
pub mod text;
pub mod scan;
pub mod note;
pub mod properties;
