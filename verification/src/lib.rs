//! XML 1.0 reading: byte-order marks and transcoding, character classes,
//! entity references, DOCTYPE declarations, the tag scanner, the element
//! tree and namespace resolution.

mod stdx;
pub mod bom;
pub mod decl;
pub mod doctype;
pub mod entity;
pub mod error;
pub mod lex;
pub mod namespace;
pub mod ordered;
pub mod tag;
pub mod text;
pub mod textmap;
pub mod tree;

pub use bom::{decode_bom, strip_bom};
