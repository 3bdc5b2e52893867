//! A vocabulary for text processing: a mapping from normalized tokens to
//! integer identifiers, built from raw text or restored from its
//! tab-separated form.

pub mod decimal;
pub mod order;
pub mod storage;
pub mod text;
pub mod tokens;
pub mod vocab;
