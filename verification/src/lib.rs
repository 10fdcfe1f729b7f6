//! Token remapper for archived source trees.
//!
//! The library rewrites machine-generated identifier tokens (`field_…`,
//! `func_…`, `p_…`) in the text members of an archive, replacing each token
//! with a human-readable name drawn from mapping tables that are themselves
//! loaded from an archive of comma-separated tables.

pub mod bytes;
pub mod mapping;
pub mod tokenizer;
pub mod substitute;
pub mod walker;
pub mod archive;
