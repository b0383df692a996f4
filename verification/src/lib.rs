//! Bundling engine for mod collections: a tolerant version-label parser, an
//! append-only project index, the version coverage matrix, the dependency
//! resolver and the naming rules of bundle archives.

pub mod bundle;
pub mod catalog;
pub mod client;
pub mod matrix;
pub mod release;
pub mod resolver;
pub mod saved;
pub mod snapshot;
pub mod text;
pub mod version;
