//! An ordered associative container over byte-string keys.
//!
//! The store keeps its entries in strictly ascending lexicographic byte
//! order and enforces a prefix-freedom invariant: no live key is a proper
//! prefix of another live key.  Insertion resolves prefix conflicts by
//! evicting every conflicting entry first, so that a well-formed key can
//! always be stored.  Ordered full and prefix-bounded snapshots, extremal
//! lookup and removal, and edit-distance-bounded fuzzy search are provided
//! on top of the same model.

pub mod cursor;
pub mod keyorder;
pub mod levenshtein;
pub mod model;
pub mod store;
pub mod text;
