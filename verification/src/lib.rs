//! JSON merge patch with index-addressed arrays.
//!
//! [`json_merge_patch`] merges a patch document into a target document. An
//! object patch is laid over the fields of the target, and a null field of
//! the patch takes the field of that name away. Beyond that, an object patch
//! whose keys all write array indices patches an array item by item, and an
//! array patch replaces the target by its items that are not null.
//!
//! A document is a [`Value`]; an object in it is an [`Object`], which keeps
//! its keys in key order. What a merge gives is stated over the views of the
//! documents by [`merge::merged`], and [`laws`] holds what follows for every
//! merge.

pub mod key;
pub mod laws;
pub mod merge;
pub mod object;
pub mod value;

pub use crate::merge::json_merge_patch;
pub use crate::object::Object;
pub use crate::value::Value;
