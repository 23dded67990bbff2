//! Builds graph inputs: a deduplicated dependency mapping from a depth-indexed
//! tree listing, and a filtered list of city records.

pub mod city;
pub mod merge;
pub mod package;
pub mod reparse;
pub mod tree;
