//! A signature catalog for a directory tree: a persisted map from relative
//! file path to content digest, with the rules that build it, check it
//! against the live tree and reconcile the two.
pub mod algo;
pub mod catalog;
pub mod errors;
pub mod hashing;
pub mod hexcode;
pub mod manifest;
pub mod paths;
pub mod pipeline;
pub mod reconcile;
pub mod report;
pub mod sorted;
