//! Patching and verification of Android OTA update packages: the decisions
//! that keep the chain of trust of a package consistent after some of its
//! partition images have been changed.
//!
//! The library decides and the caller acts. It says which images a run has
//! to open (`pool`, `phases`), in which order the vbmeta images are brought
//! up to date and what becomes of their headers (`graph`, `vbmeta`,
//! `engine`), which operations of a partition are compressed anew and where
//! the data of the new payload comes from (`payload`), how the archive is
//! written (`archive`), and what the verifier accepts (`verify`). Reading
//! and writing files, compressing, signing and parsing the formats are left
//! to the caller.

pub mod archive;
pub mod avb;
pub mod cli;
pub mod engine;
pub mod error;
pub mod graph;
pub mod images;
pub mod manifest;
pub mod payload;
pub mod phases;
pub mod pool;
pub mod text;
pub mod topo;
pub mod vbmeta;
pub mod verify;
