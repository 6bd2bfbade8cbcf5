//! Planning of a metadata-driven rename of camera-raw files.
//!
//! Every discovered file is given a candidate destination derived from its
//! capture metadata. Files whose candidates coincide are grouped, and each
//! group of two or more is told apart by an enumerated suffix. The result is
//! a plan of copy or move operations, or of preview lines for a dry run.

pub mod cli;
pub mod error;
pub mod exif;
pub mod fs;
pub mod group;
pub mod runner;
pub mod text;
pub mod timestamp;
