//! Finds the directories that consume the most space under a chosen root.
//!
//! Two scan engines feed a shared ranking step: a portable walk that sums
//! file sizes up the ancestor chain, and an NTFS engine that reconstructs
//! per-directory totals from raw Master File Table records.  All byte
//! counts in this crate are plain `u64` byte totals; conversion to
//! megabytes is left to the presentation layer.

pub mod aggregate;
pub mod bytes;
pub mod mft;
pub mod os_identity;
pub mod rank;
pub mod walk;
