//! Keeps per-package checksum manifests of a vendored dependency tree in step
//! with the files on disk.

pub mod digest;
pub mod error;
pub mod json;
pub mod manifest;
pub mod order;
pub mod path;
pub mod sync;
