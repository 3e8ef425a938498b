//! Incremental derivation of resize jobs for an image collection: which
//! (source image, size variant) pairs still lack a derivative, and where each
//! derivative is written.
pub mod path;
pub mod resolve;
pub mod enumerate;
pub mod diff;
pub mod dirs;
pub mod laws;
