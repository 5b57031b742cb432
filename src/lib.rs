//! A typed asset cache: values loaded from a content source by a per-type
//! loader, kept under stable handles that survive in-place reloads.

pub mod cache;
pub mod embedded;
pub mod entry;
pub mod error;
pub mod filesystem;
pub mod loader;
pub mod reload;
pub mod source;
