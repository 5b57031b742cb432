//! Error kinds reported by sources, loaders and the cache.
use vstd::prelude::*;

verus! {

/// What a source reports when it cannot hand out bytes or a listing.
#[derive(Clone, Debug, PartialEq, Eq)]
pub enum SourceError {
    /// Nothing exists at the requested place.
    NotFound,
    /// Any other I/O failure, with its message.
    Io(String),
}

} // verus!

verus! {

/// Why a loader could not turn bytes into a value.
#[derive(Clone, Debug, PartialEq, Eq)]
pub enum LoadError {
    /// The bytes are not valid UTF-8.
    InvalidUtf8,
    /// The text is not a number of the requested type.
    InvalidNumber,
    /// A failure reported by a loader of the caller's own, with its message.
    Custom(String),
}

/// What the cache reports when it cannot hand out an asset.
#[derive(Clone, Debug, PartialEq, Eq)]
pub enum Error {
    /// The source has no file for any of the asset's extensions.
    NotFound,
    /// The source failed otherwise, with this message.
    Io(String),
    /// The loader rejected the bytes.
    LoaderFailed(LoadError),
    /// A compound asset could not be built and has no fallback.
    NoDefaultValue,
    /// The cache has handed out every entry identity it can represent.
    Exhausted,
}

} // verus!
