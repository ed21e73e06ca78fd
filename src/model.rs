//! Values handed between the library and its callers.
use vstd::prelude::*;

verus! {

/// What can go wrong while reading or writing a manifest.
#[derive(Debug, Clone, Copy, PartialEq, Eq, Structural)]
pub enum HtmlError {
    /// No marker, no reference, or the referenced file is missing.
    NotFound,
    /// A marker is present but its body is not well-formed base64.
    MalformedPayload,
    /// Reading or writing the underlying stream failed.
    IoFailure,
}

/// What a located position in a document stands for.
#[derive(Debug, Clone, Copy, PartialEq, Eq, Structural)]
pub enum MarkerKind {
    /// The encoded payload inside an inline manifest element.
    InlineTag,
    /// A reference element pointing at a companion file.
    LinkTag,
    /// Where new content would be inserted.
    InsertionPoint,
}

/// A located or hypothetical position in a document.
#[derive(Debug, Clone, Copy, PartialEq, Eq, Structural)]
pub struct Marker {
    pub kind: MarkerKind,
    pub offset: usize,
    pub length: usize,
}

/// Whether a downstream content hash covers a region.
#[derive(Debug, Clone, Copy, PartialEq, Eq, Structural)]
pub enum RegionClass {
    Excluded,
    Included,
}

/// A byte range of a document, classified for hashing.
#[derive(Debug, Clone, Copy, PartialEq, Eq, Structural)]
pub struct HashRegion {
    pub offset: usize,
    pub length: usize,
    pub class: RegionClass,
}

} // verus!
