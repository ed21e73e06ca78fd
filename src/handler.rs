//! The asset handler for HTML documents, inline strategy.
use vstd::prelude::*;
use crate::codec::b64_encode;
use crate::inline::{embed, embedded, hash_regions, hashed_doc, partitions, regions_spec, remove_marker, removed};
use crate::laws::{embeddable, reads_back};
use crate::model::{HashRegion, HtmlError};
use crate::scanner::{scan, scan_spec};

verus! {

/// Reads, writes and removes a manifest carried inline in an HTML document.
pub struct HtmlIO {}

/// What reading the manifest store of a document yields.
pub open spec fn read_spec(d: Seq<u8>) -> Result<Seq<u8>, HtmlError> {
    match scan_spec(d) {
        Ok((Some(p), _)) => if p.len() > 0 {
            Ok(p)
        } else {
            Err(HtmlError::NotFound)
        },
        Ok(_) => Err(HtmlError::NotFound),
        Err(e) => Err(e),
    }
}

impl HtmlIO {
    /// A handler for the given asset type; every HTML type gets the same one.
    pub fn new(asset_type: &str) -> (r: HtmlIO) {
        HtmlIO {  }
    }

    /// The manifest store embedded in the document.
    pub fn read_cai(&self, d: &[u8]) -> (r: Result<Vec<u8>, HtmlError>)
        ensures
            match r {
                Ok(v) => read_spec(d@) == Ok::<Seq<u8>, HtmlError>(v@),
                Err(e) => read_spec(d@) == Err::<Seq<u8>, HtmlError>(e),
            },
    {
        match scan(d) {
            Ok((Some(p), _)) => {
                if p.len() > 0 {
                    Ok(p)
                } else {
                    Err(HtmlError::NotFound)
                }
            },
            Ok(_) => Err(HtmlError::NotFound),
            Err(e) => Err(e),
        }
    }

    /// HTML documents carry no XMP packet.
    pub fn read_xmp(&self, d: &[u8]) -> (r: Option<Vec<u8>>)
        ensures
            r is None,
    {
        None
    }

    /// The document with the manifest store embedded.
    pub fn write_cai(&self, d: &[u8], store: &[u8]) -> (r: Vec<u8>)
        requires
            store@.len() <= usize::MAX / 2,
        ensures
            r@ == embedded(d@, b64_encode(store@)),
            embeddable(d@) && store@.len() > 0 ==> reads_back(r@, store@, b64_encode(store@)),
    {
        embed(d, store)
    }

    /// The regions of the document that a content hash includes and excludes.
    pub fn get_object_locations(&self, d: &[u8]) -> (r: Result<Vec<HashRegion>, HtmlError>)
        ensures
            match r {
                Ok(v) => regions_spec(d@) == Ok::<Seq<HashRegion>, HtmlError>(v@) && partitions(
                    v@,
                    hashed_doc(d@).len() as int,
                ),
                Err(e) => regions_spec(d@) == Err::<Seq<HashRegion>, HtmlError>(e),
            },
    {
        hash_regions(d)
    }

    /// The document without its manifest element.
    pub fn remove_cai_store(&self, d: &[u8]) -> (r: Vec<u8>)
        ensures
            r@ == removed(d@),
    {
        remove_marker(d)
    }
}

} // verus!
