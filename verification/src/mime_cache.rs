//! A searcher over the binary cache alone, answering generic-icon queries
//! with the reference linear scan over the record list.

use vstd::prelude::*;
use vstd::string::StringSliceAdditionalSpecFns;

use crate::cache::MimeCache;
use crate::icons::{find_icon_linear, find_icon_linear_post};
use crate::Error;
pub use crate::MimeType;

verus! {

/// The linear-scan searcher: owns the loaded cache.
#[derive(Debug)]
pub struct MimeSearcher {
    pub mime_cache: MimeCache,
}

impl MimeSearcher {
    pub open spec fn wf(self) -> bool {
        self.mime_cache.wf()
    }

    /// Parses a cache file image into a searcher. Fails with
    /// `MissingHeader` when fewer than forty bytes are available.
    pub fn new(cache_bytes: Vec<u8>) -> (r: Result<MimeSearcher, Error>)
        ensures
            cache_bytes@.len() >= 40 ==> (r matches Ok(s) && s.wf() && s.mime_cache.cache_data@
                == cache_bytes@),
            cache_bytes@.len() < 40 ==> r == Err::<MimeSearcher, Error>(Error::MissingHeader),
    {
        match MimeCache::from_bytes(cache_bytes) {
            Ok(c) => Ok(MimeSearcher { mime_cache: c }),
            Err(e) => Err(e),
        }
    }

    /// Finds the generic icon name for a MIME type by walking the record
    /// list front to back.
    pub fn find_icon_for_mimetype(&self, mime_type: &str) -> (r: Result<MimeType, Error>)
        requires
            self.wf(),
        ensures
            find_icon_linear_post(
                self.mime_cache.cache_data@,
                self.mime_cache.cache_header,
                mime_type.spec_bytes(),
                r,
            ),
    {
        find_icon_linear(&self.mime_cache, mime_type)
    }
}

} // verus!
