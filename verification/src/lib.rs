//! A reader for the shared-mime-info binary cache together with a
//! filename-extension to MIME-type resolver that merges the binary cache
//! with the supplementary `globs2` text file.

use vstd::prelude::*;
use vstd::utf8::encode_utf8;

pub mod byte_decode;
pub mod cache;
pub mod globs;
pub mod icons;
pub mod mime_cache;

verus! {

/// A MIME type, e.g. `application/pdf`. Equality and ordering are byte-wise
/// string comparison.
#[derive(Debug, PartialEq, Eq, Clone, PartialOrd, Ord)]
pub struct MimeType(pub String);

/// The distinct failures a construction or a query can surface.
#[derive(Debug, PartialEq, Eq)]
pub enum Error {
    MimeCacheNotFound,
    Globs2NotFound,
    Globs2BadLine(String),
    NotANumber,
    MissingHeader,
    MissingGenericIconsList,
    NoIconFound,
    CstrUnterminated,
    InvalidUTF8,
}

/// The MIME type searcher: owns the loaded binary cache and the merged
/// extension index, both immutable once built.
#[derive(Debug)]
pub struct MimeSearcher {
    pub mime_cache: cache::MimeCache,
    pub globber: globs::Globber,
}

impl MimeSearcher {
    pub open spec fn wf(self) -> bool {
        self.mime_cache.wf() && self.globber.wf()
    }

    /// What construction promises: header parsing, glob extraction and the
    /// merged index, or the first failure on the way.
    pub open spec fn new_post(
        cache_bytes: Seq<u8>,
        globs2: Seq<char>,
        r: Result<MimeSearcher, Error>,
    ) -> bool {
        &&& cache_bytes.len() < 40 ==> r == Err::<MimeSearcher, Error>(Error::MissingHeader)
        &&& cache_bytes.len() >= 40 ==> {
            let h = cache::header_of(cache_bytes);
            &&& (r matches Ok(s) ==> s.wf() && s.mime_cache.cache_data@ == cache_bytes
                && s.mime_cache.cache_header == h && globs::globber_new_post(
                cache_bytes,
                h,
                globs2,
                Ok(s.globber),
            ))
            &&& (r matches Err(e) ==> globs::globber_new_post(
                cache_bytes,
                h,
                globs2,
                Err::<globs::Globber, Error>(e),
            ))
        }
    }

    /// Builds a searcher from the cache file image and the text of the
    /// supplementary glob file.
    pub fn new(cache_bytes: Vec<u8>, globs2_data: &str) -> (r: Result<MimeSearcher, Error>)
        ensures
            MimeSearcher::new_post(cache_bytes@, globs2_data@, r),
    {
        let mime_cache = match cache::MimeCache::from_bytes(cache_bytes) {
            Ok(c) => c,
            Err(e) => {
                return Err(e);
            },
        };
        let globber = match globs::Globber::new(&mime_cache, globs2_data) {
            Ok(g) => g,
            Err(e) => {
                return Err(e);
            },
        };
        Ok(MimeSearcher { mime_cache, globber })
    }

    /// Finds the generic icon name for a MIME type by binary search over
    /// the cache's sorted generic-icons list.
    pub fn find_icon_for_mimetype(&self, mime_type: MimeType) -> (r: Result<String, Error>)
        requires
            self.wf(),
        ensures
            icons::find_icon_post(
                self.mime_cache.cache_data@,
                self.mime_cache.cache_header,
                encode_utf8(mime_type.0@),
                r,
            ),
    {
        icons::find_icon(&self.mime_cache, mime_type.0.as_str())
    }

    /// Finds the MIME type for a file path from its final extension
    /// component, if the merged index carries an entry for it.
    pub fn find_mimetype_from_filepath(&self, path: &str) -> (r: Option<MimeType>)
        requires
            self.wf(),
        ensures
            match globs::lookup_model(self.globber.map_of(), path@) {
                None => r is None,
                Some(e) => r matches Some(m) && m.0@ == e.1,
            },
    {
        self.globber.lookup_filename(path)
    }
}

} // verus!
