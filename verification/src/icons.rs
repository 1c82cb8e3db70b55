//! The generic-icons index: a sorted, offset-described record list inside the
//! cache, searched by binary search, with a linear reference scan proved to
//! agree with it.

use vstd::prelude::*;
use vstd::string::StringSliceAdditionalSpecFns;
use vstd::utf8::{decode_utf8, valid_utf8};

use crate::byte_decode::{be_u32_of, get_u32};
use crate::cache::{
    cstr_bytes, cstr_slice, bytes_to_string, cmp_bytes, has_nul, lemma_lex_irrefl, lemma_lex_trans,
    lex_lt, ByteOrder, CacheHeader, MimeCache,
};
use crate::{Error, MimeType};

verus! {

/// Where the generic-icons list starts in the buffer.
pub open spec fn icons_start(h: CacheHeader) -> int {
    h.generic_icons_list_offset as int
}

/// The record count stored at the head of the list.
pub open spec fn icon_count(d: Seq<u8>, h: CacheHeader) -> int
    recommends
        icons_start(h) + 4 <= d.len(),
{
    be_u32_of(d.subrange(icons_start(h), icons_start(h) + 4)) as int
}

/// The count and all fixed 8-byte records lie inside the buffer.
pub open spec fn icons_in_bounds(d: Seq<u8>, h: CacheHeader) -> bool {
    &&& icons_start(h) + 4 <= d.len()
    &&& icons_start(h) + 4 + 8 * icon_count(d, h) <= d.len()
}

/// Where record `i` starts.
pub open spec fn icon_rec_pos(h: CacheHeader, i: int) -> int {
    icons_start(h) + 4 + 8 * i
}

/// Record `i`'s MIME-type string offset.
pub open spec fn icon_mime_off(d: Seq<u8>, h: CacheHeader, i: int) -> int {
    be_u32_of(d.subrange(icon_rec_pos(h, i), icon_rec_pos(h, i) + 4)) as int
}

/// Record `i`'s icon-name string offset.
pub open spec fn icon_name_off(d: Seq<u8>, h: CacheHeader, i: int) -> int {
    be_u32_of(d.subrange(icon_rec_pos(h, i) + 4, icon_rec_pos(h, i) + 8)) as int
}

/// The bytes of record `i`'s MIME-type string.
pub open spec fn icon_mime_bytes(d: Seq<u8>, h: CacheHeader, i: int) -> Seq<u8> {
    cstr_bytes(d, icon_mime_off(d, h, i))
}

/// The bytes of record `i`'s icon-name string.
pub open spec fn icon_name_bytes(d: Seq<u8>, h: CacheHeader, i: int) -> Seq<u8> {
    cstr_bytes(d, icon_name_off(d, h, i))
}

/// Record `i`'s two strings are terminated and valid UTF-8.
pub open spec fn icon_rec_ok(d: Seq<u8>, h: CacheHeader, i: int) -> bool {
    &&& has_nul(d, icon_mime_off(d, h, i))
    &&& valid_utf8(icon_mime_bytes(d, h, i))
    &&& has_nul(d, icon_name_off(d, h, i))
    &&& valid_utf8(icon_name_bytes(d, h, i))
}

/// The whole list is readable: in bounds, every record's strings terminated
/// and valid UTF-8.
pub open spec fn icons_wf(d: Seq<u8>, h: CacheHeader) -> bool {
    &&& icons_in_bounds(d, h)
    &&& forall|i: int| 0 <= i < icon_count(d, h) ==> #[trigger] icon_rec_ok(d, h, i)
}

/// The records are sorted strictly ascending by the MIME-type string value,
/// the precondition that makes binary search valid.
pub open spec fn icons_sorted(d: Seq<u8>, h: CacheHeader) -> bool {
    forall|i: int, j: int|
        0 <= i < j < icon_count(d, h) ==> lex_lt(
            #[trigger] icon_mime_bytes(d, h, i),
            #[trigger] icon_mime_bytes(d, h, j),
        )
}

/// Some record carries exactly the queried MIME-type bytes.
pub open spec fn icon_found(d: Seq<u8>, h: CacheHeader, q: Seq<u8>) -> bool {
    exists|i: int| 0 <= i < icon_count(d, h) && #[trigger] icon_mime_bytes(d, h, i) == q
}

/// What a reference linear scan starting at record `i` yields: the icon-name
/// bytes of the first matching record, or the failure met on the way.
pub open spec fn lin_find(d: Seq<u8>, h: CacheHeader, q: Seq<u8>, i: int) -> Result<Seq<u8>, Error>
    decreases icon_count(d, h) - i,
{
    if i < 0 || i >= icon_count(d, h) {
        Err(Error::NoIconFound)
    } else if !has_nul(d, icon_mime_off(d, h, i)) {
        Err(Error::CstrUnterminated)
    } else if !valid_utf8(icon_mime_bytes(d, h, i)) {
        Err(Error::InvalidUTF8)
    } else if icon_mime_bytes(d, h, i) == q {
        if !has_nul(d, icon_name_off(d, h, i)) {
            Err(Error::CstrUnterminated)
        } else if !valid_utf8(icon_name_bytes(d, h, i)) {
            Err(Error::InvalidUTF8)
        } else {
            Ok(icon_name_bytes(d, h, i))
        }
    } else {
        lin_find(d, h, q, i + 1)
    }
}

/// What the binary search promises for query bytes `q` and result `r`.
pub open spec fn find_icon_post(d: Seq<u8>, h: CacheHeader, q: Seq<u8>, r: Result<
    String,
    Error,
>) -> bool {
    &&& !icons_in_bounds(d, h) ==> r == Err::<String, Error>(Error::MissingGenericIconsList)
    &&& (r matches Ok(icon) ==> exists|i: int|
        {
            &&& 0 <= i < icon_count(d, h)
            &&& #[trigger] icon_mime_bytes(d, h, i) == q
            &&& has_nul(d, icon_name_off(d, h, i))
            &&& icon@ == decode_utf8(icon_name_bytes(d, h, i))
        })
    &&& (icons_wf(d, h) && icons_sorted(d, h)) ==> {
        &&& (icon_found(d, h, q) <==> r is Ok)
        &&& (!icon_found(d, h, q) ==> r == Err::<String, Error>(Error::NoIconFound))
    }
}

/// What the linear scan promises for query bytes `q` and result `r`.
pub open spec fn find_icon_linear_post(d: Seq<u8>, h: CacheHeader, q: Seq<u8>, r: Result<
    MimeType,
    Error,
>) -> bool {
    &&& !icons_in_bounds(d, h) ==> r == Err::<MimeType, Error>(Error::MissingGenericIconsList)
    &&& icons_in_bounds(d, h) ==> match lin_find(d, h, q, 0) {
        Ok(nm) => r matches Ok(m) && m.0@ == decode_utf8(nm),
        Err(e) => r == Err::<MimeType, Error>(e),
    }
}

/// Reads the record count and checks that the whole list lies in the buffer.
fn icons_bounds_check(data: &[u8], start: usize) -> (r: Option<usize>)
    requires
        start as int <= 0xFFFF_FFFF,
    ensures
        ({
            let d = data@;
            let st = start as int;
            match r {
                Some(n) => st + 4 <= d.len() && n == be_u32_of(d.subrange(st, st + 4)) && st + 4 + 8
                    * (n as int) <= d.len(),
                None => !(st + 4 <= d.len() && st + 4 + 8 * (be_u32_of(
                    d.subrange(st, st + 4),
                ) as int) <= d.len()),
            }
        }),
{
    match get_u32(data, start) {
        Some(num) => {
            if (start as u64) + 4 + 8 * (num as u64) <= data.len() as u64 {
                Some(num as usize)
            } else {
                None
            }
        },
        None => None,
    }
}

/// Binary search for the generic icon name of a MIME type, over a sorted
/// record list.
pub fn find_icon(cache: &MimeCache, mime_type: &str) -> (r: Result<String, Error>)
    requires
        cache.wf(),
    ensures
        find_icon_post(cache.cache_data@, cache.cache_header, mime_type.spec_bytes(), r),
{
    let ghost d = cache.cache_data@;
    let ghost h = cache.cache_header;
    let data = cache.cache_data.as_slice();
    let start = cache.cache_header.generic_icons_list_offset as usize;
    let n = match icons_bounds_check(data, start) {
        Some(n) => n,
        None => {
            return Err(Error::MissingGenericIconsList);
        },
    };
    assert(icons_in_bounds(d, h) && n == icon_count(d, h));
    let dlen = data.len();
    let qb = mime_type.as_bytes();
    let mut lo: usize = 0;
    let mut hi: usize = n;
    while lo < hi
        invariant
            cache.wf(),
            d == cache.cache_data@,
            h == cache.cache_header,
            data@ == d,
            dlen == d.len(),
            start == icons_start(h),
            icons_in_bounds(d, h),
            n == icon_count(d, h),
            qb@ == mime_type.spec_bytes(),
            0 <= lo <= hi <= n,
            icons_sorted(d, h) ==> forall|i: int|
                0 <= i < lo ==> lex_lt(#[trigger] icon_mime_bytes(d, h, i), qb@),
            icons_sorted(d, h) ==> forall|i: int|
                hi <= i < n ==> lex_lt(qb@, #[trigger] icon_mime_bytes(d, h, i)),
        decreases hi - lo,
    {
        let mid = lo + (hi - lo) / 2;
        assert(8 * (mid as int) + 8 <= 8 * (n as int));
        let pos = start + 4 + 8 * mid;
        let m_off_opt = get_u32(data, pos);
        proof {
            assert(m_off_opt is Some);
        }
        let m_off = m_off_opt.unwrap() as usize;
        assert(m_off == icon_mime_off(d, h, mid as int));
        match cstr_slice(data, m_off) {
            None => {
                proof {
                    if icons_wf(d, h) {
                        assert(icon_rec_ok(d, h, mid as int));
                        assert(false);
                    }
                }
                return Err(Error::CstrUnterminated);
            },
            Some(ms) => {
                assert(ms@ == icon_mime_bytes(d, h, mid as int));
                if bytes_to_string(ms).is_none() {
                    proof {
                        if icons_wf(d, h) {
                            assert(icon_rec_ok(d, h, mid as int));
                            assert(false);
                        }
                    }
                    return Err(Error::InvalidUTF8);
                }
                match cmp_bytes(qb, ms) {
                    ByteOrder::Same => {
                        let i_off_opt = get_u32(data, pos + 4);
                        proof {
                            assert(i_off_opt is Some);
                        }
                        let i_off = i_off_opt.unwrap() as usize;
                        assert(i_off == icon_name_off(d, h, mid as int));
                        match cstr_slice(data, i_off) {
                            None => {
                                proof {
                                    if icons_wf(d, h) {
                                        assert(icon_rec_ok(d, h, mid as int));
                                        assert(false);
                                    }
                                }
                                return Err(Error::CstrUnterminated);
                            },
                            Some(isl) => {
                                match bytes_to_string(isl) {
                                    None => {
                                        proof {
                                            if icons_wf(d, h) {
                                                assert(icon_rec_ok(d, h, mid as int));
                                                assert(false);
                                            }
                                        }
                                        return Err(Error::InvalidUTF8);
                                    },
                                    Some(icon) => {
                                        proof {
                                            assert(icon_mime_bytes(d, h, mid as int) == qb@);
                                            assert(icon_found(d, h, qb@));
                                        }
                                        return Ok(icon);
                                    },
                                }
                            },
                        }
                    },
                    ByteOrder::Lower => {
                        proof {
                            if icons_sorted(d, h) {
                                assert forall|i: int| mid as int <= i < n implies lex_lt(
                                    qb@,
                                    #[trigger] icon_mime_bytes(d, h, i),
                                ) by {
                                    if i > mid as int {
                                        lemma_lex_trans(
                                            qb@,
                                            icon_mime_bytes(d, h, mid as int),
                                            icon_mime_bytes(d, h, i),
                                        );
                                    }
                                }
                            }
                        }
                        hi = mid;
                    },
                    ByteOrder::Higher => {
                        proof {
                            if icons_sorted(d, h) {
                                assert forall|i: int| 0 <= i < mid as int + 1 implies lex_lt(
                                    #[trigger] icon_mime_bytes(d, h, i),
                                    qb@,
                                ) by {
                                    if i < mid as int {
                                        lemma_lex_trans(
                                            icon_mime_bytes(d, h, i),
                                            icon_mime_bytes(d, h, mid as int),
                                            qb@,
                                        );
                                    }
                                }
                            }
                        }
                        lo = mid + 1;
                    },
                }
            },
        }
    }
    proof {
        if icons_wf(d, h) && icons_sorted(d, h) {
            lemma_lex_irrefl(qb@);
            assert forall|i: int| 0 <= i < icon_count(d, h) implies #[trigger] icon_mime_bytes(
                d,
                h,
                i,
            ) != qb@ by {
                if icon_mime_bytes(d, h, i) == qb@ {
                    assert(false);
                }
            }
        }
    }
    Err(Error::NoIconFound)
}

/// Reference linear scan over the same record list, returning the first
/// match in record order.
pub fn find_icon_linear(cache: &MimeCache, mime_type: &str) -> (r: Result<MimeType, Error>)
    requires
        cache.wf(),
    ensures
        find_icon_linear_post(cache.cache_data@, cache.cache_header, mime_type.spec_bytes(), r),
{
    let ghost d = cache.cache_data@;
    let ghost h = cache.cache_header;
    let data = cache.cache_data.as_slice();
    let start = cache.cache_header.generic_icons_list_offset as usize;
    let n = match icons_bounds_check(data, start) {
        Some(n) => n,
        None => {
            return Err(Error::MissingGenericIconsList);
        },
    };
    assert(icons_in_bounds(d, h) && n == icon_count(d, h));
    let dlen = data.len();
    let qb = mime_type.as_bytes();
    let mut i: usize = 0;
    while i < n
        invariant
            cache.wf(),
            d == cache.cache_data@,
            h == cache.cache_header,
            data@ == d,
            dlen == d.len(),
            start == icons_start(h),
            icons_in_bounds(d, h),
            n == icon_count(d, h),
            qb@ == mime_type.spec_bytes(),
            0 <= i <= n,
            lin_find(d, h, qb@, 0) == lin_find(d, h, qb@, i as int),
        decreases n - i,
    {
        assert(8 * (i as int) + 8 <= 8 * (n as int));
        let pos = start + 4 + 8 * i;
        let m_off_opt = get_u32(data, pos);
        proof {
            assert(m_off_opt is Some);
        }
        let m_off = m_off_opt.unwrap() as usize;
        assert(m_off == icon_mime_off(d, h, i as int));
        match cstr_slice(data, m_off) {
            None => {
                return Err(Error::CstrUnterminated);
            },
            Some(ms) => {
                assert(ms@ == icon_mime_bytes(d, h, i as int));
                if bytes_to_string(ms).is_none() {
                    return Err(Error::InvalidUTF8);
                }
                match cmp_bytes(ms, qb) {
                    ByteOrder::Same => {
                        let i_off_opt = get_u32(data, pos + 4);
                        proof {
                            assert(i_off_opt is Some);
                        }
                        let i_off = i_off_opt.unwrap() as usize;
                        assert(i_off == icon_name_off(d, h, i as int));
                        match cstr_slice(data, i_off) {
                            None => {
                                return Err(Error::CstrUnterminated);
                            },
                            Some(isl) => {
                                match bytes_to_string(isl) {
                                    None => {
                                        return Err(Error::InvalidUTF8);
                                    },
                                    Some(s) => {
                                        return Ok(MimeType(s));
                                    },
                                }
                            },
                        }
                    },
                    _ => {
                        proof {
                            assert(lin_find(d, h, qb@, i as int) == lin_find(
                                d,
                                h,
                                qb@,
                                i as int + 1,
                            ));
                        }
                        i = i + 1;
                    },
                }
            },
        }
    }
    Err(Error::NoIconFound)
}

/// Under a sorted list, a MIME type occurs in at most one record.
pub proof fn lemma_match_unique(d: Seq<u8>, h: CacheHeader, q: Seq<u8>, i: int, j: int)
    requires
        icons_sorted(d, h),
        0 <= i < icon_count(d, h),
        0 <= j < icon_count(d, h),
        icon_mime_bytes(d, h, i) == q,
        icon_mime_bytes(d, h, j) == q,
    ensures
        i == j,
{
    lemma_lex_irrefl(q);
}

proof fn lemma_lin_find_from(d: Seq<u8>, h: CacheHeader, q: Seq<u8>, k: int)
    requires
        icons_wf(d, h),
        icons_sorted(d, h),
        0 <= k <= icon_count(d, h),
    ensures
        (lin_find(d, h, q, k) is Ok) <==> (exists|i: int|
            k <= i < icon_count(d, h) && #[trigger] icon_mime_bytes(d, h, i) == q),
        !(exists|i: int| k <= i < icon_count(d, h) && #[trigger] icon_mime_bytes(d, h, i) == q)
            ==> lin_find(d, h, q, k) == Err::<Seq<u8>, Error>(Error::NoIconFound),
        forall|i: int|
            k <= i < icon_count(d, h) && #[trigger] icon_mime_bytes(d, h, i) == q ==> lin_find(
                d,
                h,
                q,
                k,
            ) == Ok::<Seq<u8>, Error>(icon_name_bytes(d, h, i)),
    decreases icon_count(d, h) - k,
{
    if k < icon_count(d, h) {
        assert(icon_rec_ok(d, h, k));
        if icon_mime_bytes(d, h, k) == q {
            assert(lin_find(d, h, q, k) == Ok::<Seq<u8>, Error>(icon_name_bytes(d, h, k)));
            assert forall|i: int|
                k <= i < icon_count(d, h) && #[trigger] icon_mime_bytes(d, h, i)
                    == q implies lin_find(d, h, q, k) == Ok::<Seq<u8>, Error>(
                icon_name_bytes(d, h, i),
            ) by {
                lemma_match_unique(d, h, q, i, k);
            }
        } else {
            lemma_lin_find_from(d, h, q, k + 1);
        }
    }
}

/// Binary search agrees with the reference linear scan: over a well-formed,
/// sorted list, the linear scan succeeds exactly on the MIME types some
/// record carries, returns that record's icon-name bytes, and reports
/// `NoIconFound` otherwise — the same characterization the binary search's
/// contract gives, whatever the starting bounds or midpoint arithmetic.
pub proof fn lemma_linear_scan_agrees(d: Seq<u8>, h: CacheHeader, q: Seq<u8>)
    requires
        icons_wf(d, h),
        icons_sorted(d, h),
    ensures
        (lin_find(d, h, q, 0) is Ok) <==> icon_found(d, h, q),
        !icon_found(d, h, q) ==> lin_find(d, h, q, 0) == Err::<Seq<u8>, Error>(Error::NoIconFound),
        forall|i: int|
            0 <= i < icon_count(d, h) && #[trigger] icon_mime_bytes(d, h, i) == q ==> lin_find(
                d,
                h,
                q,
                0,
            ) == Ok::<Seq<u8>, Error>(icon_name_bytes(d, h, i)),
{
    lemma_lin_find_from(d, h, q, 0);
}

} // verus!
