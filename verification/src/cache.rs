//! The loaded binary cache: the parsed 40-byte header over the owned byte
//! buffer, null-terminated string extraction, and the byte-wise lexicographic
//! order that the sorted record lists use.

use vstd::prelude::*;
use vstd::slice::slice_subrange;
use vstd::utf8::{decode_utf8, valid_utf8};

use crate::Error;
use crate::byte_decode::{be_u16_of, be_u32_of, u8x2_u16, u8x4_u32};

verus! {

/// The eleven fixed-width header fields of the binary cache.
#[derive(Debug, PartialEq, Eq)]
pub struct CacheHeader {
    pub major_version: u16,
    pub minor_version: u16,
    pub alias_list_offset: u32,
    pub parent_list_offset: u32,
    pub literal_list_offset: u32,
    pub reverse_suffix_tree_offset: u32,
    pub glob_list_offset: u32,
    pub magic_list_offset: u32,
    pub namespace_list_offset: u32,
    pub icons_list_offset: u32,
    pub generic_icons_list_offset: u32,
}

/// The header described by the first forty bytes of a buffer.
pub open spec fn header_of(b: Seq<u8>) -> CacheHeader
    recommends
        b.len() >= 40,
{
    CacheHeader {
        major_version: be_u16_of(b.subrange(0, 2)),
        minor_version: be_u16_of(b.subrange(2, 4)),
        alias_list_offset: be_u32_of(b.subrange(4, 8)),
        parent_list_offset: be_u32_of(b.subrange(8, 12)),
        literal_list_offset: be_u32_of(b.subrange(12, 16)),
        reverse_suffix_tree_offset: be_u32_of(b.subrange(16, 20)),
        glob_list_offset: be_u32_of(b.subrange(20, 24)),
        magic_list_offset: be_u32_of(b.subrange(24, 28)),
        namespace_list_offset: be_u32_of(b.subrange(28, 32)),
        icons_list_offset: be_u32_of(b.subrange(32, 36)),
        generic_icons_list_offset: be_u32_of(b.subrange(36, 40)),
    }
}

impl CacheHeader {
    /// Parses the 40-byte header prefix. Cannot fail given 40 available bytes.
    pub fn read_header(input: &[u8]) -> (h: CacheHeader)
        requires
            input@.len() >= 40,
        ensures
            h == header_of(input@),
    {
        CacheHeader {
            major_version: u8x2_u16(slice_subrange(input, 0, 2)),
            minor_version: u8x2_u16(slice_subrange(input, 2, 4)),
            alias_list_offset: u8x4_u32(slice_subrange(input, 4, 8)),
            parent_list_offset: u8x4_u32(slice_subrange(input, 8, 12)),
            literal_list_offset: u8x4_u32(slice_subrange(input, 12, 16)),
            reverse_suffix_tree_offset: u8x4_u32(slice_subrange(input, 16, 20)),
            glob_list_offset: u8x4_u32(slice_subrange(input, 20, 24)),
            magic_list_offset: u8x4_u32(slice_subrange(input, 24, 28)),
            namespace_list_offset: u8x4_u32(slice_subrange(input, 28, 32)),
            icons_list_offset: u8x4_u32(slice_subrange(input, 32, 36)),
            generic_icons_list_offset: u8x4_u32(slice_subrange(input, 36, 40)),
        }
    }
}

/// The parsed header together with the whole raw buffer, owned once and
/// read-only thereafter.
#[derive(Debug)]
pub struct MimeCache {
    pub cache_header: CacheHeader,
    pub cache_data: Vec<u8>,
}

impl MimeCache {
    /// The header matches the first forty bytes of the owned buffer.
    pub open spec fn wf(self) -> bool {
        &&& self.cache_data@.len() >= 40
        &&& self.cache_header == header_of(self.cache_data@)
    }

    /// Parses a whole cache file image. Fails with `MissingHeader` when fewer
    /// than forty bytes are available; the parse itself cannot fail.
    pub fn from_bytes(bytes: Vec<u8>) -> (r: Result<MimeCache, Error>)
        ensures
            bytes@.len() >= 40 ==> (r matches Ok(c) && c.cache_data@ == bytes@ && c.wf()),
            bytes@.len() < 40 ==> r == Err::<MimeCache, Error>(Error::MissingHeader),
    {
        if bytes.len() < 40 {
            return Err(Error::MissingHeader);
        }
        let cache_header = CacheHeader::read_header(bytes.as_slice());
        Ok(MimeCache { cache_header, cache_data: bytes })
    }
}

/// The position of the first zero byte at or after `off`, or the buffer
/// length when there is none.
pub open spec fn first_nul_from(data: Seq<u8>, off: int) -> int
    decreases data.len() - off,
{
    if off < 0 || off >= data.len() {
        data.len() as int
    } else if data[off] == 0 {
        off
    } else {
        first_nul_from(data, off + 1)
    }
}

/// A terminating zero byte exists at or after `off`.
pub open spec fn has_nul(data: Seq<u8>, off: int) -> bool {
    first_nul_from(data, off) < data.len()
}

/// The bytes of the null-terminated string starting at `off`, without the
/// terminator.
pub open spec fn cstr_bytes(data: Seq<u8>, off: int) -> Seq<u8>
    recommends
        0 <= off,
        has_nul(data, off),
{
    data.subrange(off, first_nul_from(data, off))
}

/// Scans for the terminating zero byte of the string starting at `off`.
pub fn scan_nul(data: &[u8], off: usize) -> (r: Option<usize>)
    ensures
        r matches Some(p) ==> off <= p < data@.len() && p == first_nul_from(data@, off as int),
        r is None ==> !has_nul(data@, off as int),
{
    let mut i = off;
    if i > data.len() {
        return None;
    }
    while i < data.len()
        invariant
            off <= i <= data@.len(),
            first_nul_from(data@, off as int) == first_nul_from(data@, i as int),
        decreases data@.len() - i,
    {
        if data[i] == 0 {
            return Some(i);
        }
        i = i + 1;
    }
    None
}

/// The null-terminated byte string starting at `off`, or `None` when the
/// buffer ends before a terminator.
pub fn cstr_slice<'a>(data: &'a [u8], off: usize) -> (r: Option<&'a [u8]>)
    ensures
        r matches Some(s) ==> has_nul(data@, off as int) && s@ == cstr_bytes(data@, off as int),
        r is None ==> !has_nul(data@, off as int),
{
    match scan_nul(data, off) {
        Some(p) => Some(slice_subrange(data, off, p)),
        None => None,
    }
}

/// Relies on `alloc::string::String::from_utf8`: it returns `Ok` exactly when
/// the bytes are valid UTF-8, and the returned string is then their decoding.
#[verifier::external_body]
pub fn bytes_to_string(b: &[u8]) -> (r: Option<String>)
    ensures
        (r is Some) == valid_utf8(b@),
        r matches Some(s) ==> s@ == decode_utf8(b@),
{
    String::from_utf8(b.to_vec()).ok()
}

/// Strict byte-wise lexicographic order, the order in which the cache's
/// record lists are sorted.
pub open spec fn lex_lt(a: Seq<u8>, b: Seq<u8>) -> bool
    decreases a.len(),
{
    if b.len() == 0 {
        false
    } else if a.len() == 0 {
        true
    } else if a[0] < b[0] {
        true
    } else if a[0] > b[0] {
        false
    } else {
        lex_lt(a.drop_first(), b.drop_first())
    }
}

pub proof fn lemma_lex_irrefl(a: Seq<u8>)
    ensures
        !lex_lt(a, a),
    decreases a.len(),
{
    if a.len() > 0 {
        lemma_lex_irrefl(a.drop_first());
    }
}

pub proof fn lemma_lex_trans(a: Seq<u8>, b: Seq<u8>, c: Seq<u8>)
    requires
        lex_lt(a, b),
        lex_lt(b, c),
    ensures
        lex_lt(a, c),
    decreases a.len() + b.len() + c.len(),
{
    if a.len() > 0 && b.len() > 0 && c.len() > 0 && a[0] == b[0] && b[0] == c[0] {
        lemma_lex_trans(a.drop_first(), b.drop_first(), c.drop_first());
    }
}

/// Comparison outcome of two byte strings.
pub enum ByteOrder {
    Lower,
    Same,
    Higher,
}

proof fn lemma_lex_skip(a: Seq<u8>, b: Seq<u8>, i: int)
    requires
        0 <= i <= a.len(),
        i <= b.len(),
        a.subrange(0, i) =~= b.subrange(0, i),
    ensures
        lex_lt(a, b) == lex_lt(a.skip(i), b.skip(i)),
        lex_lt(b, a) == lex_lt(b.skip(i), a.skip(i)),
        (a == b) == (a.skip(i) =~= b.skip(i)),
    decreases i,
{
    if i == 0 {
        assert(a.skip(0) =~= a);
        assert(b.skip(0) =~= b);
        if a.skip(0) =~= b.skip(0) {
            assert(a =~= b);
        }
    } else {
        assert(a.len() > 0 && b.len() > 0);
        assert(a.subrange(0, i)[0] == a[0]);
        assert(b.subrange(0, i)[0] == b[0]);
        assert(a[0] == b[0]);
        assert(a.drop_first().subrange(0, i - 1) =~= a.subrange(0, i).drop_first());
        assert(b.drop_first().subrange(0, i - 1) =~= b.subrange(0, i).drop_first());
        lemma_lex_skip(a.drop_first(), b.drop_first(), i - 1);
        assert(a.drop_first().skip(i - 1) =~= a.skip(i));
        assert(b.drop_first().skip(i - 1) =~= b.skip(i));
        if a.drop_first() == b.drop_first() {
            assert forall|k: int| 0 <= k < a.len() implies a[k] == b[k] by {
                if k > 0 {
                    assert(a[k] == a.drop_first()[k - 1]);
                    assert(b[k] == b.drop_first()[k - 1]);
                }
            }
            assert(a =~= b);
        }
    }
}

/// Byte-wise lexicographic comparison of two byte strings.
pub fn cmp_bytes(a: &[u8], b: &[u8]) -> (r: ByteOrder)
    ensures
        (r is Lower) == lex_lt(a@, b@),
        (r is Higher) == lex_lt(b@, a@),
        (r is Same) == (a@ == b@),
{
    let mut i: usize = 0;
    let alen = a.len();
    let blen = b.len();
    while i < alen && i < blen
        invariant
            alen == a@.len(),
            blen == b@.len(),
            0 <= i <= alen,
            i <= blen,
            a@.subrange(0, i as int) =~= b@.subrange(0, i as int),
        decreases alen - i,
    {
        let x = a[i];
        let y = b[i];
        proof {
            lemma_lex_skip(a@, b@, i as int);
            assert(a@.skip(i as int)[0] == x);
            assert(b@.skip(i as int)[0] == y);
        }
        if x < y {
            return ByteOrder::Lower;
        }
        if x > y {
            return ByteOrder::Higher;
        }
        proof {
            assert(a@.subrange(0, i + 1) =~= b@.subrange(0, i + 1));
        }
        i = i + 1;
    }
    if alen == blen {
        proof {
            assert(a@.subrange(0, i as int) =~= a@);
            assert(b@.subrange(0, i as int) =~= b@);
            assert(a@ =~= b@);
            lemma_lex_irrefl(a@);
        }
        ByteOrder::Same
    } else if alen < blen {
        proof {
            lemma_lex_skip(a@, b@, i as int);
            assert(a@.skip(i as int).len() == 0);
            assert(b@.skip(i as int).len() > 0);
        }
        ByteOrder::Lower
    } else {
        proof {
            lemma_lex_skip(a@, b@, i as int);
            assert(b@.skip(i as int).len() == 0);
            assert(a@.skip(i as int).len() > 0);
        }
        ByteOrder::Higher
    }
}

} // verus!
