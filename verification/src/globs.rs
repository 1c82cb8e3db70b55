//! The two glob sources — the binary cache's glob list and the `globs2`
//! text file — their filtering to simple suffix globs, and the merged
//! extension-to-MIME index with text entries taking precedence.

use vstd::prelude::*;
use vstd::string::StrSliceExecFns;
use vstd::string::StringSliceAdditionalSpecFns;
use vstd::utf8::{decode_utf8, valid_utf8};

use crate::byte_decode::{be_u32_of, get_u32};
use crate::cache::{
    bytes_to_string, cstr_bytes, cstr_slice, has_nul, CacheHeader, MimeCache,
};
use crate::{Error, MimeType};

verus! {

/// A weight and an owned MIME type, associated with a glob pattern key.
#[derive(Debug)]
pub struct GlobEntry {
    pub weight: u8,
    pub mime: MimeType,
}

/// The (glob, weight, MIME type) views of extracted entries.
pub open spec fn entry_views(v: Seq<(String, GlobEntry)>) -> Seq<(Seq<char>, u8, Seq<char>)> {
    v.map_values(|p: (String, GlobEntry)| (p.0@, p.1.weight, p.1.mime.0@))
}

/// The position of the first occurrence of `c` at or after `from`, or the
/// length when there is none.
pub open spec fn first_idx_from(s: Seq<char>, c: char, from: int) -> int
    decreases s.len() - from,
{
    if from < 0 || from >= s.len() {
        s.len() as int
    } else if s[from] == c {
        from
    } else {
        first_idx_from(s, c, from + 1)
    }
}

pub proof fn lemma_first_idx(s: Seq<char>, c: char, from: int)
    requires
        0 <= from <= s.len(),
    ensures
        from <= first_idx_from(s, c, from) <= s.len(),
        first_idx_from(s, c, from) < s.len() ==> s[first_idx_from(s, c, from)] == c,
        forall|j: int| from <= j < first_idx_from(s, c, from) ==> s[j] != c,
    decreases s.len() - from,
{
    if from < s.len() && s[from] != c {
        lemma_first_idx(s, c, from + 1);
    }
}

/// A line without its trailing carriage return, if it carries one.
pub open spec fn strip_cr(l: Seq<char>) -> Seq<char> {
    if l.len() > 0 && l[l.len() - 1] == '\r' {
        l.drop_last()
    } else {
        l
    }
}

/// The lines of the text from position `from` on: split at every newline,
/// one trailing carriage return stripped per line, no final empty line after
/// a trailing newline.
pub open spec fn lines_from(s: Seq<char>, from: int) -> Seq<Seq<char>>
    decreases s.len() - from,
    via lines_from_dec
{
    if from < 0 || from >= s.len() {
        Seq::empty()
    } else {
        let p = first_idx_from(s, '\n', from);
        if p >= s.len() {
            seq![strip_cr(s.subrange(from, s.len() as int))]
        } else {
            seq![strip_cr(s.subrange(from, p))] + lines_from(s, p + 1)
        }
    }
}

#[via_fn]
proof fn lines_from_dec(s: Seq<char>, from: int) {
    if 0 <= from && from < s.len() {
        lemma_first_idx(s, '\n', from);
    }
}

/// Empty and `#`-prefixed lines are ignored.
pub open spec fn line_skip(l: Seq<char>) -> bool {
    l.len() == 0 || l[0] == '#'
}

/// An ASCII decimal digit.
pub open spec fn is_digit(c: char) -> bool {
    48 <= (c as u32) && (c as u32) <= 57
}

pub open spec fn all_digits(w: Seq<char>) -> bool {
    w.len() > 0 && forall|i: int| 0 <= i < w.len() ==> is_digit(#[trigger] w[i])
}

/// The decimal value of a digit string.
pub open spec fn dec_val(w: Seq<char>) -> int
    decreases w.len(),
{
    if w.len() == 0 {
        0
    } else {
        dec_val(w.drop_last()) * 10 + ((w[w.len() - 1] as u32) - 48)
    }
}

/// A weight field parses when it is one or more decimal digits with value at
/// most 255.
pub open spec fn parse_weight(w: Seq<char>) -> Option<u8> {
    if all_digits(w) && dec_val(w) <= 255 {
        Some(dec_val(w) as u8)
    } else {
        None
    }
}

/// The `WEIGHT ":" MIMETYPE ":" GLOB` fields of a line, split on the first
/// two colons only.
pub open spec fn line_fields(l: Seq<char>) -> Option<(Seq<char>, Seq<char>, Seq<char>)> {
    let c1 = first_idx_from(l, ':', 0);
    if c1 >= l.len() {
        None
    } else {
        let c2 = first_idx_from(l, ':', c1 + 1);
        if c2 >= l.len() {
            None
        } else {
            Some(
                (
                    l.subrange(0, c1),
                    l.subrange(c1 + 1, c2),
                    l.subrange(c2 + 1, l.len() as int),
                ),
            )
        }
    }
}

/// The (glob, weight, MIME type) record of a non-ignored line.
pub open spec fn line_entry(l: Seq<char>) -> Option<(Seq<char>, u8, Seq<char>)> {
    match line_fields(l) {
        None => None,
        Some((w, m, g)) => match parse_weight(w) {
            None => None,
            Some(wt) => Some((g, wt, m)),
        },
    }
}

pub open spec fn line_ok(l: Seq<char>) -> bool {
    line_skip(l) || line_entry(l) is Some
}

/// The error a failing line produces: the line itself for a wrong field
/// count, `NotANumber` for a weight that does not parse.
pub open spec fn line_error_matches(l: Seq<char>, e: Error) -> bool {
    if line_fields(l) is None {
        e matches Error::Globs2BadLine(s) && s@ == l
    } else {
        e == Error::NotANumber
    }
}

/// The first failing line at or after `i`, or the line count.
pub open spec fn first_bad_from(ls: Seq<Seq<char>>, i: int) -> int
    decreases ls.len() - i,
{
    if i < 0 || i >= ls.len() {
        ls.len() as int
    } else if !line_ok(ls[i]) {
        i
    } else {
        first_bad_from(ls, i + 1)
    }
}

/// The records of the lines at or after `i`, ignored lines dropped, in line
/// order.
pub open spec fn text_entries_from(ls: Seq<Seq<char>>, i: int) -> Seq<(Seq<char>, u8, Seq<char>)>
    decreases ls.len() - i,
{
    if i < 0 || i >= ls.len() {
        Seq::empty()
    } else if line_skip(ls[i]) {
        text_entries_from(ls, i + 1)
    } else {
        match line_entry(ls[i]) {
            Some(e) => seq![e] + text_entries_from(ls, i + 1),
            None => text_entries_from(ls, i + 1),
        }
    }
}

pub proof fn lemma_first_bad_bounds(ls: Seq<Seq<char>>, i: int)
    requires
        0 <= i <= ls.len(),
    ensures
        i <= first_bad_from(ls, i) <= ls.len(),
    decreases ls.len() - i,
{
    if i < ls.len() && line_ok(ls[i]) {
        lemma_first_bad_bounds(ls, i + 1);
    }
}

/// What parsing the whole text source promises.
pub open spec fn globs2_post(s: Seq<char>, r: Result<Vec<(String, GlobEntry)>, Error>) -> bool {
    let ls = lines_from(s, 0);
    let k = first_bad_from(ls, 0);
    &&& ((k == ls.len()) <==> r is Ok)
    &&& (r matches Ok(v) ==> entry_views(v@) == text_entries_from(ls, 0))
    &&& (k < ls.len() ==> (r matches Err(e) && line_error_matches(ls[k], e)))
}

pub open spec fn line_views(v: Seq<String>) -> Seq<Seq<char>> {
    v.map_values(|l: String| l@)
}

/// Scans for the first occurrence of `c` at or after `from`.
fn find_char(s: &str, c: char, from: usize) -> (p: usize)
    requires
        from as int <= s@.len(),
    ensures
        p == first_idx_from(s@, c, from as int),
{
    let n = s.unicode_len();
    let mut j = from;
    while j < n
        invariant
            n == s@.len(),
            from <= j <= n,
            first_idx_from(s@, c, from as int) == first_idx_from(s@, c, j as int),
        decreases n - j,
    {
        if s.get_char(j) == c {
            return j;
        }
        j = j + 1;
    }
    j
}

/// Splits the text into its lines.
#[verifier::loop_isolation(false)]
fn split_lines(s: &str) -> (v: Vec<String>)
    ensures
        line_views(v@) == lines_from(s@, 0),
{
    let n = s.unicode_len();
    let mut out: Vec<String> = Vec::new();
    let mut i: usize = 0;
    while i < n
        invariant
            i <= n,
            lines_from(s@, 0) == line_views(out@) + lines_from(s@, i as int),
        decreases n - i,
    {
        let p = find_char(s, '\n', i);
        proof {
            lemma_first_idx(s@, '\n', i as int);
        }
        let line_end = if p > i && s.get_char(p - 1) == '\r' {
            p - 1
        } else {
            p
        };
        let line = s.substring_char(i, line_end).to_owned();
        proof {
            assert(strip_cr(s@.subrange(i as int, p as int)) =~= s@.subrange(
                i as int,
                line_end as int,
            ));
            assert(line_views(out@.push(line)) =~= line_views(out@) + seq![line@]);
            if p as int >= s@.len() {
                assert(lines_from(s@, i as int) =~= seq![line@] + lines_from(s@, p as int + 1));
            } else {
                assert(lines_from(s@, i as int) =~= seq![line@] + lines_from(s@, p as int + 1));
            }
            assert(line_views(out@) + lines_from(s@, i as int) =~= line_views(out@.push(line))
                + lines_from(s@, p as int + 1));
            if p >= n {
                assert(lines_from(s@, p as int + 1) =~= lines_from(s@, n as int));
            }
        }
        out.push(line);
        i = if p < n {
            p + 1
        } else {
            n
        };
    }
    proof {
        assert(lines_from(s@, i as int) =~= Seq::<Seq<char>>::empty());
        assert(line_views(out@) + lines_from(s@, i as int) =~= line_views(out@));
    }
    out
}

proof fn lemma_dec_val_nonneg(w: Seq<char>)
    requires
        forall|i: int| 0 <= i < w.len() ==> is_digit(#[trigger] w[i]),
    ensures
        dec_val(w) >= 0,
    decreases w.len(),
{
    if w.len() > 0 {
        lemma_dec_val_nonneg(w.drop_last());
    }
}

proof fn lemma_dec_val_mono(w: Seq<char>, k: int)
    requires
        0 <= k <= w.len(),
        forall|i: int| 0 <= i < w.len() ==> is_digit(#[trigger] w[i]),
    ensures
        dec_val(w.subrange(0, k)) <= dec_val(w),
    decreases w.len() - k,
{
    if k < w.len() {
        assert(w.subrange(0, k + 1).drop_last() =~= w.subrange(0, k));
        assert(forall|i: int| 0 <= i < k ==> is_digit(#[trigger] w.subrange(0, k)[i]));
        lemma_dec_val_nonneg(w.subrange(0, k));
        assert(dec_val(w.subrange(0, k + 1)) == dec_val(w.subrange(0, k)) * 10 + ((w[k] as u32)
            - 48));
        lemma_dec_val_mono(w, k + 1);
    } else {
        assert(w.subrange(0, k) =~= w);
    }
}

/// Parses one line of the text source.
#[verifier::loop_isolation(false)]
fn parse_glob_line(line: &str) -> (r: Result<Option<(String, GlobEntry)>, Error>)
    ensures
        line_skip(line@) ==> r == Ok::<Option<(String, GlobEntry)>, Error>(None),
        !line_skip(line@) ==> match line_entry(line@) {
            Some((g, w, m)) => r matches Ok(Some(p)) && p.0@ == g && p.1.weight == w && p.1.mime.0@
                == m,
            None => r matches Err(e) && line_error_matches(line@, e),
        },
{
    let n = line.unicode_len();
    if n == 0 {
        return Ok(None);
    }
    if line.get_char(0) == '#' {
        return Ok(None);
    }
    let c1 = find_char(line, ':', 0);
    if c1 == n {
        return Err(Error::Globs2BadLine(line.to_owned()));
    }
    proof {
        lemma_first_idx(line@, ':', 0);
    }
    let c2 = find_char(line, ':', c1 + 1);
    if c2 == n {
        return Err(Error::Globs2BadLine(line.to_owned()));
    }
    proof {
        lemma_first_idx(line@, ':', c1 as int + 1);
    }
    let ghost w = line@.subrange(0, c1 as int);
    if c1 == 0 {
        proof {
            assert(!all_digits(w));
        }
        return Err(Error::NotANumber);
    }
    let mut acc: u32 = 0;
    let mut k: usize = 0;
    while k < c1
        invariant
            n == line@.len(),
            0 < c1 < n,
            w == line@.subrange(0, c1 as int),
            0 <= k <= c1,
            acc <= 255,
            acc == dec_val(w.subrange(0, k as int)),
            forall|i: int| 0 <= i < k ==> is_digit(#[trigger] w[i]),
        decreases c1 - k,
    {
        let ch = line.get_char(k);
        proof {
            assert(w[k as int] == line@[k as int]);
        }
        let cu = ch as u32;
        if cu < 48 || cu > 57 {
            proof {
                assert(!is_digit(w[k as int]));
                assert(!all_digits(w));
            }
            return Err(Error::NotANumber);
        }
        let d = cu - 48;
        let newacc = acc * 10 + d;
        proof {
            assert(w.subrange(0, k as int + 1).drop_last() =~= w.subrange(0, k as int));
            assert(w.subrange(0, k as int + 1)[k as int] == w[k as int]);
            assert(dec_val(w.subrange(0, k as int + 1)) == acc * 10 + d);
        }
        if newacc > 255 {
            proof {
                if all_digits(w) {
                    lemma_dec_val_mono(w, k as int + 1);
                }
            }
            return Err(Error::NotANumber);
        }
        acc = newacc;
        k = k + 1;
    }
    proof {
        assert(w.subrange(0, c1 as int) =~= w);
        assert(all_digits(w));
        assert(parse_weight(w) == Some(acc as u8));
    }
    let weight = acc as u8;
    let mime = line.substring_char(c1 + 1, c2).to_owned();
    let glob = line.substring_char(c2 + 1, n).to_owned();
    Ok(Some((glob, GlobEntry { weight, mime: MimeType(mime) })))
}

/// Parses the whole text source: one record per non-ignored line, stopping
/// at the first failing line with its error.
#[verifier::loop_isolation(false)]
pub fn get_globs2_data(globs: &str) -> (r: Result<Vec<(String, GlobEntry)>, Error>)
    ensures
        globs2_post(globs@, r),
{
    let lines = split_lines(globs);
    let ghost ls = lines_from(globs@, 0);
    let mut out: Vec<(String, GlobEntry)> = Vec::new();
    let mut k: usize = 0;
    while k < lines.len()
        invariant
            line_views(lines@) == ls,
            0 <= k <= lines@.len(),
            first_bad_from(ls, 0) == first_bad_from(ls, k as int),
            text_entries_from(ls, 0) == entry_views(out@) + text_entries_from(ls, k as int),
        decreases lines@.len() - k,
    {
        proof {
            assert(ls[k as int] == lines@[k as int]@);
        }
        match parse_glob_line(lines[k].as_str()) {
            Err(e) => {
                proof {
                    assert(!line_ok(ls[k as int]));
                    assert(first_bad_from(ls, k as int) == k as int);
                }
                return Err(e);
            },
            Ok(None) => {
                proof {
                    assert(line_skip(ls[k as int]));
                    assert(first_bad_from(ls, k as int) == first_bad_from(ls, k as int + 1));
                    assert(text_entries_from(ls, k as int) == text_entries_from(ls, k as int + 1));
                }
                k = k + 1;
            },
            Ok(Some(p)) => {
                proof {
                    assert(line_entry(ls[k as int]) is Some);
                    assert(!line_skip(ls[k as int]));
                    assert(first_bad_from(ls, k as int) == first_bad_from(ls, k as int + 1));
                    let e = line_entry(ls[k as int]).unwrap();
                    assert(text_entries_from(ls, k as int) =~= seq![e] + text_entries_from(
                        ls,
                        k as int + 1,
                    ));
                    assert(entry_views(out@.push(p)) =~= entry_views(out@) + seq![
                        (p.0@, p.1.weight, p.1.mime.0@),
                    ]);
                    assert(text_entries_from(ls, 0) =~= entry_views(out@.push(p))
                        + text_entries_from(ls, k as int + 1));
                }
                out.push(p);
                k = k + 1;
            },
        }
    }
    proof {
        assert(first_bad_from(ls, k as int) == ls.len());
        assert(text_entries_from(ls, k as int) =~= Seq::<(Seq<char>, u8, Seq<char>)>::empty());
        assert(entry_views(out@) =~= entry_views(out@) + text_entries_from(ls, k as int));
    }
    Ok(out)
}

/// Where the glob list starts in the buffer.
pub open spec fn glob_start(h: CacheHeader) -> int {
    h.glob_list_offset as int
}

/// The record count stored at the head of the glob list.
pub open spec fn glob_count(d: Seq<u8>, h: CacheHeader) -> int
    recommends
        glob_start(h) + 4 <= d.len(),
{
    be_u32_of(d.subrange(glob_start(h), glob_start(h) + 4)) as int
}

/// The count and all fixed 12-byte records lie inside the buffer.
pub open spec fn glob_in_bounds(d: Seq<u8>, h: CacheHeader) -> bool {
    &&& glob_start(h) + 4 <= d.len()
    &&& glob_start(h) + 4 + 12 * glob_count(d, h) <= d.len()
}

/// Where record `i` starts.
pub open spec fn glob_rec_pos(h: CacheHeader, i: int) -> int {
    glob_start(h) + 4 + 12 * i
}

/// Record `i`'s glob-string offset.
pub open spec fn glob_pat_off(d: Seq<u8>, h: CacheHeader, i: int) -> int {
    be_u32_of(d.subrange(glob_rec_pos(h, i), glob_rec_pos(h, i) + 4)) as int
}

/// Record `i`'s MIME-type-string offset.
pub open spec fn glob_mime_off(d: Seq<u8>, h: CacheHeader, i: int) -> int {
    be_u32_of(d.subrange(glob_rec_pos(h, i) + 4, glob_rec_pos(h, i) + 8)) as int
}

/// Record `i`'s metadata word: integer weight in the low 8 bits, the
/// case-sensitivity flag `0x100` in the rest (read but not acted on).
pub open spec fn glob_meta(d: Seq<u8>, h: CacheHeader, i: int) -> u32 {
    be_u32_of(d.subrange(glob_rec_pos(h, i) + 8, glob_rec_pos(h, i) + 12))
}

/// The weight carried in the low 8 bits of a metadata word.
pub open spec fn weight_of(meta: u32) -> u8 {
    (meta & 0xFF) as u8
}

/// The bytes of record `i`'s glob string.
pub open spec fn glob_pat_bytes(d: Seq<u8>, h: CacheHeader, i: int) -> Seq<u8> {
    cstr_bytes(d, glob_pat_off(d, h, i))
}

/// The bytes of record `i`'s MIME-type string.
pub open spec fn glob_mime_bytes(d: Seq<u8>, h: CacheHeader, i: int) -> Seq<u8> {
    cstr_bytes(d, glob_mime_off(d, h, i))
}

/// Record `i`'s two strings are terminated and valid UTF-8.
pub open spec fn glob_rec_ok(d: Seq<u8>, h: CacheHeader, i: int) -> bool {
    &&& has_nul(d, glob_pat_off(d, h, i))
    &&& valid_utf8(glob_pat_bytes(d, h, i))
    &&& has_nul(d, glob_mime_off(d, h, i))
    &&& valid_utf8(glob_mime_bytes(d, h, i))
}

/// The failure an unreadable record produces, in decode order: the glob
/// string, then the MIME-type string.
pub open spec fn glob_rec_err(d: Seq<u8>, h: CacheHeader, i: int) -> Error {
    if !has_nul(d, glob_pat_off(d, h, i)) {
        Error::CstrUnterminated
    } else if !valid_utf8(glob_pat_bytes(d, h, i)) {
        Error::InvalidUTF8
    } else if !has_nul(d, glob_mime_off(d, h, i)) {
        Error::CstrUnterminated
    } else {
        Error::InvalidUTF8
    }
}

/// The first unreadable record at or after `i`, or the record count.
pub open spec fn first_badrec_from(d: Seq<u8>, h: CacheHeader, i: int) -> int
    decreases glob_count(d, h) - i,
{
    if i < 0 || i >= glob_count(d, h) {
        glob_count(d, h)
    } else if !glob_rec_ok(d, h, i) {
        i
    } else {
        first_badrec_from(d, h, i + 1)
    }
}

pub proof fn lemma_first_badrec_bounds(d: Seq<u8>, h: CacheHeader, i: int)
    requires
        0 <= i <= glob_count(d, h),
    ensures
        i <= first_badrec_from(d, h, i) <= glob_count(d, h),
    decreases glob_count(d, h) - i,
{
    if i < glob_count(d, h) && glob_rec_ok(d, h, i) {
        lemma_first_badrec_bounds(d, h, i + 1);
    }
}

/// The (glob, weight, MIME type) records of the glob list at or after `i`.
pub open spec fn glob_entries_from(d: Seq<u8>, h: CacheHeader, i: int) -> Seq<
    (Seq<char>, u8, Seq<char>),
>
    decreases glob_count(d, h) - i,
{
    if i < 0 || i >= glob_count(d, h) {
        Seq::empty()
    } else {
        seq![
            (
                decode_utf8(glob_pat_bytes(d, h, i)),
                weight_of(glob_meta(d, h, i)),
                decode_utf8(glob_mime_bytes(d, h, i)),
            ),
        ] + glob_entries_from(d, h, i + 1)
    }
}

/// What walking the binary glob list promises.
pub open spec fn globs_cache_post(d: Seq<u8>, h: CacheHeader, r: Result<
    Vec<(String, GlobEntry)>,
    Error,
>) -> bool {
    &&& !glob_in_bounds(d, h) ==> r == Err::<Vec<(String, GlobEntry)>, Error>(
        Error::CstrUnterminated,
    )
    &&& glob_in_bounds(d, h) ==> {
        let k = first_badrec_from(d, h, 0);
        &&& ((k == glob_count(d, h)) <==> r is Ok)
        &&& (r matches Ok(v) ==> entry_views(v@) == glob_entries_from(d, h, 0))
        &&& (k < glob_count(d, h) ==> r == Err::<Vec<(String, GlobEntry)>, Error>(
            glob_rec_err(d, h, k),
        ))
    }
}

/// Reads the glob-list record count and checks that the whole list lies in
/// the buffer.
fn globs_bounds_check(data: &[u8], start: usize) -> (r: Option<usize>)
    requires
        start as int <= 0xFFFF_FFFF,
    ensures
        ({
            let d = data@;
            let st = start as int;
            match r {
                Some(n) => st + 4 <= d.len() && n == be_u32_of(d.subrange(st, st + 4)) && st + 4
                    + 12 * (n as int) <= d.len(),
                None => !(st + 4 <= d.len() && st + 4 + 12 * (be_u32_of(
                    d.subrange(st, st + 4),
                ) as int) <= d.len()),
            }
        }),
{
    match get_u32(data, start) {
        Some(num) => {
            if (start as u64) + 4 + 12 * (num as u64) <= data.len() as u64 {
                Some(num as usize)
            } else {
                None
            }
        },
        None => None,
    }
}

/// Walks the binary glob list, decoding every record's glob string, MIME
/// type and weight, in record order.
#[verifier::loop_isolation(false)]
pub fn get_globs_from_cache(cache: &MimeCache) -> (r: Result<Vec<(String, GlobEntry)>, Error>)
    requires
        cache.wf(),
    ensures
        globs_cache_post(cache.cache_data@, cache.cache_header, r),
{
    let ghost d = cache.cache_data@;
    let ghost h = cache.cache_header;
    let data = cache.cache_data.as_slice();
    let start = cache.cache_header.glob_list_offset as usize;
    let n = match globs_bounds_check(data, start) {
        Some(n) => n,
        None => {
            return Err(Error::CstrUnterminated);
        },
    };
    assert(glob_in_bounds(d, h) && n == glob_count(d, h));
    let dlen = data.len();
    let mut out: Vec<(String, GlobEntry)> = Vec::new();
    let mut i: usize = 0;
    while i < n
        invariant
            0 <= i <= n,
            first_badrec_from(d, h, 0) == first_badrec_from(d, h, i as int),
            glob_entries_from(d, h, 0) == entry_views(out@) + glob_entries_from(d, h, i as int),
        decreases n - i,
    {
        assert(12 * (i as int) + 12 <= 12 * (n as int));
        let pos = start + 4 + 12 * i;
        let g_off_opt = get_u32(data, pos);
        let m_off_opt = get_u32(data, pos + 4);
        let meta_opt = get_u32(data, pos + 8);
        proof {
            assert(g_off_opt is Some && m_off_opt is Some && meta_opt is Some);
        }
        let g_off = g_off_opt.unwrap() as usize;
        let m_off = m_off_opt.unwrap() as usize;
        let meta = meta_opt.unwrap();
        assert(g_off == glob_pat_off(d, h, i as int));
        assert(m_off == glob_mime_off(d, h, i as int));
        assert(meta == glob_meta(d, h, i as int));
        let glob_str = match cstr_slice(data, g_off) {
            None => {
                return Err(Error::CstrUnterminated);
            },
            Some(gs) => {
                match bytes_to_string(gs) {
                    None => {
                        return Err(Error::InvalidUTF8);
                    },
                    Some(s) => s,
                }
            },
        };
        let mime_str = match cstr_slice(data, m_off) {
            None => {
                return Err(Error::CstrUnterminated);
            },
            Some(ms) => {
                match bytes_to_string(ms) {
                    None => {
                        return Err(Error::InvalidUTF8);
                    },
                    Some(s) => s,
                }
            },
        };
        assert(meta & 0xFF < 256) by (bit_vector);
        let weight = (meta & 0xFF) as u8;
        let entry = (glob_str, GlobEntry { weight, mime: MimeType(mime_str) });
        proof {
            assert(glob_rec_ok(d, h, i as int));
            assert(first_badrec_from(d, h, i as int) == first_badrec_from(d, h, i as int + 1));
            assert(glob_entries_from(d, h, i as int) =~= seq![
                (
                    decode_utf8(glob_pat_bytes(d, h, i as int)),
                    weight_of(glob_meta(d, h, i as int)),
                    decode_utf8(glob_mime_bytes(d, h, i as int)),
                ),
            ] + glob_entries_from(d, h, i as int + 1));
            assert(entry_views(out@.push(entry)) =~= entry_views(out@) + seq![
                (entry.0@, entry.1.weight, entry.1.mime.0@),
            ]);
            assert(glob_entries_from(d, h, 0) =~= entry_views(out@.push(entry))
                + glob_entries_from(d, h, i as int + 1));
        }
        out.push(entry);
        i = i + 1;
    }
    proof {
        assert(first_badrec_from(d, h, i as int) == glob_count(d, h));
        assert(glob_entries_from(d, h, i as int) =~= Seq::<(Seq<char>, u8, Seq<char>)>::empty());
        assert(entry_views(out@) =~= entry_views(out@) + glob_entries_from(d, h, i as int));
    }
    Ok(out)
}

/// A glob of the exact shape `*.` + suffix, the suffix free of `?` and `[`.
pub open spec fn simple_suffix(g: Seq<char>) -> bool {
    &&& g.len() >= 2
    &&& g[0] == '*'
    &&& g[1] == '.'
    &&& forall|i: int| 2 <= i < g.len() ==> #[trigger] g[i] != '?' && g[i] != '['
}

/// The bare extension of a simple suffix glob.
pub open spec fn suffix_of(g: Seq<char>) -> Seq<char> {
    g.subrange(2, g.len() as int)
}

/// The entries kept by the simple-suffix filter, keyed by bare extension,
/// in source order.
pub open spec fn filtered(es: Seq<(Seq<char>, u8, Seq<char>)>) -> Seq<(Seq<char>, u8, Seq<char>)>
    decreases es.len(),
{
    if es.len() == 0 {
        Seq::empty()
    } else {
        let fr = filtered(es.drop_last());
        let e = es.last();
        if simple_suffix(e.0) {
            fr.push((suffix_of(e.0), e.1, e.2))
        } else {
            fr
        }
    }
}

/// The mapping that inserting entries in order with plain key overwrite
/// builds: the last entry for a key wins.
pub open spec fn assoc_map(es: Seq<(Seq<char>, u8, Seq<char>)>) -> Map<Seq<char>, (u8, Seq<char>)>
    decreases es.len(),
{
    if es.len() == 0 {
        Map::empty()
    } else {
        assoc_map(es.drop_last()).insert(es.last().0, (es.last().1, es.last().2))
    }
}

/// The effective extension index of the two sources: binary-cache entries
/// inserted first, text entries after, so text entries win on collision.
pub open spec fn effective_index(
    cache_es: Seq<(Seq<char>, u8, Seq<char>)>,
    text_es: Seq<(Seq<char>, u8, Seq<char>)>,
) -> Map<Seq<char>, (u8, Seq<char>)> {
    assoc_map(filtered(cache_es + text_es))
}

pub open spec fn unique_keys(es: Seq<(Seq<char>, u8, Seq<char>)>) -> bool {
    forall|i: int, j: int|
        0 <= i < j < es.len() ==> (#[trigger] es[i]).0 != (#[trigger] es[j]).0
}

proof fn lemma_assoc_push(es: Seq<(Seq<char>, u8, Seq<char>)>, e: (Seq<char>, u8, Seq<char>))
    ensures
        assoc_map(es.push(e)) == assoc_map(es).insert(e.0, (e.1, e.2)),
{
    assert(es.push(e).drop_last() =~= es);
    assert(es.push(e).last() == e);
}

proof fn lemma_assoc_update(es: Seq<(Seq<char>, u8, Seq<char>)>, i: int, e: (Seq<char>, u8, Seq<char>))
    requires
        0 <= i < es.len(),
        es[i].0 == e.0,
        unique_keys(es),
    ensures
        assoc_map(es.update(i, e)) == assoc_map(es).insert(e.0, (e.1, e.2)),
    decreases es.len(),
{
    let es2 = es.update(i, e);
    if i == es.len() - 1 {
        assert(es2.drop_last() =~= es.drop_last());
        assert(es2.last() == e);
        assert(assoc_map(es.drop_last()).insert(es.last().0, (es.last().1, es.last().2)).insert(
            e.0,
            (e.1, e.2),
        ) =~= assoc_map(es.drop_last()).insert(e.0, (e.1, e.2)));
    } else {
        let dl = es.drop_last();
        assert(es2.drop_last() =~= dl.update(i, e));
        assert(dl[i] == es[i]);
        assert(unique_keys(dl));
        lemma_assoc_update(dl, i, e);
        assert(es2.last() == es.last());
        assert(es.last().0 != e.0);
        assert(assoc_map(dl).insert(e.0, (e.1, e.2)).insert(
            es.last().0,
            (es.last().1, es.last().2),
        ) =~= assoc_map(dl).insert(es.last().0, (es.last().1, es.last().2)).insert(
            e.0,
            (e.1, e.2),
        ));
    }
}

proof fn lemma_assoc_contains(es: Seq<(Seq<char>, u8, Seq<char>)>, i: int)
    requires
        0 <= i < es.len(),
        forall|j: int| i < j < es.len() ==> (#[trigger] es[j]).0 != es[i].0,
    ensures
        assoc_map(es).contains_key(es[i].0),
        assoc_map(es)[es[i].0] == (es[i].1, es[i].2),
    decreases es.len(),
{
    if i < es.len() - 1 {
        let dl = es.drop_last();
        assert(dl[i] == es[i]);
        lemma_assoc_contains(dl, i);
        assert(es.last().0 != es[i].0);
    }
}

proof fn lemma_assoc_absent(es: Seq<(Seq<char>, u8, Seq<char>)>, k: Seq<char>)
    requires
        forall|j: int| 0 <= j < es.len() ==> (#[trigger] es[j]).0 != k,
    ensures
        !assoc_map(es).contains_key(k),
    decreases es.len(),
{
    if es.len() > 0 {
        let dl = es.drop_last();
        assert(forall|j: int| 0 <= j < dl.len() ==> (#[trigger] dl[j]).0 != k);
        lemma_assoc_absent(dl, k);
    }
}

/// The extension-to-entry index that remains after filtering and merging
/// both sources.
#[derive(Debug)]
pub struct Globber {
    pub entries: Vec<(String, GlobEntry)>,
}

impl Globber {
    /// Each extension is carried by at most one slot.
    pub open spec fn wf(self) -> bool {
        unique_keys(entry_views(self.entries@))
    }

    /// The mapping the index stands for.
    pub open spec fn map_of(self) -> Map<Seq<char>, (u8, Seq<char>)> {
        assoc_map(entry_views(self.entries@))
    }
}

/// Inserts with plain key overwrite, preserving key uniqueness.
#[verifier::loop_isolation(false)]
fn index_insert(entries: &mut Vec<(String, GlobEntry)>, key: String, entry: GlobEntry)
    requires
        unique_keys(entry_views(old(entries)@)),
    ensures
        unique_keys(entry_views(final(entries)@)),
        assoc_map(entry_views(final(entries)@)) == assoc_map(entry_views(old(entries)@)).insert(
            key@,
            (entry.weight, entry.mime.0@),
        ),
{
    let ghost ev0 = entry_views(entries@);
    let n = entries.len();
    let mut i: usize = 0;
    while i < n
        invariant
            entries@ == old(entries)@,
            0 <= i <= n,
            forall|j: int| 0 <= j < i ==> (#[trigger] ev0[j]).0 != key@,
        decreases n - i,
    {
        if entries[i].0 == key {
            proof {
                assert(ev0[i as int].0 == key@);
            }
            let ghost evnew = (key@, entry.weight, entry.mime.0@);
            entries.set(i, (key, entry));
            proof {
                assert(entry_views(entries@) =~= ev0.update(i as int, evnew));
                lemma_assoc_update(ev0, i as int, evnew);
                assert forall|a: int, b: int|
                    0 <= a < b < entry_views(entries@).len() implies (#[trigger] entry_views(
                    entries@,
                )[a]).0 != (#[trigger] entry_views(entries@)[b]).0 by {
                    if a != i as int && b != i as int {
                        assert(entry_views(entries@)[a] == ev0[a]);
                        assert(entry_views(entries@)[b] == ev0[b]);
                    } else if a == i as int {
                        assert(ev0[b].0 != ev0[i as int].0);
                    } else {
                        assert(ev0[a].0 != ev0[i as int].0);
                    }
                }
            }
            return ;
        }
        i = i + 1;
    }
    let ghost evnew = (key@, entry.weight, entry.mime.0@);
    entries.push((key, entry));
    proof {
        assert(entry_views(entries@) =~= ev0.push(evnew));
        lemma_assoc_push(ev0, evnew);
        assert forall|a: int, b: int|
            0 <= a < b < entry_views(entries@).len() implies (#[trigger] entry_views(
            entries@,
        )[a]).0 != (#[trigger] entry_views(entries@)[b]).0 by {
            if b == ev0.len() {
                assert(entry_views(entries@)[a] == ev0[a]);
            } else {
                assert(entry_views(entries@)[a] == ev0[a]);
                assert(entry_views(entries@)[b] == ev0[b]);
            }
        }
    }
}

/// Recognizes a simple suffix glob and hands back its bare extension.
#[verifier::loop_isolation(false)]
fn simple_suffix_check(g: &str) -> (r: Option<String>)
    ensures
        r matches Some(sfx) ==> simple_suffix(g@) && sfx@ == suffix_of(g@),
        r is None ==> !simple_suffix(g@),
{
    let n = g.unicode_len();
    if n < 2 {
        return None;
    }
    if g.get_char(0) != '*' {
        return None;
    }
    if g.get_char(1) != '.' {
        return None;
    }
    let mut i: usize = 2;
    while i < n
        invariant
            2 <= i <= n,
            forall|j: int| 2 <= j < i ==> #[trigger] g@[j] != '?' && g@[j] != '[',
        decreases n - i,
    {
        let c = g.get_char(i);
        if c == '?' || c == '[' {
            return None;
        }
        i = i + 1;
    }
    Some(g.substring_char(2, n).to_owned())
}

/// What building the merged index promises.
pub open spec fn globber_new_post(d: Seq<u8>, h: CacheHeader, s: Seq<char>, r: Result<
    Globber,
    Error,
>) -> bool {
    let cache_ok = glob_in_bounds(d, h) && first_badrec_from(d, h, 0) == glob_count(d, h);
    let ls = lines_from(s, 0);
    let text_ok = first_bad_from(ls, 0) == ls.len();
    &&& (!cache_ok ==> (r matches Err(e) && cache_globs_err_matches(d, h, e)))
    &&& ((cache_ok && !text_ok) ==> (r matches Err(e) && line_error_matches(
        ls[first_bad_from(ls, 0)],
        e,
    )))
    &&& ((cache_ok && text_ok) <==> r is Ok)
    &&& (r matches Ok(g) ==> g.wf() && g.map_of() == effective_index(
        glob_entries_from(d, h, 0),
        text_entries_from(ls, 0),
    ))
}

/// The error the binary glob source produces when it fails.
pub open spec fn cache_globs_err_matches(d: Seq<u8>, h: CacheHeader, e: Error) -> bool {
    if !glob_in_bounds(d, h) {
        e == Error::CstrUnterminated
    } else {
        e == glob_rec_err(d, h, first_badrec_from(d, h, 0))
    }
}

impl Globber {
    /// Builds the merged extension index: binary-source entries first, then
    /// text-source entries, filtered to simple suffix globs, with plain key
    /// overwrite.
    #[verifier::loop_isolation(false)]
    pub fn new(cache: &MimeCache, globs2_data: &str) -> (r: Result<Globber, Error>)
        requires
            cache.wf(),
        ensures
            globber_new_post(cache.cache_data@, cache.cache_header, globs2_data@, r),
    {
        let binary = match get_globs_from_cache(cache) {
            Ok(v) => v,
            Err(e) => {
                proof {
                    lemma_first_badrec_bounds(cache.cache_data@, cache.cache_header, 0);
                }
                return Err(e);
            },
        };
        let text = match get_globs2_data(globs2_data) {
            Ok(v) => v,
            Err(e) => {
                proof {
                    lemma_first_badrec_bounds(cache.cache_data@, cache.cache_header, 0);
                    lemma_first_bad_bounds(lines_from(globs2_data@, 0), 0);
                }
                return Err(e);
            },
        };
        let ghost bv = entry_views(binary@);
        let ghost tv = entry_views(text@);
        let mut g = Globber { entries: Vec::new() };
        proof {
            assert(entry_views(g.entries@) =~= Seq::<(Seq<char>, u8, Seq<char>)>::empty());
            assert(bv.take(0) =~= Seq::<(Seq<char>, u8, Seq<char>)>::empty());
        }
        let mut k: usize = 0;
        while k < binary.len()
            invariant
                bv == entry_views(binary@),
                0 <= k <= binary@.len(),
                unique_keys(entry_views(g.entries@)),
                assoc_map(entry_views(g.entries@)) == assoc_map(filtered(bv.take(k as int))),
            decreases binary@.len() - k,
        {
            proof {
                assert(bv[k as int] == (binary@[k as int].0@, binary@[k as int].1.weight, binary@[
                    k as int].1.mime.0@));
                assert(bv.take(k as int + 1).drop_last() =~= bv.take(k as int));
                assert(bv.take(k as int + 1).last() == bv[k as int]);
            }
            match simple_suffix_check(binary[k].0.as_str()) {
                Some(sfx) => {
                    let e = GlobEntry {
                        weight: binary[k].1.weight,
                        mime: MimeType(binary[k].1.mime.0.clone()),
                    };
                    proof {
                        assert(filtered(bv.take(k as int + 1)) == filtered(bv.take(k as int)).push(
                            (suffix_of(bv[k as int].0), bv[k as int].1, bv[k as int].2),
                        ));
                        lemma_assoc_push(
                            filtered(bv.take(k as int)),
                            (suffix_of(bv[k as int].0), bv[k as int].1, bv[k as int].2),
                        );
                    }
                    index_insert(&mut g.entries, sfx, e);
                },
                None => {
                    proof {
                        assert(filtered(bv.take(k as int + 1)) == filtered(bv.take(k as int)));
                    }
                },
            }
            k = k + 1;
        }
        proof {
            assert(bv.take(binary@.len() as int) =~= bv);
        }
        let mut k2: usize = 0;
        proof {
            assert(bv + tv.take(0) =~= bv);
        }
        let mut g = g;
        while k2 < text.len()
            invariant
                bv == entry_views(binary@),
                tv == entry_views(text@),
                0 <= k2 <= text@.len(),
                unique_keys(entry_views(g.entries@)),
                assoc_map(entry_views(g.entries@)) == assoc_map(
                    filtered(bv + tv.take(k2 as int)),
                ),
            decreases text@.len() - k2,
        {
            proof {
                assert(tv[k2 as int] == (text@[k2 as int].0@, text@[k2 as int].1.weight, text@[
                    k2 as int].1.mime.0@));
                assert((bv + tv.take(k2 as int + 1)).drop_last() =~= bv + tv.take(k2 as int));
                assert((bv + tv.take(k2 as int + 1)).last() == tv[k2 as int]);
            }
            match simple_suffix_check(text[k2].0.as_str()) {
                Some(sfx) => {
                    let e = GlobEntry {
                        weight: text[k2].1.weight,
                        mime: MimeType(text[k2].1.mime.0.clone()),
                    };
                    proof {
                        assert(filtered(bv + tv.take(k2 as int + 1)) == filtered(
                            bv + tv.take(k2 as int),
                        ).push((suffix_of(tv[k2 as int].0), tv[k2 as int].1, tv[k2 as int].2)));
                        lemma_assoc_push(
                            filtered(bv + tv.take(k2 as int)),
                            (suffix_of(tv[k2 as int].0), tv[k2 as int].1, tv[k2 as int].2),
                        );
                    }
                    index_insert(&mut g.entries, sfx, e);
                },
                None => {
                    proof {
                        assert(filtered(bv + tv.take(k2 as int + 1)) == filtered(
                            bv + tv.take(k2 as int),
                        ));
                    }
                },
            }
            k2 = k2 + 1;
        }
        proof {
            assert(bv + tv.take(text@.len() as int) =~= bv + tv);
        }
        Ok(g)
    }
}

/// The position of the last occurrence of `c`, or `-1` when there is none.
pub open spec fn last_idx_of(s: Seq<char>, c: char) -> int
    decreases s.len(),
{
    if s.len() == 0 {
        -1
    } else if s[s.len() - 1] == c {
        s.len() - 1
    } else {
        last_idx_of(s.drop_last(), c)
    }
}

pub proof fn lemma_last_idx(s: Seq<char>, c: char)
    ensures
        -1 <= last_idx_of(s, c) < s.len(),
        last_idx_of(s, c) >= 0 ==> s[last_idx_of(s, c)] == c,
        forall|j: int| last_idx_of(s, c) < j < s.len() ==> s[j] != c,
    decreases s.len(),
{
    if s.len() > 0 && s[s.len() - 1] != c {
        lemma_last_idx(s.drop_last(), c);
        assert(forall|j: int| 0 <= j < s.len() - 1 ==> s[j] == s.drop_last()[j]);
    }
}

/// The final extension component of a path: what follows the last dot of
/// the last path component, absent when there is no dot or the dot leads
/// that component.
pub open spec fn ext_of(p: Seq<char>) -> Option<Seq<char>> {
    let ns = last_idx_of(p, '/') + 1;
    let dot = last_idx_of(p, '.');
    if dot > ns {
        Some(p.subrange(dot + 1, p.len() as int))
    } else {
        None
    }
}

/// What an extension lookup in the effective index yields for a path.
pub open spec fn lookup_model(m: Map<Seq<char>, (u8, Seq<char>)>, p: Seq<char>) -> Option<
    (u8, Seq<char>),
> {
    match ext_of(p) {
        None => None,
        Some(e) => if m.contains_key(e) {
            Some(m[e])
        } else {
            None
        },
    }
}

/// Scans for the last occurrence of `c`.
#[verifier::loop_isolation(false)]
fn find_last(s: &str, c: char) -> (r: Option<usize>)
    ensures
        r matches Some(k) ==> k as int == last_idx_of(s@, c),
        r is None ==> last_idx_of(s@, c) == -1,
{
    let n = s.unicode_len();
    let mut found: Option<usize> = None;
    let mut i: usize = 0;
    while i < n
        invariant
            0 <= i <= n,
            found matches Some(k) ==> k as int == last_idx_of(s@.take(i as int), c),
            found is None ==> last_idx_of(s@.take(i as int), c) == -1,
        decreases n - i,
    {
        proof {
            assert(s@.take(i as int + 1).drop_last() =~= s@.take(i as int));
            assert(s@.take(i as int + 1).last() == s@[i as int]);
        }
        if s.get_char(i) == c {
            found = Some(i);
        }
        i = i + 1;
    }
    proof {
        assert(s@.take(n as int) =~= s@);
    }
    found
}

impl Globber {
    /// Looks up the final extension component of a path in the merged
    /// index. Comparison is exact, so case-sensitive.
    #[verifier::loop_isolation(false)]
    pub fn lookup_filename(&self, name: &str) -> (r: Option<MimeType>)
        requires
            self.wf(),
        ensures
            match lookup_model(self.map_of(), name@) {
                None => r is None,
                Some(e) => r matches Some(m) && m.0@ == e.1,
            },
    {
        let n = name.unicode_len();
        proof {
            lemma_last_idx(name@, '/');
        }
        let ns = match find_last(name, '/') {
            Some(k) => k + 1,
            None => 0,
        };
        let dot = match find_last(name, '.') {
            Some(d) => d,
            None => {
                return None;
            },
        };
        if dot < ns || dot == ns {
            return None;
        }
        proof {
            lemma_last_idx(name@, '.');
        }
        let ext = name.substring_char(dot + 1, n).to_owned();
        proof {
            assert(ext_of(name@) == Some(ext@));
        }
        let ghost ev = entry_views(self.entries@);
        let m = self.entries.len();
        let mut i: usize = 0;
        while i < m
            invariant
                0 <= i <= m,
                forall|j: int| 0 <= j < i ==> (#[trigger] ev[j]).0 != ext@,
            decreases m - i,
        {
            if self.entries[i].0 == ext {
                proof {
                    assert(ev[i as int].0 == ext@);
                    lemma_assoc_contains(ev, i as int);
                }
                return Some(MimeType(self.entries[i].1.mime.0.clone()));
            }
            i = i + 1;
        }
        proof {
            lemma_assoc_absent(ev, ext@);
        }
        None
    }
}

/// The merged index is keyed only on a path's final extension component:
/// two paths with the same extension look up the same entry.
pub proof fn lemma_lookup_keyed_on_extension(
    m: Map<Seq<char>, (u8, Seq<char>)>,
    path1: Seq<char>,
    path2: Seq<char>,
)
    requires
        ext_of(path1) == ext_of(path2),
    ensures
        lookup_model(m, path1) == lookup_model(m, path2),
{
}

proof fn lemma_filtered_add(
    a: Seq<(Seq<char>, u8, Seq<char>)>,
    b: Seq<(Seq<char>, u8, Seq<char>)>,
)
    ensures
        filtered(a + b) == filtered(a) + filtered(b),
    decreases b.len(),
{
    if b.len() == 0 {
        assert(a + b =~= a);
        assert(filtered(a) + filtered(b) =~= filtered(a));
    } else {
        assert((a + b).drop_last() =~= a + b.drop_last());
        assert((a + b).last() == b.last());
        lemma_filtered_add(a, b.drop_last());
        if simple_suffix(b.last().0) {
            assert(filtered(a + b) =~= filtered(a) + filtered(b));
        } else {
            assert(filtered(a + b) =~= filtered(a) + filtered(b));
        }
    }
}

proof fn lemma_assoc_add(
    x: Seq<(Seq<char>, u8, Seq<char>)>,
    y: Seq<(Seq<char>, u8, Seq<char>)>,
    k: Seq<char>,
)
    ensures
        assoc_map(x + y).contains_key(k) == (assoc_map(x).contains_key(k) || assoc_map(
            y,
        ).contains_key(k)),
        assoc_map(y).contains_key(k) ==> assoc_map(x + y)[k] == assoc_map(y)[k],
        (!assoc_map(y).contains_key(k) && assoc_map(x).contains_key(k)) ==> assoc_map(x + y)[k]
            == assoc_map(x)[k],
    decreases y.len(),
{
    if y.len() == 0 {
        assert(x + y =~= x);
    } else {
        assert((x + y).drop_last() =~= x + y.drop_last());
        assert((x + y).last() == y.last());
        lemma_assoc_add(x, y.drop_last(), k);
    }
}

/// When an extension appears in both sources' filtered entries, the merged
/// index carries the later-inserted, text-file entry for it.
pub proof fn lemma_text_precedence(
    cache_es: Seq<(Seq<char>, u8, Seq<char>)>,
    text_es: Seq<(Seq<char>, u8, Seq<char>)>,
    k: Seq<char>,
)
    requires
        assoc_map(filtered(text_es)).contains_key(k),
    ensures
        effective_index(cache_es, text_es).contains_key(k),
        effective_index(cache_es, text_es)[k] == assoc_map(filtered(text_es))[k],
{
    lemma_filtered_add(cache_es, text_es);
    lemma_assoc_add(filtered(cache_es), filtered(text_es), k);
}

/// Every key of the merged index comes from some simple suffix glob: a glob
/// whose suffix holds `?` or `[`, or that lacks the `*.` shape, contributes
/// nothing, even when it is textually present in a source.
pub proof fn lemma_index_key_from_simple_glob(es: Seq<(Seq<char>, u8, Seq<char>)>, k: Seq<char>)
    requires
        assoc_map(filtered(es)).contains_key(k),
    ensures
        exists|i: int|
            0 <= i < es.len() && simple_suffix((#[trigger] es[i]).0) && suffix_of(es[i].0) == k,
    decreases es.len(),
{
    if es.len() > 0 {
        let dl = es.drop_last();
        let last = es.last();
        if simple_suffix(last.0) {
            lemma_assoc_push(filtered(dl), (suffix_of(last.0), last.1, last.2));
            if suffix_of(last.0) == k {
                assert(simple_suffix((es[es.len() - 1]).0) && suffix_of(es[es.len() - 1].0) == k);
            } else {
                lemma_index_key_from_simple_glob(dl, k);
                let i = choose|i: int|
                    0 <= i < dl.len() && simple_suffix((#[trigger] dl[i]).0) && suffix_of(dl[i].0)
                        == k;
                assert(es[i] == dl[i]);
                assert(simple_suffix((es[i]).0) && suffix_of(es[i].0) == k);
            }
        } else {
            lemma_index_key_from_simple_glob(dl, k);
            let i = choose|i: int|
                0 <= i < dl.len() && simple_suffix((#[trigger] dl[i]).0) && suffix_of(dl[i].0)
                    == k;
            assert(es[i] == dl[i]);
            assert(simple_suffix((es[i]).0) && suffix_of(es[i].0) == k);
        }
    }
}

} // verus!
