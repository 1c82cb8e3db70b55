use shared_mime_info::byte_decode::{u16_u8x2, u32_u8x4, u8x2_u16, u8x4_u32};
use shared_mime_info::{Error, MimeSearcher, MimeType};

/// Appends a null-terminated string to the buffer and returns its offset.
fn add_str(data: &mut Vec<u8>, s: &str) -> u32 {
    let off = data.len() as u32;
    data.extend_from_slice(s.as_bytes());
    data.push(0);
    off
}

/// Builds a cache file image holding a sorted generic-icons list and a glob
/// list. `icons` must be sorted ascending by MIME type; `globs` entries are
/// (glob, mime, weight).
fn build_cache(icons: &[(&str, &str)], globs: &[(&str, &str, u32)]) -> Vec<u8> {
    let mut data = vec![0u8; 40];
    data[0..2].copy_from_slice(&1u16.to_be_bytes());
    data[2..4].copy_from_slice(&2u16.to_be_bytes());
    let icon_offs: Vec<(u32, u32)> = icons
        .iter()
        .map(|(m, i)| {
            let mo = add_str(&mut data, m);
            let io = add_str(&mut data, i);
            (mo, io)
        })
        .collect();
    let glob_offs: Vec<(u32, u32, u32)> = globs
        .iter()
        .map(|(g, m, w)| {
            let go = add_str(&mut data, g);
            let mo = add_str(&mut data, m);
            (go, mo, *w)
        })
        .collect();
    let glob_list_off = data.len() as u32;
    data.extend_from_slice(&(globs.len() as u32).to_be_bytes());
    for (go, mo, w) in &glob_offs {
        data.extend_from_slice(&go.to_be_bytes());
        data.extend_from_slice(&mo.to_be_bytes());
        data.extend_from_slice(&w.to_be_bytes());
    }
    let icons_list_off = data.len() as u32;
    data.extend_from_slice(&(icons.len() as u32).to_be_bytes());
    for (mo, io) in &icon_offs {
        data.extend_from_slice(&mo.to_be_bytes());
        data.extend_from_slice(&io.to_be_bytes());
    }
    data[20..24].copy_from_slice(&glob_list_off.to_be_bytes());
    data[36..40].copy_from_slice(&icons_list_off.to_be_bytes());
    data
}

fn searcher_over(icons: &[(&str, &str)]) -> MimeSearcher {
    MimeSearcher::new(build_cache(icons, &[]), "").unwrap()
}

#[test]
fn binary_search_empty_list() {
    let s = searcher_over(&[]);
    assert_eq!(
        s.find_icon_for_mimetype(MimeType("anything/at-all".to_string())),
        Err(Error::NoIconFound)
    );
}

#[test]
fn binary_search_single_record() {
    let s = searcher_over(&[("image/png", "image-x-generic")]);
    assert_eq!(
        s.find_icon_for_mimetype(MimeType("image/png".to_string())),
        Ok("image-x-generic".to_string())
    );
    assert_eq!(
        s.find_icon_for_mimetype(MimeType("image/jpeg".to_string())),
        Err(Error::NoIconFound)
    );
    assert_eq!(
        s.find_icon_for_mimetype(MimeType("image/zzz".to_string())),
        Err(Error::NoIconFound)
    );
}

#[test]
fn binary_search_finds_every_present_mimetype() {
    let icons: Vec<(String, String)> = (0..57)
        .map(|i| (format!("type/sub{:03}", i * 3), format!("icon-{:03}", i)))
        .collect();
    let pairs: Vec<(&str, &str)> = icons.iter().map(|(a, b)| (a.as_str(), b.as_str())).collect();
    let s = searcher_over(&pairs);
    for (m, ic) in &icons {
        assert_eq!(
            s.find_icon_for_mimetype(MimeType(m.clone())),
            Ok(ic.clone())
        );
    }
    assert_eq!(
        s.find_icon_for_mimetype(MimeType("type/sub001".to_string())),
        Err(Error::NoIconFound)
    );
    assert_eq!(
        s.find_icon_for_mimetype(MimeType("a".to_string())),
        Err(Error::NoIconFound)
    );
    assert_eq!(
        s.find_icon_for_mimetype(MimeType("zzz".to_string())),
        Err(Error::NoIconFound)
    );
}

/// Binary search agrees with the linear reference scan on pseudo-random
/// sorted record lists, for present and absent queries alike.
#[test]
fn binary_search_matches_linear_scan() {
    let mut state: u64 = 0x2545_F491_4F6C_DD1D;
    let mut next = move || {
        state ^= state << 13;
        state ^= state >> 7;
        state ^= state << 17;
        state
    };
    for round in 0..25 {
        let count = (next() % 40) as usize;
        let mut mimes: Vec<String> = (0..count)
            .map(|_| format!("t/{:06x}", next() % 0x100_0000))
            .collect();
        mimes.sort();
        mimes.dedup();
        let icons: Vec<(String, String)> = mimes
            .iter()
            .enumerate()
            .map(|(i, m)| (m.clone(), format!("icon-{}-{}", round, i)))
            .collect();
        let pairs: Vec<(&str, &str)> = icons.iter().map(|(a, b)| (a.as_str(), b.as_str())).collect();
        let bytes = build_cache(&pairs, &[]);
        let binary = MimeSearcher::new(bytes.clone(), "").unwrap();
        let linear = shared_mime_info::mime_cache::MimeSearcher::new(bytes).unwrap();
        let mut queries: Vec<String> = mimes.clone();
        for _ in 0..10 {
            queries.push(format!("t/{:06x}", next() % 0x100_0000));
        }
        queries.push(String::new());
        for q in &queries {
            let b = binary.find_icon_for_mimetype(MimeType(q.clone()));
            let l = linear.find_icon_for_mimetype(q);
            match (b, l) {
                (Ok(icon_b), Ok(MimeType(icon_l))) => assert_eq!(icon_b, icon_l),
                (Err(eb), Err(el)) => {
                    assert_eq!(eb, Error::NoIconFound);
                    assert_eq!(el, Error::NoIconFound);
                }
                (b, l) => panic!("disagree on {:?}: {:?} vs {:?}", q, b, l),
            }
        }
    }
}

/// Lookup is keyed only on the final extension component: `a.tar.gz`
/// resolves on `gz` even when a `*.tar.gz` glob is present.
#[test]
fn extension_lookup_final_component() {
    let globs2 = "50:application/gzip:*.gz\n50:application/x-compressed-tar:*.tar.gz\n";
    let s = MimeSearcher::new(build_cache(&[], &[]), globs2).unwrap();
    assert_eq!(
        s.find_mimetype_from_filepath("a.tar.gz"),
        Some(MimeType("application/gzip".to_string()))
    );
    assert_eq!(
        s.find_mimetype_from_filepath("dir/with.dots/a.tar.gz"),
        Some(MimeType("application/gzip".to_string()))
    );
}

/// Lookup is case-sensitive.
#[test]
fn extension_lookup_case_sensitive() {
    let globs2 = "50:application/pdf:*.pdf\n";
    let s = MimeSearcher::new(build_cache(&[], &[]), globs2).unwrap();
    assert_eq!(
        s.find_mimetype_from_filepath("foo.pdf"),
        Some(MimeType("application/pdf".to_string()))
    );
    assert_eq!(s.find_mimetype_from_filepath("foo.PDF"), None);
    assert_eq!(s.find_mimetype_from_filepath("foo.Pdf"), None);
}

/// When an extension appears in both sources with different MIME types, the
/// text-file mapping wins, irrespective of weight.
#[test]
fn text_file_overrides_binary_cache() {
    let bytes = build_cache(&[], &[("*.pdf", "application/x-cache-pdf", 90)]);
    let globs2 = "10:application/pdf:*.pdf\n";
    let s = MimeSearcher::new(bytes, globs2).unwrap();
    assert_eq!(
        s.find_mimetype_from_filepath("foo.pdf"),
        Some(MimeType("application/pdf".to_string()))
    );
    let bytes2 = build_cache(&[], &[("*.srt", "application/x-subrip", 50)]);
    let s2 = MimeSearcher::new(bytes2, "").unwrap();
    assert_eq!(
        s2.find_mimetype_from_filepath("foo.srt"),
        Some(MimeType("application/x-subrip".to_string()))
    );
}

/// Globs holding `?` or `[`, and globs without the `*.` shape, are excluded
/// from the effective index even when textually present in a source.
#[test]
fn wildcard_globs_excluded() {
    let bytes = build_cache(&[], &[("*.x[yz]", "application/x-bracket", 50)]);
    let globs2 = "50:application/x-question:*.p?f\n50:text/plain:README\n";
    let s = MimeSearcher::new(bytes, globs2).unwrap();
    assert_eq!(s.find_mimetype_from_filepath("foo.x[yz]"), None);
    assert_eq!(s.find_mimetype_from_filepath("foo.p?f"), None);
    assert_eq!(s.find_mimetype_from_filepath("README"), None);
}

/// Within one source, the last entry for an extension wins.
#[test]
fn last_entry_wins_within_one_source() {
    let globs2 = "10:text/x-first:*.q\n20:text/x-second:*.q\n";
    let s = MimeSearcher::new(build_cache(&[], &[]), globs2).unwrap();
    assert_eq!(
        s.find_mimetype_from_filepath("foo.q"),
        Some(MimeType("text/x-second".to_string()))
    );
}

/// Encoding a header field's width and decoding it recovers the value
/// bit-for-bit, at the edge values.
#[test]
fn byte_decoder_round_trip() {
    for v in [0u16, 1, 2, 255, 256, 31376, u16::MAX] {
        assert_eq!(u8x2_u16(&u16_u8x2(v)), v);
    }
    for v in [0u32, 1, 2, 255, 256, 65536, 31376, u32::MAX] {
        assert_eq!(u8x4_u32(&u32_u8x4(v)), v);
    }
    assert_eq!(u16_u8x2(0x0102), vec![1, 2]);
    assert_eq!(u32_u8x4(0x0102_0304), vec![1, 2, 3, 4]);
}

#[test]
fn glob_line_examples() {
    let s = MimeSearcher::new(build_cache(&[], &[]), "50:application/pdf:*.pdf\n").unwrap();
    assert_eq!(
        s.find_mimetype_from_filepath("foo.pdf"),
        Some(MimeType("application/pdf".to_string()))
    );
    assert_eq!(s.find_mimetype_from_filepath("foo"), None);
    assert_eq!(s.find_mimetype_from_filepath(".pdf"), None);
    assert_eq!(s.find_mimetype_from_filepath("foo.xyz"), None);
}

#[test]
fn text_without_trailing_newline() {
    let s = MimeSearcher::new(build_cache(&[], &[]), "50:application/pdf:*.pdf").unwrap();
    assert_eq!(
        s.find_mimetype_from_filepath("foo.pdf"),
        Some(MimeType("application/pdf".to_string()))
    );
}

#[test]
fn text_with_crlf_line_endings() {
    let globs2 = "50:application/pdf:*.pdf\r\n50:text/markdown:*.md\r\n";
    let s = MimeSearcher::new(build_cache(&[], &[]), globs2).unwrap();
    assert_eq!(
        s.find_mimetype_from_filepath("foo.pdf"),
        Some(MimeType("application/pdf".to_string()))
    );
    assert_eq!(
        s.find_mimetype_from_filepath("foo.md"),
        Some(MimeType("text/markdown".to_string()))
    );
}

#[test]
fn comments_and_blank_lines_ignored() {
    let globs2 = "# comment line\n\n50:application/pdf:*.pdf\n#another:bad:line\n\n";
    let s = MimeSearcher::new(build_cache(&[], &[]), globs2).unwrap();
    assert_eq!(
        s.find_mimetype_from_filepath("foo.pdf"),
        Some(MimeType("application/pdf".to_string()))
    );
}

/// A glob may itself contain colons: the line splits on the first two only.
#[test]
fn glob_with_colon() {
    let globs2 = "50:text/x-odd:*.a:b\n";
    let s = MimeSearcher::new(build_cache(&[], &[]), globs2).unwrap();
    assert_eq!(
        s.find_mimetype_from_filepath("foo.a:b"),
        Some(MimeType("text/x-odd".to_string()))
    );
}

#[test]
fn error_missing_header() {
    assert_eq!(
        MimeSearcher::new(vec![0u8; 39], "").unwrap_err(),
        Error::MissingHeader
    );
    assert_eq!(
        MimeSearcher::new(Vec::new(), "").unwrap_err(),
        Error::MissingHeader
    );
}

#[test]
fn error_bad_line() {
    let r = MimeSearcher::new(build_cache(&[], &[]), "xx\n");
    assert_eq!(r.unwrap_err(), Error::Globs2BadLine("xx".to_string()));
    let r2 = MimeSearcher::new(build_cache(&[], &[]), "only:one-colon\n");
    assert_eq!(r2.unwrap_err(), Error::Globs2BadLine("only:one-colon".to_string()));
}

#[test]
fn error_not_a_number() {
    assert_eq!(
        MimeSearcher::new(build_cache(&[], &[]), "ab:text/x-t:*.t\n").unwrap_err(),
        Error::NotANumber
    );
    assert_eq!(
        MimeSearcher::new(build_cache(&[], &[]), "300:text/x-t:*.t\n").unwrap_err(),
        Error::NotANumber
    );
    assert_eq!(
        MimeSearcher::new(build_cache(&[], &[]), ":text/x-t:*.t\n").unwrap_err(),
        Error::NotANumber
    );
}

#[test]
fn error_missing_generic_icons_list() {
    let mut bytes = build_cache(&[], &[]);
    let far = (bytes.len() as u32) + 100;
    bytes[36..40].copy_from_slice(&far.to_be_bytes());
    let s = MimeSearcher::new(bytes, "").unwrap();
    assert_eq!(
        s.find_icon_for_mimetype(MimeType("font/otf".to_string())),
        Err(Error::MissingGenericIconsList)
    );
}

#[test]
fn error_cstr_unterminated() {
    // Point the glob list past the end of the buffer: the count cannot be
    // read before the buffer boundary.
    let mut bytes = build_cache(&[], &[]);
    let far = (bytes.len() as u32) + 100;
    bytes[20..24].copy_from_slice(&far.to_be_bytes());
    assert_eq!(
        MimeSearcher::new(bytes, "").unwrap_err(),
        Error::CstrUnterminated
    );
    // A record whose glob string never meets a zero byte before buffer end.
    let mut bytes2 = build_cache(&[], &[("*.pdf", "application/pdf", 50)]);
    let last = bytes2.len() - 1;
    let unterminated = last as u32;
    // Overwrite the record's glob offset with the final byte and make that
    // byte non-zero.
    bytes2[last] = b'x';
    let glob_list_off = u8x4_u32(&bytes2[20..24]) as usize;
    let rec = glob_list_off + 4;
    bytes2[rec..rec + 4].copy_from_slice(&unterminated.to_be_bytes());
    assert_eq!(
        MimeSearcher::new(bytes2, "").unwrap_err(),
        Error::CstrUnterminated
    );
}

#[test]
fn error_invalid_utf8() {
    // A single icon record whose MIME string holds an invalid UTF-8 byte.
    let mut data = vec![0u8; 40];
    let mime_off = data.len() as u32;
    data.extend_from_slice(&[0xFF, 0xFE]);
    data.push(0);
    let icon_off = data.len() as u32;
    data.extend_from_slice(b"icon");
    data.push(0);
    let glob_list_off = data.len() as u32;
    data.extend_from_slice(&0u32.to_be_bytes());
    let icons_list_off = data.len() as u32;
    data.extend_from_slice(&1u32.to_be_bytes());
    data.extend_from_slice(&mime_off.to_be_bytes());
    data.extend_from_slice(&icon_off.to_be_bytes());
    data[20..24].copy_from_slice(&glob_list_off.to_be_bytes());
    data[36..40].copy_from_slice(&icons_list_off.to_be_bytes());
    let s = MimeSearcher::new(data, "").unwrap();
    assert_eq!(
        s.find_icon_for_mimetype(MimeType("anything".to_string())),
        Err(Error::InvalidUTF8)
    );
}

/// Non-ASCII icon names and MIME strings decode through intact.
#[test]
fn non_ascii_strings_decode() {
    let s = searcher_over(&[("x/ñandú", "pájaro-genérico")]);
    assert_eq!(
        s.find_icon_for_mimetype(MimeType("x/ñandú".to_string())),
        Ok("pájaro-genérico".to_string())
    );
    let globs2 = "50:text/x-café:*.café\n";
    let s2 = MimeSearcher::new(build_cache(&[], &[]), globs2).unwrap();
    assert_eq!(
        s2.find_mimetype_from_filepath("foo.café"),
        Some(MimeType("text/x-café".to_string()))
    );
}
