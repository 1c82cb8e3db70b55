use shared_mime_info::{Error, MimeSearcher, MimeType};

/// Appends a null-terminated string to the buffer and returns its offset.
fn add_str(data: &mut Vec<u8>, s: &str) -> u32 {
    let off = data.len() as u32;
    data.extend_from_slice(s.as_bytes());
    data.push(0);
    off
}

/// Builds a cache file image holding a sorted generic-icons list and a glob
/// list. `icons` must be sorted ascending by MIME type; `globs` entries are
/// (glob, mime, weight).
fn build_cache(icons: &[(&str, &str)], globs: &[(&str, &str, u32)]) -> Vec<u8> {
    let mut data = vec![0u8; 40];
    data[0..2].copy_from_slice(&1u16.to_be_bytes());
    data[2..4].copy_from_slice(&2u16.to_be_bytes());
    let icon_offs: Vec<(u32, u32)> = icons
        .iter()
        .map(|(m, i)| {
            let mo = add_str(&mut data, m);
            let io = add_str(&mut data, i);
            (mo, io)
        })
        .collect();
    let glob_offs: Vec<(u32, u32, u32)> = globs
        .iter()
        .map(|(g, m, w)| {
            let go = add_str(&mut data, g);
            let mo = add_str(&mut data, m);
            (go, mo, *w)
        })
        .collect();
    let glob_list_off = data.len() as u32;
    data.extend_from_slice(&(globs.len() as u32).to_be_bytes());
    for (go, mo, w) in &glob_offs {
        data.extend_from_slice(&go.to_be_bytes());
        data.extend_from_slice(&mo.to_be_bytes());
        data.extend_from_slice(&w.to_be_bytes());
    }
    let icons_list_off = data.len() as u32;
    data.extend_from_slice(&(icons.len() as u32).to_be_bytes());
    for (mo, io) in &icon_offs {
        data.extend_from_slice(&mo.to_be_bytes());
        data.extend_from_slice(&io.to_be_bytes());
    }
    data[20..24].copy_from_slice(&glob_list_off.to_be_bytes());
    data[36..40].copy_from_slice(&icons_list_off.to_be_bytes());
    data
}

#[test]
fn lib_get_icon_for_mimetype() {
    let bytes = build_cache(
        &[
            ("application/pdf", "x-office-document"),
            ("font/otf", "font-x-generic"),
            ("text/javascript", "text-x-script"),
        ],
        &[],
    );
    let searcher = MimeSearcher::new(bytes, "").unwrap();
    let start = std::time::Instant::now();
    assert_eq!(
        searcher.find_icon_for_mimetype(MimeType("font/otf".to_string())),
        Ok("font-x-generic".to_string())
    );
    assert_eq!(
        searcher.find_icon_for_mimetype(MimeType("text/javascript".to_string())),
        Ok("text-x-script".to_string())
    );
    assert_eq!(
        searcher.find_icon_for_mimetype(MimeType("application/pdf".to_string())),
        Ok("x-office-document".to_string())
    );
    assert_eq!(
        searcher.find_icon_for_mimetype(MimeType("not_a_real_mimetype1234".to_string())),
        Err(Error::NoIconFound)
    );
    println!("Time to find icon: {:#?}", start.elapsed());
}

#[test]
fn lib_get_mimetype_for_filename() {
    let bytes = build_cache(&[], &[]);
    let globs2 = "50:application/pdf:*.pdf\n50:application/x-subrip:*.srt\n50:text/markdown:*.md\n";
    let searcher = MimeSearcher::new(bytes, globs2).unwrap();
    let start = std::time::Instant::now();
    assert_eq!(
        searcher.find_mimetype_from_filepath("foo.pdf"),
        Some(MimeType("application/pdf".to_string()))
    );
    assert_eq!(
        searcher.find_mimetype_from_filepath("bar.srt"),
        Some(MimeType("application/x-subrip".to_string()))
    );
    assert_eq!(
        searcher.find_mimetype_from_filepath("baz.md"),
        Some(MimeType("text/markdown".to_string()))
    );
    println!("Time to find mimetype: {:#?}", start.elapsed());
}
