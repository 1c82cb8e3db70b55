use shared_mime_info::byte_decode::{u8x2_u16, u8x4_u32};
use shared_mime_info::MimeType;

/// Appends a null-terminated string to the buffer and returns its offset.
fn add_str(data: &mut Vec<u8>, s: &str) -> u32 {
    let off = data.len() as u32;
    data.extend_from_slice(s.as_bytes());
    data.push(0);
    off
}

/// Builds a cache file image holding a sorted generic-icons list and a glob
/// list. `icons` must be sorted ascending by MIME type; `globs` entries are
/// (glob, mime, weight).
fn build_cache(icons: &[(&str, &str)], globs: &[(&str, &str, u32)]) -> Vec<u8> {
    let mut data = vec![0u8; 40];
    data[0..2].copy_from_slice(&1u16.to_be_bytes());
    data[2..4].copy_from_slice(&2u16.to_be_bytes());
    let icon_offs: Vec<(u32, u32)> = icons
        .iter()
        .map(|(m, i)| {
            let mo = add_str(&mut data, m);
            let io = add_str(&mut data, i);
            (mo, io)
        })
        .collect();
    let glob_offs: Vec<(u32, u32, u32)> = globs
        .iter()
        .map(|(g, m, w)| {
            let go = add_str(&mut data, g);
            let mo = add_str(&mut data, m);
            (go, mo, *w)
        })
        .collect();
    let glob_list_off = data.len() as u32;
    data.extend_from_slice(&(globs.len() as u32).to_be_bytes());
    for (go, mo, w) in &glob_offs {
        data.extend_from_slice(&go.to_be_bytes());
        data.extend_from_slice(&mo.to_be_bytes());
        data.extend_from_slice(&w.to_be_bytes());
    }
    let icons_list_off = data.len() as u32;
    data.extend_from_slice(&(icons.len() as u32).to_be_bytes());
    for (mo, io) in &icon_offs {
        data.extend_from_slice(&mo.to_be_bytes());
        data.extend_from_slice(&io.to_be_bytes());
    }
    data[20..24].copy_from_slice(&glob_list_off.to_be_bytes());
    data[36..40].copy_from_slice(&icons_list_off.to_be_bytes());
    data
}

#[test]
fn u8x2_u16_test() {
    assert_eq!(u8x2_u16(&[0, 1]), 1);
    assert_eq!(u8x2_u16(&[0, 2]), 2);
    assert_eq!(u8x2_u16(&[1, 0]), 256);
    assert_eq!(u8x2_u16(&[1, 1]), 257);
    assert_eq!(u8x2_u16(&[122, 144]), 31376);
    assert_eq!(u8x2_u16(&[255, 255]), u16::MAX);
}

#[test]
fn u8x4_u32_test() {
    assert_eq!(u8x4_u32(&[0, 0, 0, 1]), 1);
    assert_eq!(u8x4_u32(&[0, 0, 1, 0]), 256);
    assert_eq!(u8x4_u32(&[0, 0, 122, 144]), 31376);
    assert_eq!(u8x4_u32(&[255, 255, 255, 255]), u32::MAX);
}

#[test]
fn mime_cache() {}

#[test]
fn mime_cache_get_icon_for_mimetype() {
    let bytes = build_cache(
        &[
            ("application/pdf", "x-office-document"),
            ("font/otf", "font-x-generic"),
            ("text/javascript", "text-x-script"),
        ],
        &[],
    );
    let cache = shared_mime_info::mime_cache::MimeSearcher::new(bytes).unwrap();
    let start = std::time::Instant::now();
    assert_eq!(
        cache.find_icon_for_mimetype("font/otf"),
        Ok(MimeType("font-x-generic".to_string()))
    );
    assert_eq!(
        cache.find_icon_for_mimetype("text/javascript"),
        Ok(MimeType("text-x-script".to_string()))
    );
    assert_eq!(
        cache.find_icon_for_mimetype("application/pdf"),
        Ok(MimeType("x-office-document".to_string()))
    );
    println!("Time to find icon: {:#?}", start.elapsed());
}

#[test]
fn mime_cache_get_mimetype_for_filename() {
    let bytes = build_cache(&[], &[("*.pdf", "application/pdf", 50)]);
    let mc = shared_mime_info::cache::MimeCache::from_bytes(bytes).unwrap();
    let _globber = shared_mime_info::globs::Globber::new(&mc, "").unwrap();
    let start = std::time::Instant::now();
    println!("Time to find icon: {:#?}", start.elapsed());
}
