use std::io::Write;

use kmoefix::png::{png_file, PngError};

fn chunk(tag: &[u8; 4], data: &[u8]) -> Vec<u8> {
    let mut c = Vec::new();
    c.extend_from_slice(&(data.len() as u32).to_be_bytes());
    c.extend_from_slice(tag);
    c.extend_from_slice(data);
    let mut h = crc32fast::Hasher::new();
    h.update(tag);
    h.update(data);
    c.extend_from_slice(&h.finalize().to_be_bytes());
    c
}

fn zlib_none(raw: &[u8]) -> Vec<u8> {
    let mut enc = flate2::write::ZlibEncoder::new(Vec::new(), flate2::Compression::none());
    enc.write_all(raw).unwrap();
    enc.finish().unwrap()
}

#[test]
fn screenshot_png_has_signature_header_rows_and_end() {
    let pixels = vec![(1, 2, 3, 255), (4, 5, 6, 255), (7, 8, 9, 128), (10, 11, 12, 0)];
    let png = png_file(2, 2, &pixels).unwrap();
    let raw = vec![0, 1, 2, 3, 255, 4, 5, 6, 255, 0, 7, 8, 9, 128, 10, 11, 12, 0];
    let mut want = b"\x89PNG\r\n\x1a\n".to_vec();
    want.extend(chunk(b"IHDR", &[0, 0, 0, 2, 0, 0, 0, 2, 8, 6, 0, 0, 0]));
    want.extend(chunk(b"IDAT", &zlib_none(&raw)));
    want.extend(chunk(b"IEND", &[]));
    assert_eq!(png, want);
    // The end chunk's CRC is the well-known one.
    assert_eq!(&png[png.len() - 4..], &[0xAE, 0x42, 0x60, 0x82]);
}

#[test]
fn screenshot_rows_follow_the_width() {
    let pixels = vec![(9, 9, 9, 9); 3];
    let png = png_file(3, 1, &pixels).unwrap();
    let raw = vec![0, 9, 9, 9, 9, 9, 9, 9, 9, 9, 9, 9, 9];
    let idat = chunk(b"IDAT", &zlib_none(&raw));
    assert!(png.windows(idat.len()).any(|w| w == idat.as_slice()));
}

#[test]
fn screenshot_of_the_wrong_size_is_refused() {
    let pixels = vec![(0, 0, 0, 0); 3];
    assert!(matches!(png_file(2, 2, &pixels), Err(PngError::BadSize { width: 2, height: 2, pixels: 3 })));
    assert!(matches!(png_file(0, 3, &pixels), Err(PngError::BadSize { width: 0, height: 3, pixels: 3 })));
    assert!(matches!(png_file(3, 0, &Vec::new()), Err(PngError::BadSize { .. })));
}
