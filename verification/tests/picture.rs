use image::{DynamicImage, ImageBuffer, ImageFormat, Rgb, Rgba};
use kmoefix::picture::{decode, encode, rotate_by, turn_picture, Channels, Picture, Pixels};
use std::io::Cursor;
use kmoefix::archive::zip_build;
use kmoefix::output::{turn_candidates, RotationCandidate, RotationRole, Turn};
use kmoefix::{FixOptions, RotateCover};

/// A 3×2 RGB picture whose pixel at (x, y) holds (x, y, 7).
fn sample_png() -> Vec<u8> {
    let img = ImageBuffer::from_fn(3, 2, |x, y| Rgb([x as u8, y as u8, 7]));
    let mut buf = Vec::new();
    DynamicImage::ImageRgb8(img).write_to(&mut Cursor::new(&mut buf), ImageFormat::Png).unwrap();
    buf
}

fn rgb_at(p: &Picture, x: u32, y: u32) -> [u8; 3] {
    match &p.pixels {
        Pixels::Eight(Channels::Rgb, v) => {
            let i = ((y * p.width + x) * 3) as usize;
            [v[i], v[i + 1], v[i + 2]]
        }
        _ => panic!("expected RGB samples"),
    }
}

#[test]
fn decode_gives_plain_samples() {
    let p = decode(&sample_png()).unwrap();
    assert_eq!((p.width, p.height), (3, 2));
    assert_eq!(rgb_at(&p, 2, 1), [2, 1, 7]);
    assert!(decode(b"not a picture").is_none());
}

#[test]
fn quarter_turns_move_pixels_clockwise() {
    let p = decode(&sample_png()).unwrap();
    let r90 = rotate_by(&p, 90).unwrap();
    assert_eq!((r90.width, r90.height), (2, 3));
    // The top-left pixel of a clockwise quarter turn comes from the bottom-left.
    assert_eq!(rgb_at(&r90, 0, 0), [0, 1, 7]);
    assert_eq!(rgb_at(&r90, 1, 2), [2, 0, 7]);
    let r180 = rotate_by(&p, 180).unwrap();
    assert_eq!((r180.width, r180.height), (3, 2));
    assert_eq!(rgb_at(&r180, 0, 0), [2, 1, 7]);
    let r270 = rotate_by(&p, 270).unwrap();
    assert_eq!((r270.width, r270.height), (2, 3));
    assert_eq!(rgb_at(&r270, 0, 0), [2, 0, 7]);
    let same = rotate_by(&p, 45).unwrap();
    assert_eq!(rgb_at(&same, 1, 0), [1, 0, 7]);
}

#[test]
fn rotation_refuses_a_short_buffer() {
    let p = Picture { width: 2, height: 2, pixels: Pixels::Eight(Channels::Rgba, vec![0; 15]) };
    assert!(rotate_by(&p, 90).is_none());
}

#[test]
fn png_turn_is_lossless_and_matches_the_image_crate() {
    let bytes = sample_png();
    let turned = turn_picture(&bytes, 90, true).unwrap();
    let back = image::load_from_memory(&turned).unwrap();
    let expect = image::load_from_memory(&bytes).unwrap().rotate90();
    assert_eq!(back.to_rgb8().into_raw(), expect.to_rgb8().into_raw());
    assert!(turn_picture(b"garbage", 90, true).is_none());
}

#[test]
fn jpeg_encoding_keeps_the_size() {
    let img = ImageBuffer::from_fn(16, 8, |x, y| Rgba([(x * 10) as u8, (y * 20) as u8, 100, 255]));
    let p = Picture { width: 16, height: 8, pixels: Pixels::Eight(Channels::Rgba, img.into_raw()) };
    let jpg = encode(p, false).unwrap();
    let back = image::load_from_memory(&jpg).unwrap();
    assert_eq!((back.width(), back.height()), (16, 8));
    assert_eq!(image::guess_format(&jpg).unwrap(), ImageFormat::Jpeg);
}

#[test]
fn candidates_turn_by_the_decided_angle() {
    let png = sample_png();
    let data = zip_build(&vec![
        (b"image/a.png".to_vec(), png.clone(), true),
        (b"image/b.png".to_vec(), png.clone(), true),
        (b"image/c.png".to_vec(), b"not a picture".to_vec(), true),
    ])
    .unwrap();
    let cand = |name: &str, reference: bool| RotationCandidate {
        image: name.as_bytes().to_vec(),
        role: RotationRole::Picture,
        reference: if reference { Some(b"image/x-RAWIMAGE.png".to_vec()) } else { None },
    };
    let plan = vec![cand("image/a.png", true), cand("image/b.png", false), cand("image/c.png", true), cand("image/a.png", true)];
    let aligned = vec![Some(90), Some(90), Some(180), Some(45)];
    let opts = FixOptions { rotate_cover: RotateCover::Auto };
    let (turned, outcomes) = turn_candidates(&data, &plan, &aligned, &opts);
    assert_eq!(outcomes, vec![Turn::Turned, Turn::Kept, Turn::NotEncoded, Turn::Refused(45)]);
    assert_eq!(turned.len(), 1);
    assert_eq!(turned[0].0, b"image/a.png".to_vec());
    assert_eq!(turned[0].1, turn_picture(&png, 90, true).unwrap());
    let fixed = FixOptions { rotate_cover: RotateCover::Fixed(270) };
    let (turned, outcomes) = turn_candidates(&data, &plan, &aligned, &fixed);
    assert_eq!(outcomes, vec![Turn::Turned, Turn::Kept, Turn::NotEncoded, Turn::Turned]);
    assert_eq!(turned[0].1, turn_picture(&png, 270, true).unwrap());
}

#[test]
fn sixteen_bit_png_turns_losslessly() {
    let img = ImageBuffer::from_fn(2, 3, |x, y| image::Luma([(x * 1000 + y * 300) as u16 + 1]));
    let mut bytes = Vec::new();
    DynamicImage::ImageLuma16(img).write_to(&mut Cursor::new(&mut bytes), ImageFormat::Png).unwrap();
    let p = decode(&bytes).unwrap();
    assert!(matches!(p.pixels, Pixels::Sixteen(Channels::Grey, _)));
    let turned = turn_picture(&bytes, 270, true).unwrap();
    let expect = image::load_from_memory(&bytes).unwrap().rotate270();
    let back = image::load_from_memory(&turned).unwrap();
    assert_eq!(back.to_luma16().into_raw(), expect.to_luma16().into_raw());
}

#[test]
fn turned_files_match_the_image_crate_byte_for_byte() {
    let bytes = sample_png();
    let img = image::load_from_memory(&bytes).unwrap().rotate90();
    let mut png = Vec::new();
    img.write_to(&mut Cursor::new(&mut png), ImageFormat::Png).unwrap();
    assert_eq!(turn_picture(&bytes, 90, true).unwrap(), png);
    let mut jpg = Vec::new();
    image::codecs::jpeg::JpegEncoder::new_with_quality(&mut Cursor::new(&mut jpg), 95)
        .encode_image(&img.to_rgb8())
        .unwrap();
    assert_eq!(turn_picture(&bytes, 90, false).unwrap(), jpg);
}
