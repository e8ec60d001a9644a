use std::io::Cursor;

use deduplicator::fingerprint::Fingerprint;
use deduplicator::perceptual::{
    image_fingerprint, DecodeFailure, FINGERPRINT_BYTES, HASH_HEIGHT, HASH_WIDTH, MAX_HASH_SIDE,
};
use image::{DynamicImage, GrayImage, ImageFormat, Luma, Rgb, RgbImage};
use image_hasher::ImageHash;

fn png(image: RgbImage) -> Vec<u8> {
    let mut bytes = Vec::new();
    DynamicImage::ImageRgb8(image).write_to(&mut Cursor::new(&mut bytes), ImageFormat::Png).unwrap();
    bytes
}

fn gradient() -> RgbImage {
    RgbImage::from_fn(64, 48, |x, y| Rgb([(x * 4) as u8, (y * 5) as u8, ((x + y) * 2) as u8]))
}

fn checkerboard() -> RgbImage {
    RgbImage::from_fn(64, 48, |x, y| if (x / 8 + y / 8) % 2 == 0 { Rgb([255, 255, 255]) } else { Rgb([0, 0, 0]) })
}

#[test]
fn an_image_has_a_fingerprint_of_144_bits() {
    let fingerprint = image_fingerprint("/pictures/gradient.png", &png(gradient())).unwrap();
    assert_eq!(fingerprint.as_bytes().len(), 18);
    assert_ne!(fingerprint.as_bytes(), &png(gradient())[..18]);
}

#[test]
fn the_same_picture_has_the_same_fingerprint() {
    let first = image_fingerprint("a.png", &png(gradient())).unwrap();
    let second = image_fingerprint("copy/of/a.PNG", &png(gradient())).unwrap();
    assert_eq!(first.as_bytes(), second.as_bytes());
    assert_eq!(first.dist(&second), 0);
}

#[test]
fn different_pictures_have_different_fingerprints() {
    let first = image_fingerprint("a.png", &png(gradient())).unwrap();
    let second = image_fingerprint("b.png", &png(checkerboard())).unwrap();
    assert!(first.dist(&second) > 0);
}

#[test]
fn a_slightly_changed_picture_stays_close() {
    let mut changed = gradient();
    changed.put_pixel(3, 3, Rgb([0, 0, 0]));
    let first = image_fingerprint("a.png", &png(gradient())).unwrap();
    let second = image_fingerprint("b.png", &png(changed)).unwrap();
    assert!(first.similarity(&second).meets(90));
}

#[test]
fn a_file_that_is_no_image_has_no_fingerprint() {
    let garbage = image_fingerprint("notes.png", b"these are not the bytes of a picture");
    assert!(matches!(garbage, Err(DecodeFailure::Undecodable { .. })));
    let empty = image_fingerprint("empty.png", b"");
    assert!(matches!(empty, Err(DecodeFailure::Undecodable { .. })));
    match empty {
        Err(DecodeFailure::Undecodable { cause }) => assert!(!cause.is_empty()),
        _ => panic!("an empty file is no image"),
    }
}

#[test]
fn the_extension_names_the_format() {
    let bytes = png(gradient());
    assert_eq!(image_fingerprint("picture.txt", &bytes).unwrap_err(), DecodeFailure::UnknownFormat);
    assert_eq!(image_fingerprint("picture", &bytes).unwrap_err(), DecodeFailure::UnknownFormat);
    assert_eq!(image_fingerprint("", &bytes).unwrap_err(), DecodeFailure::UnknownFormat);
    assert!(matches!(image_fingerprint("picture.jpg", &bytes), Err(DecodeFailure::Undecodable { .. })));
    assert!(image_fingerprint("picture.png", &bytes).is_ok());
    assert!(image_fingerprint("dir.d/picture.PNG", &bytes).is_ok());
}

#[test]
fn the_same_file_gives_the_same_outcome() {
    let bytes = png(checkerboard());
    for path in ["a.png", "a.gif", "a", "a.bmp"] {
        assert_eq!(image_fingerprint(path, &bytes).is_ok(), image_fingerprint(path, &bytes).is_ok());
    }
    assert_eq!((HASH_WIDTH, HASH_HEIGHT), (16, 16));
}

#[test]
fn distance_is_that_of_the_hashing_library() {
    let samples: Vec<Vec<u8>> = (1..40usize)
        .map(|n| (0..(n % 19 + 1)).map(|i| ((i * 37 + n * 101) % 256) as u8).collect())
        .collect();
    for a in &samples {
        for b in &samples {
            let ours = Fingerprint::new(a.clone()).unwrap().dist(&Fingerprint::new(b.clone()).unwrap());
            let first: ImageHash = ImageHash::from_bytes(a).unwrap();
            let second: ImageHash = ImageHash::from_bytes(b).unwrap();
            assert_eq!(ours, first.dist(&second));
        }
    }
}

#[test]
fn every_image_has_a_fingerprint_of_the_same_length() {
    assert_eq!(FINGERPRINT_BYTES, 18);
    let pictures = vec![
        DynamicImage::ImageRgb8(RgbImage::from_fn(1, 1, |_, _| Rgb([7, 7, 7]))),
        DynamicImage::ImageRgb8(RgbImage::from_fn(9, 9, |x, y| Rgb([(x * 20) as u8, (y * 20) as u8, 0]))),
        DynamicImage::ImageRgb8(RgbImage::from_fn(3, 200, |x, y| Rgb([x as u8, y as u8, 9]))),
        DynamicImage::ImageRgb8(RgbImage::from_fn(640, 2, |x, _| Rgb([(x % 256) as u8, 0, 0]))),
        DynamicImage::ImageLuma8(GrayImage::from_fn(31, 17, |x, y| Luma([(x * y % 256) as u8]))),
    ];
    for picture in pictures {
        for (name, format) in [("a.png", ImageFormat::Png), ("a.bmp", ImageFormat::Bmp)] {
            let mut bytes = Vec::new();
            picture.write_to(&mut Cursor::new(&mut bytes), format).unwrap();
            let fingerprint = image_fingerprint(name, &bytes).unwrap();
            assert_eq!(fingerprint.as_bytes().len(), FINGERPRINT_BYTES);
        }
    }
}

#[test]
fn the_greatest_side_still_multiplies_as_u32() {
    let rounded = (MAX_HASH_SIDE + 1) & !1;
    assert_eq!(rounded, MAX_HASH_SIDE);
    assert!(rounded.checked_mul(rounded).is_some());
    assert!(((MAX_HASH_SIDE + 2) & !1).checked_mul((MAX_HASH_SIDE + 2) & !1).is_none());
}
