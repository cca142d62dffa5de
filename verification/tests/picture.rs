use image::{DynamicImage, ImageOutputFormat, RgbaImage};
use track_mapper::geo_coder::Point;
use track_mapper::picture::Picture;

fn png(width: u32, height: u32, rgba: Vec<u8>) -> Vec<u8> {
    let img = RgbaImage::from_raw(width, height, rgba).unwrap();
    let mut bytes = Vec::new();
    DynamicImage::ImageRgba8(img).write_to(&mut bytes, ImageOutputFormat::Png).unwrap();
    bytes
}

#[test]
fn bytes_that_are_no_picture_do_not_decode() {
    assert!(Picture::decode(b"not a picture").is_none());
    assert!(Picture::decode(&[]).is_none());
}

#[test]
fn a_png_decodes_to_its_pixels() {
    let raw: Vec<u8> = (0u8..24).collect();
    let picture = Picture::decode(&png(3, 2, raw.clone())).unwrap();
    assert_eq!((picture.width, picture.height), (3, 2));
    assert_eq!(picture.rgba, raw);
    assert_eq!(picture.pixel(0, 0), [0, 1, 2, 3]);
    assert_eq!(picture.pixel(2, 0), [8, 9, 10, 11]);
    assert_eq!(picture.pixel(1, 1), [16, 17, 18, 19]);
}

#[test]
fn painting_whitens_only_the_listed_pixels() {
    let raw: Vec<u8> = (0u8..24).collect();
    let mut picture = Picture::decode(&png(3, 2, raw)).unwrap();
    picture.paint_white(&vec![Point(1, 0), Point(2, 1), Point(1, 0)]);
    assert_eq!(picture.pixel(1, 0), [255; 4]);
    assert_eq!(picture.pixel(2, 1), [255; 4]);
    assert_eq!(picture.pixel(0, 0), [0, 1, 2, 3]);
    assert_eq!(picture.pixel(0, 1), [12, 13, 14, 15]);
    assert_eq!(picture.pixel(1, 1), [16, 17, 18, 19]);
    assert_eq!(picture.pixel(2, 0), [8, 9, 10, 11]);
    assert_eq!((picture.width, picture.height, picture.rgba.len()), (3, 2, 24));
}
