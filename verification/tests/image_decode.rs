use std::cell::Cell;
use std::io::Cursor;
use videothumb::image_decode::{decode_image, decode_image_rust, rgba_to_bgra};
use videothumb::settings::Settings;
use videothumb::thumb::ThumbData;

fn png(img: image::DynamicImage) -> Vec<u8> {
    let mut out = Vec::new();
    img.write_to(&mut Cursor::new(&mut out), image::ImageFormat::Png).unwrap();
    out
}

/// The size of a `w` x `h` image scaled to fit a `max_w` x `max_h` box.
fn scale_into(max_w: i32, max_h: i32) -> impl Fn(u32, u32) -> (u32, u32) + Copy {
    move |w: u32, h: u32| {
        let s = (max_w as f64 / w as f64).min(max_h as f64 / h as f64);
        (((w as f64 * s + 0.5).floor() as u32).max(1), ((h as f64 * s + 0.5).floor() as u32).max(1))
    }
}

fn two_pixels() -> Vec<u8> {
    let img = image::RgbaImage::from_raw(2, 1, vec![1, 2, 3, 255, 4, 5, 6, 128]).unwrap();
    png(image::DynamicImage::ImageRgba8(img))
}

#[test]
fn rgba_becomes_bgra() {
    let mut v = vec![1, 2, 3, 4, 5, 6, 7, 8];
    rgba_to_bgra(&mut v);
    assert_eq!(v, vec![3, 2, 1, 4, 7, 6, 5, 8]);
    rgba_to_bgra(&mut v);
    assert_eq!(v, vec![1, 2, 3, 4, 5, 6, 7, 8]);
    let mut e: Vec<u8> = Vec::new();
    rgba_to_bgra(&mut e);
    assert!(e.is_empty());
}

#[test]
fn decodes_at_the_source_size() {
    let t = decode_image_rust(&two_pixels(), 2, 10, &Settings::default(), |w, h| (w, h))
        .expect("decoded");
    assert_eq!((t.width, t.height, t.stride), (2, 1, 8));
    assert_eq!(t.bgra, vec![3, 2, 1, 255, 6, 5, 4, 128]);
}

#[test]
fn decodes_resized_to_the_fitted_size() {
    let img = image::RgbaImage::from_pixel(4, 2, image::Rgba([10, 20, 30, 255]));
    let bytes = png(image::DynamicImage::ImageRgba8(img));
    let t = decode_image_rust(&bytes, 2, 2, &Settings::default(), |_, _| (2, 1)).expect("decoded");
    assert_eq!((t.width, t.height, t.stride), (2, 1, 8));
    assert_eq!(t.bgra, vec![30, 20, 10, 255, 30, 20, 10, 255]);
}

#[test]
fn refuses_what_it_cannot_or_may_not_decode() {
    let cfg = Settings::default();
    let fit = scale_into(10, 10);
    assert!(decode_image_rust(&[], 10, 10, &cfg, fit).is_none());
    assert!(decode_image_rust(b"not an image at all", 10, 10, &cfg, fit).is_none());
    assert!(decode_image_rust(&two_pixels(), 0, 10, &cfg, scale_into(0, 10)).is_none());
    assert!(decode_image_rust(&two_pixels(), 10, -1, &cfg, scale_into(10, -1)).is_none());
    // a truncated file has a header but no pixels
    let mut cut = two_pixels();
    cut.truncate(cut.len() - 20);
    assert!(decode_image_rust(&cut, 10, 10, &cfg, fit).is_none());
}

#[test]
fn refuses_images_over_the_megapixel_limit() {
    let mut cfg = Settings::default();
    cfg.zip_max_source_mp = 1;
    let big = png(image::DynamicImage::ImageLuma8(image::GrayImage::new(1001, 1000)));
    let fit = scale_into(10, 10);
    assert!(decode_image_rust(&big, 10, 10, &cfg, fit).is_none());
    let ok = png(image::DynamicImage::ImageLuma8(image::GrayImage::new(1000, 1000)));
    let t = decode_image_rust(&ok, 10, 10, &cfg, fit).expect("within the limit");
    assert_eq!((t.width, t.height), (10, 10));
    assert_eq!(t.bgra, vec![0, 0, 0, 255].repeat(100));
}

#[test]
fn fallback_only_when_the_image_crate_fails() {
    let cfg = Settings::default();
    let called = Cell::new(false);
    let t = decode_image(&two_pixels(), 2, 10, &cfg, |w, h| (w, h), || {
        called.set(true);
        None
    })
    .expect("decoded");
    assert_eq!(t.width, 2);
    assert!(!called.get());

    let stand_in = ThumbData { width: 1, height: 1, stride: 4, bgra: vec![9, 9, 9, 9] };
    let t = decode_image(b"ftypheic....", 10, 10, &cfg, |w, h| (w, h), || Some(stand_in.clone()))
        .expect("from the fallback");
    assert_eq!(t.bgra, vec![9, 9, 9, 9]);
    assert!(decode_image(b"xx", 10, 10, &cfg, |w, h| (w, h), || None).is_none());
}

#[test]
fn thumbnails_fill_the_box_one_way() {
    let img = image::RgbaImage::from_pixel(4, 2, image::Rgba([1, 2, 3, 255]));
    let bytes = png(image::DynamicImage::ImageRgba8(img));
    let cfg = Settings::default();
    let t = decode_image_rust(&bytes, 10, 10, &cfg, scale_into(10, 10)).expect("decoded");
    assert_eq!((t.width, t.height, t.stride), (10, 5, 40));
    assert_eq!(t.bgra.len(), 200);
    let t = decode_image_rust(&bytes, 3, 10, &cfg, scale_into(3, 10)).expect("decoded");
    assert_eq!((t.width, t.height), (3, 2));
}

#[test]
fn fallback_when_the_pixels_do_not_decode() {
    let cfg = Settings::default();
    let mut cut = two_pixels();
    cut.truncate(cut.len() - 20);
    let stand_in = ThumbData { width: 1, height: 1, stride: 4, bgra: vec![5, 6, 7, 8] };
    let t = decode_image(&cut, 2, 10, &cfg, |w, h| (w, h), || Some(stand_in.clone()))
        .expect("from the fallback");
    assert_eq!(t.bgra, vec![5, 6, 7, 8]);
}
