//! Decoding a still image (an entry of a ZIP image sequence) into a BGRA
//! thumbnail with the `image` crate.
use crate::settings::Settings;
use crate::thumb::ThumbData;
use image::imageops::FilterType;
use image::{DynamicImage, ImageReader};
use std::io::Cursor;
use vstd::prelude::*;

verus! {

/// The dimensions that the `image` crate reads from the header of `bytes`
/// after guessing its format from its content, if it can.
pub uninterp spec fn probed_dimensions(bytes: Seq<u8>) -> Option<(u32, u32)>;

/// The RGBA pixels, row by row, that the `image` crate decodes from `bytes`
/// at their own size, if it can.
pub uninterp spec fn decoded_rgba(bytes: Seq<u8>) -> Option<Seq<u8>>;

/// The RGBA pixels that the `image` crate gives for `bytes` decoded and
/// resized to exactly `w` x `h` with a triangle filter, if it can.
pub uninterp spec fn resized_rgba(bytes: Seq<u8>, w: u32, h: u32) -> Option<Seq<u8>>;

/// `ImageReader::new(Cursor::new(bytes))`, `with_guessed_format()` and
/// `into_dimensions()`: the image size from its header.  The result is named
/// `probed_dimensions`; nothing more is claimed of it.
#[verifier::external_body]
fn probe_image(bytes: &[u8]) -> (r: Option<(u32, u32)>)
    ensures
        r == probed_dimensions(bytes@),
{
    ImageReader::new(Cursor::new(bytes)).with_guessed_format().ok()?.into_dimensions().ok()
}

/// `ImageReader::new(Cursor::new(bytes))`, `with_guessed_format()`,
/// `into_decoder()`, `DynamicImage::from_decoder` and `to_rgba8().into_raw()`:
/// the decoded pixels, named `decoded_rgba`.  As the source shows, the
/// decoder is the one whose header gave `probed_dimensions`, so the pixels
/// are four bytes for each pixel of that size.
#[verifier::external_body]
fn decode_rgba(bytes: &[u8]) -> (r: Option<Vec<u8>>)
    ensures
        r is Some <==> decoded_rgba(bytes@) is Some,
        r matches Some(v) ==> decoded_rgba(bytes@) == Some(v@) && (probed_dimensions(bytes@)
            matches Some((w, h)) && v@.len() == 4 * w * h),
{
    let reader = ImageReader::new(Cursor::new(bytes)).with_guessed_format().ok()?;
    Some(DynamicImage::from_decoder(reader.into_decoder().ok()?).ok()?.to_rgba8().into_raw())
}

/// As `decode_rgba`, with `resize_exact(w, h, FilterType::Triangle)` between
/// decoding and `to_rgba8()`: the pixels, named `resized_rgba`, are four
/// bytes for each of the `w` x `h` pixels.
#[verifier::external_body]
fn decode_rgba_resized(bytes: &[u8], w: u32, h: u32) -> (r: Option<Vec<u8>>)
    ensures
        r is Some <==> resized_rgba(bytes@, w, h) is Some,
        r matches Some(v) ==> resized_rgba(bytes@, w, h) == Some(v@) && v@.len() == 4 * w * h,
{
    let reader = ImageReader::new(Cursor::new(bytes)).with_guessed_format().ok()?;
    let image = DynamicImage::from_decoder(reader.into_decoder().ok()?).ok()?;
    Some(image.resize_exact(w, h, FilterType::Triangle).to_rgba8().into_raw())
}

/// `v` with the first and third byte of every four swapped: RGBA to BGRA.
pub open spec fn swap_red_blue(v: Seq<u8>) -> Seq<u8> {
    Seq::new(
        v.len(),
        |i: int|
            if i % 4 == 0 {
                v[i + 2]
            } else if i % 4 == 2 {
                v[i - 2]
            } else {
                v[i]
            },
    )
}


/// Swapping red and blue twice gives the pixels back.
pub proof fn lemma_swap_red_blue_involutive(v: Seq<u8>)
    requires
        v.len() % 4 == 0,
    ensures
        swap_red_blue(swap_red_blue(v)) =~= v,
{
}

/// RGBA to BGRA: each pixel `p` keeps its green and alpha bytes and gets
/// the red byte where its blue was and the blue byte where its red was.
pub proof fn lemma_swap_red_blue_pixels(v: Seq<u8>, p: int)
    requires
        v.len() % 4 == 0,
        0 <= p,
        4 * p + 4 <= v.len(),
    ensures
        swap_red_blue(v).len() == v.len(),
        swap_red_blue(v)[4 * p] == v[4 * p + 2],
        swap_red_blue(v)[4 * p + 1] == v[4 * p + 1],
        swap_red_blue(v)[4 * p + 2] == v[4 * p],
        swap_red_blue(v)[4 * p + 3] == v[4 * p + 3],
{
    assert((4 * p) % 4 == 0 && (4 * p + 1) % 4 == 1 && (4 * p + 2) % 4 == 2 && (4 * p + 3) % 4
        == 3) by (nonlinear_arith)
        requires
            0 <= p,
    ;
}

/// RGBA pixels turned into BGRA in place.
pub fn rgba_to_bgra(v: &mut Vec<u8>)
    requires
        old(v)@.len() % 4 == 0,
    ensures
        final(v)@ == swap_red_blue(old(v)@),
{
    let ghost orig = v@;
    let mut i: usize = 0;
    while i < v.len()
        invariant
            v@.len() == orig.len(),
            orig.len() % 4 == 0,
            i % 4 == 0,
            i <= v.len(),
            forall|j: int| 0 <= j < i ==> #[trigger] v@[j] == swap_red_blue(orig)[j],
            forall|j: int| i <= j < v@.len() ==> #[trigger] v@[j] == orig[j],
        decreases v.len() - i,
    {
        let r = v[i];
        let b = v[i + 2];
        v.set(i, b);
        v.set(i + 2, r);
        i += 4;
    }
    assert(v@ =~= swap_red_blue(orig));
}

/// What `decode_image_rust` may return for `bytes` in a `max_w` x `max_h`
/// box when `fit` scales the source size into the box: nothing unless the
/// bytes are an image of a positive size of at most `MaxSourceMP`
/// megapixels that decodes, at the size `fit` gives (resized only when that
/// differs from the source size), into BGRA rows of that size, which lies
/// in the box and fills it in width or in height.
pub open spec fn rust_decoding<F: Fn(u32, u32) -> (u32, u32)>(
    bytes: Seq<u8>,
    max_w: i32,
    max_h: i32,
    cfg: &Settings,
    fit: F,
    r: Option<ThumbData>,
) -> bool {
    match r {
        None => {
            bytes.len() == 0 || max_w <= 0 || max_h <= 0 || match probed_dimensions(bytes) {
                None => true,
                Some((sw, sh)) => sw == 0 || sh == 0 || sw * sh > cfg.zip_max_source_mp * 1000000
                    || exists|d: (u32, u32)|
                    fit.ensures((sw, sh), d) && if d.0 != sw || d.1 != sh {
                        resized_rgba(bytes, d.0, d.1) is None
                    } else {
                        decoded_rgba(bytes) is None
                    },
            }
        },
        Some(t) => {
            &&& bytes.len() > 0
            &&& max_w > 0
            &&& max_h > 0
            &&& probed_dimensions(bytes) matches Some((sw, sh))
            &&& sw > 0
            &&& sh > 0
            &&& sw * sh <= cfg.zip_max_source_mp * 1000000
            &&& fit.ensures((sw, sh), (t.width as u32, t.height as u32))
            &&& 1 <= t.width <= max_w
            &&& 1 <= t.height <= max_h
            &&& (t.width == max_w || t.height == max_h)
            &&& t.packed()
            &&& if t.width != sw || t.height != sh {
                resized_rgba(bytes, t.width as u32, t.height as u32) is Some
            } else {
                decoded_rgba(bytes) is Some
            }
            &&& t.bgra@ == swap_red_blue(
                if t.width != sw || t.height != sh {
                    resized_rgba(bytes, t.width as u32, t.height as u32)->Some_0
                } else {
                    decoded_rgba(bytes)->Some_0
                },
            )
        },
    }
}

/// Decodes an image with the `image` crate into a BGRA thumbnail for a
/// `max_w` x `max_h` box.  Images without a positive size, or of more than
/// `MaxSourceMP` megapixels, are refused before they are decoded; `fit`
/// gives the thumbnail size for the source size (inside the box and filling
/// it in width or in height), and the image is resized only when that
/// differs from the source size.
pub fn decode_image_rust<F: Fn(u32, u32) -> (u32, u32)>(
    bytes: &[u8],
    max_w: i32,
    max_h: i32,
    cfg: &Settings,
    fit: F,
) -> (r: Option<ThumbData>)
    requires
        cfg.wf(),
        max_w <= 0x1fff_ffff,
        max_h <= 0x1fff_ffff,
        forall|s: (u32, u32)| s.0 > 0 && s.1 > 0 ==> fit.requires(s),
        forall|s: (u32, u32), d: (u32, u32)|
            fit.ensures(s, d) ==> 1 <= d.0 <= max_w && 1 <= d.1 <= max_h && (d.0 == max_w || d.1
                == max_h),
    ensures
        rust_decoding(bytes@, max_w, max_h, cfg, fit, r),
{
    if bytes.len() == 0 || max_w <= 0 || max_h <= 0 {
        return None;
    }
    let (sw, sh) = match probe_image(bytes) {
        Some(d) => d,
        None => {
            return None;
        },
    };
    if sw == 0 || sh == 0 {
        return None;
    }
    assert(sw * sh <= 0xffff_ffff * 0xffff_ffff) by (nonlinear_arith)
        requires
            sw <= 0xffff_ffff,
            sh <= 0xffff_ffff,
    ;
    if (sw as u64) * (sh as u64) > cfg.zip_max_source_mp as u64 * 1_000_000 {
        return None;
    }
    let (ow, oh) = fit(sw, sh);
    let decoded = if ow != sw || oh != sh {
        decode_rgba_resized(bytes, ow, oh)
    } else {
        decode_rgba(bytes)
    };
    let mut bgra = match decoded {
        Some(v) => v,
        None => {
            return None;
        },
    };
    assert(bgra@.len() == 4 * ow * oh);
    proof {
        let p = ow as int * oh as int;
        vstd::arithmetic::mul::lemma_mul_is_associative(4, ow as int, oh as int);
        vstd::arithmetic::mul::lemma_mul_is_commutative(p, 4);
        vstd::arithmetic::div_mod::lemma_mod_multiples_basic(p, 4);
    }
    rgba_to_bgra(&mut bgra);
    let t = ThumbData { width: ow as i32, height: oh as i32, stride: ow as i32 * 4, bgra };
    assert(t.width as u32 == ow && t.height as u32 == oh);
    Some(t)
}

/// What `decode_image` returns: the `image` crate's decoding when it gives a
/// thumbnail, else whatever `fallback` gives.
pub open spec fn image_decoding<F: Fn(u32, u32) -> (u32, u32), G: FnOnce() -> Option<ThumbData>>(
    bytes: Seq<u8>,
    max_w: i32,
    max_h: i32,
    cfg: &Settings,
    fit: F,
    fallback: G,
    r: Option<ThumbData>,
) -> bool {
    ||| r is Some && rust_decoding(bytes, max_w, max_h, cfg, fit, r)
    ||| rust_decoding(bytes, max_w, max_h, cfg, fit, None) && fallback.ensures((), r)
}

/// Decodes an image, first with the `image` crate and, only when that gives
/// nothing (for instance for HEIC/HEIF, which it does not read), with
/// `fallback` on the same bytes.
pub fn decode_image<F: Fn(u32, u32) -> (u32, u32), G: FnOnce() -> Option<ThumbData>>(
    bytes: &[u8],
    max_w: i32,
    max_h: i32,
    cfg: &Settings,
    fit: F,
    fallback: G,
) -> (r: Option<ThumbData>)
    requires
        cfg.wf(),
        max_w <= 0x1fff_ffff,
        max_h <= 0x1fff_ffff,
        forall|s: (u32, u32)| s.0 > 0 && s.1 > 0 ==> fit.requires(s),
        forall|s: (u32, u32), d: (u32, u32)|
            fit.ensures(s, d) ==> 1 <= d.0 <= max_w && 1 <= d.1 <= max_h && (d.0 == max_w || d.1
                == max_h),
        fallback.requires(()),
    ensures
        image_decoding(bytes@, max_w, max_h, cfg, fit, fallback, r),
{
    match decode_image_rust(bytes, max_w, max_h, cfg, fit) {
        Some(t) => Some(t),
        None => fallback(),
    }
}

} // verus!
