//! Thumbnail pixel data and the checks made on it before it is shown.
use crate::settings::Settings;
use vstd::prelude::*;

verus! {

/// A decoded thumbnail: `height` rows of `width` BGRA pixels, row `y`
/// starting at byte `y * stride` of `bgra`.
#[derive(Clone)]
pub struct ThumbData {
    pub width: i32,
    pub height: i32,
    pub stride: i32,
    pub bgra: Vec<u8>,
}

impl ThumbData {
    /// Tightly packed rows: positive size, `stride == 4 * width`, and exactly
    /// `stride * height` bytes, as every decoder of this crate produces.
    pub open spec fn packed(&self) -> bool {
        &&& self.width > 0
        &&& self.height > 0
        &&& self.stride == 4 * self.width
        &&& self.bgra@.len() == self.stride * self.height
    }
}


/// Whether a `w` x `h` source image is within `MaxSourceMP` megapixels.
pub fn source_pixels_allowed(w: i32, h: i32, cfg: &Settings) -> (r: bool)
    requires
        cfg.wf(),
    ensures
        r == (w > 0 && h > 0 && w * h <= cfg.zip_max_source_mp * 1000000),
{
    if w <= 0 || h <= 0 {
        return false;
    }
    assert(0 < w * h <= 0x7fff_ffff * 0x7fff_ffff) by (nonlinear_arith)
        requires
            0 < w <= 0x7fff_ffff,
            0 < h <= 0x7fff_ffff,
    ;
    let pixels = (w as u64) * (h as u64);
    pixels <= cfg.zip_max_source_mp as u64 * 1_000_000
}

/// Whether a thumbnail can be turned into a bitmap: a positive size, rows
/// of at least `4 * width` bytes (that product saturating at `i32::MAX`)
/// and some pixel data.
pub open spec fn bitmap_ready(t: &ThumbData) -> bool {
    let row = if 4 * t.width > i32::MAX {
        i32::MAX as int
    } else {
        4 * t.width
    };
    t.width > 0 && t.height > 0 && t.stride >= row && t.bgra@.len() > 0
}

/// The rows `0..h` of `t`, each cut to its `4 * width` pixel bytes, one
/// after the other.
pub open spec fn packed_rows(t: &ThumbData, h: int) -> Seq<u8>
    decreases h,
{
    if h <= 0 {
        Seq::empty()
    } else {
        packed_rows(t, h - 1) + t.bgra@.subrange(
            (h - 1) * t.stride,
            (h - 1) * t.stride + 4 * t.width,
        )
    }
}

/// The bitmap rows hold the pixels of the thumbnail row by row without the
/// padding at the end of each row: `height` rows of `4 * width` bytes, byte
/// `x` of row `y` being byte `y * stride + x` of the pixel data.
pub proof fn lemma_packed_rows_bytes(t: &ThumbData, h: int, y: int, x: int)
    requires
        0 <= y < h,
        0 <= x < 4 * t.width,
        t.stride >= 0,
        (h - 1) * t.stride + 4 * t.width <= t.bgra@.len(),
    ensures
        packed_rows(t, h).len() == h * (4 * t.width),
        packed_rows(t, h)[y * (4 * t.width) + x] == t.bgra@[y * t.stride + x],
    decreases h,
{
    let w4 = 4 * t.width;
    lemma_packed_rows_len(t, h);
    let prev = packed_rows(t, h - 1);
    let row = t.bgra@.subrange((h - 1) * t.stride, (h - 1) * t.stride + w4);
    assert(packed_rows(t, h) == prev + row);
    if h > 1 {
        assert((h - 2) * t.stride + w4 <= (h - 1) * t.stride + w4) by (nonlinear_arith)
            requires
                t.stride >= 0,
        ;
    }
    lemma_packed_rows_len(t, h - 1);
    assert((h - 1) * t.stride >= 0) by (nonlinear_arith)
        requires
            h >= 1,
            t.stride >= 0,
    ;
    let idx = y * w4 + x;
    assert(0 <= y * t.stride <= (h - 1) * t.stride) by (nonlinear_arith)
        requires
            0 <= y <= h - 1,
            t.stride >= 0,
    ;
    if y < h - 1 {
        lemma_packed_rows_bytes(t, h - 1, y, x);
        assert(0 <= idx < (h - 1) * w4) by (nonlinear_arith)
            requires
                0 <= y <= h - 2,
                0 <= x < w4,
                idx == y * w4 + x,
        ;
        assert((prev + row)[idx] == prev[idx]);
    } else {
        assert(y * w4 == (h - 1) * w4);
        assert(y * t.stride == (h - 1) * t.stride);
        assert((h - 1) * w4 == 0 || h > 1) by (nonlinear_arith)
            requires
                h >= 1,
        ;
        assert(prev.len() == (h - 1) * w4);
        assert(idx - prev.len() == x);
        assert((prev + row)[idx] == row[x]);
        assert(row[x] == t.bgra@[(h - 1) * t.stride + x]);
    }
}

proof fn lemma_packed_rows_len(t: &ThumbData, h: int)
    requires
        t.stride >= 0,
        h <= 0 || (h - 1) * t.stride + 4 * t.width <= t.bgra@.len(),
        t.width >= 0 || h <= 0,
    ensures
        packed_rows(t, h).len() == if h <= 0 {
            0
        } else {
            h * (4 * t.width)
        },
    decreases h,
{
    if h > 0 {
        if h > 1 {
            assert((h - 2) * t.stride + 4 * t.width <= (h - 1) * t.stride + 4 * t.width)
                by (nonlinear_arith)
                requires
                    t.stride >= 0,
            ;
        }
        lemma_packed_rows_len(t, h - 1);
        assert((h - 1) * t.stride >= 0) by (nonlinear_arith)
            requires
                h >= 1,
                t.stride >= 0,
        ;
        assert((h - 1) * (4 * t.width) + 4 * t.width == h * (4 * t.width)) by (nonlinear_arith);
    }
}

/// The top-down 32-bit pixel rows of a device-independent bitmap for `t`,
/// or `None` when `t` cannot be shown.
pub fn bitmap_bits(t: &ThumbData) -> (r: Option<Vec<u8>>)
    requires
        bitmap_ready(t) ==> (t.height - 1) * t.stride + 4 * t.width <= t.bgra@.len(),
    ensures
        r is None <==> !bitmap_ready(t),
        r matches Some(bits) ==> bits@ == packed_rows(t, t.height as int),
{
    let row_i64 = (t.width as i64) * 4;
    let row_sat: i64 = if row_i64 > 0x7fff_ffff {
        0x7fff_ffff
    } else {
        row_i64
    };
    if t.width <= 0 || t.height <= 0 || (t.stride as i64) < row_sat || t.bgra.len() == 0 {
        return None;
    }
    assert((t.height - 1) * t.stride >= 0) by (nonlinear_arith)
        requires
            t.height >= 1,
            t.stride >= 0,
    ;
    assert(4 * t.width <= t.bgra.len());
    let row = (t.width as usize) * 4;
    let stride = t.stride as usize;
    let height = t.height as usize;
    let mut out: Vec<u8> = Vec::new();
    let mut y: usize = 0;
    while y < height
        invariant
            y <= height,
            height == t.height,
            stride == t.stride,
            row == 4 * t.width,
            (height - 1) * stride + row <= t.bgra.len(),
            out@ == packed_rows(t, y as int),
        decreases height - y,
    {
        assert(y * stride + row <= (height - 1) * stride + row) by (nonlinear_arith)
            requires
                y < height,
                stride >= 0,
        ;
        let base = y * stride;
        let mut x: usize = 0;
        while x < row
            invariant
                x <= row,
                base == y * stride,
                base + row <= t.bgra.len(),
                out@ == packed_rows(t, y as int) + t.bgra@.subrange(base as int, base + x),
            decreases row - x,
        {
            out.push(t.bgra[base + x]);
            assert(t.bgra@.subrange(base as int, base + x + 1) =~= t.bgra@.subrange(
                base as int,
                base + x,
            ).push(t.bgra@[base + x]));
            x += 1;
        }
        y += 1;
    }
    Some(out)
}

} // verus!
