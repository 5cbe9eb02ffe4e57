//! Statistics of a decoded frame, used to reject unsuitable thumbnails
//! (black frames, title cards, uniform frames, fades).  This module gathers
//! the integer counts and sums over a sparse sample of the frame; turning
//! them into ratios and standard deviations is floating-point work done by
//! the caller.
use crate::settings::Settings;
use crate::thumb::ThumbData;
use vstd::prelude::*;

verus! {

/// Lumas up to here, exclusive, count as mid-tones unless dark.
pub const BRIGHT: i32 = 180;

/// Luma of a BGR pixel, in `0..=255`.
pub open spec fn luma(b: int, g: int, r: int) -> int {
    (29 * b + 150 * g + 77 * r + 128) / 256
}

/// Luma of the pixel whose first three bytes are `p[0]`, `p[1]`, `p[2]`
/// (blue, green, red).
pub fn pixel_luma(p: &[u8]) -> (l: i32)
    requires
        p@.len() >= 3,
    ensures
        l == luma(p@[0] as int, p@[1] as int, p@[2] as int),
        0 <= l <= 255,
{
    luma_of(p[0], p[1], p[2])
}

/// Luma of the pixel with blue `b`, green `g` and red `r`.
pub fn luma_of(b: u8, g: u8, r: u8) -> (l: i32)
    ensures
        l == luma(b as int, g as int, r as int),
        0 <= l <= 255,
{
    let x: i32 = 29 * b as i32 + 150 * g as i32 + 77 * r as i32 + 128;
    assert(0 <= x < 65536);
    assert(x >> 8 == x / 256) by (bit_vector)
        requires
            0 <= x < 65536,
    ;
    x >> 8
}

/// Histogram bin of a colour: the top three bits of red, green and blue.
fn color_bin(b: u8, g: u8, r: u8) -> (bin: usize)
    ensures
        bin == (r as int / 32) * 64 + (g as int / 32) * 8 + b as int / 32,
        bin < 512,
{
    let rr = r as u64;
    let gg = g as u64;
    let bb = b as u64;
    let v: u64 = ((rr >> 5) << 6) | ((gg >> 5) << 3) | (bb >> 5);
    assert(v == (rr / 32) * 64 + (gg / 32) * 8 + bb / 32 && v < 512) by (bit_vector)
        requires
            rr < 256,
            gg < 256,
            bb < 256,
            v == ((rr >> 5) << 6) | ((gg >> 5) << 3) | (bb >> 5),
    ;
    v as usize
}

fn step_size(a: u8, b: u8) -> (d: u64)
    ensures
        d == abs_diff(a as int, b as int),
{
    if a >= b {
        (a - b) as u64
    } else {
        (b - a) as u64
    }
}

/// Whether any of the frame checks is switched on.
pub fn frame_analysis_enabled(c: &Settings) -> (r: bool)
    ensures
        r == (c.black_frame_detection || c.title_card_detection || c.uniform_frame_detection
            || c.transition_detection),
{
    c.black_frame_detection || c.title_card_detection || c.uniform_frame_detection
        || c.transition_detection
}

/// Sum of `f(r, c)` over `c` in `0..n`.
pub open spec fn row_sum(f: spec_fn(int, int) -> int, r: int, n: int) -> int
    decreases n,
{
    if n <= 0 {
        0
    } else {
        row_sum(f, r, n - 1) + f(r, n - 1)
    }
}

/// Sum of `f(r, c)` over the rows `r` in `0..m` and the columns `c` in
/// `0..cols`.
pub open spec fn grid_sum(f: spec_fn(int, int) -> int, m: int, cols: int) -> int
    decreases m,
{
    if m <= 0 {
        0
    } else {
        grid_sum(f, m - 1, cols) + row_sum(f, m - 1, cols)
    }
}

/// Sum of `f` over the samples that come before sample `(r, c)` in row
/// order.
pub open spec fn sum_before(f: spec_fn(int, int) -> int, r: int, c: int, cols: int) -> int {
    grid_sum(f, r, cols) + row_sum(f, r, c)
}

/// Whether the frame is one that statistics are taken of.
pub open spec fn measurable(t: &ThumbData) -> bool {
    t.width > 0 && t.height > 0 && t.stride >= 4 * t.width && t.bgra@.len() > 0
}

/// Sampled columns: every fourth pixel of a row.
pub open spec fn sample_cols(t: &ThumbData) -> int {
    (t.width + 3) / 4
}

/// Sampled rows: every fourth row.
pub open spec fn sample_rows(t: &ThumbData) -> int {
    (t.height + 3) / 4
}

/// Byte `o` of the sampled pixel in sampled row `r` and column `c`.
pub open spec fn sample_byte(t: &ThumbData, r: int, c: int, o: int) -> int {
    t.bgra@[4 * r * t.stride + 16 * c + o] as int
}

/// Luma of the sampled pixel `(r, c)`.
pub open spec fn sample_luma(t: &ThumbData, r: int, c: int) -> int {
    luma(sample_byte(t, r, c, 0), sample_byte(t, r, c, 1), sample_byte(t, r, c, 2))
}

/// Histogram bin of the sampled pixel `(r, c)`: the top three bits of red,
/// green and blue.
pub open spec fn sample_bin(t: &ThumbData, r: int, c: int) -> int {
    (sample_byte(t, r, c, 2) / 32) * 64 + (sample_byte(t, r, c, 1) / 32) * 8 + sample_byte(
        t,
        r,
        c,
        0,
    ) / 32
}

pub open spec fn abs_diff(a: int, b: int) -> int {
    if a >= b {
        a - b
    } else {
        b - a
    }
}

/// Luma step from the sample to the left, if there is one.
pub open spec fn left_step(t: &ThumbData, r: int, c: int) -> int {
    if c > 0 {
        abs_diff(sample_luma(t, r, c), sample_luma(t, r, c - 1))
    } else {
        0
    }
}

/// Luma step from the sample above, if there is one.
pub open spec fn up_step(t: &ThumbData, r: int, c: int) -> int {
    if r > 0 {
        abs_diff(sample_luma(t, r, c), sample_luma(t, r - 1, c))
    } else {
        0
    }
}

pub open spec fn ind(b: bool) -> int {
    if b {
        1
    } else {
        0
    }
}

pub open spec fn f_one(t: &ThumbData) -> spec_fn(int, int) -> int {
    |r: int, c: int| 1
}

pub open spec fn f_dark(t: &ThumbData, thr: int) -> spec_fn(int, int) -> int {
    |r: int, c: int| ind(sample_luma(t, r, c) <= thr)
}

pub open spec fn f_mid(t: &ThumbData, thr: int) -> spec_fn(int, int) -> int {
    |r: int, c: int| ind(thr < sample_luma(t, r, c) < 180)
}

pub open spec fn f_luma(t: &ThumbData) -> spec_fn(int, int) -> int {
    |r: int, c: int| sample_luma(t, r, c)
}

pub open spec fn f_luma_sq(t: &ThumbData) -> spec_fn(int, int) -> int {
    |r: int, c: int| sample_luma(t, r, c) * sample_luma(t, r, c)
}

pub open spec fn f_byte(t: &ThumbData, o: int) -> spec_fn(int, int) -> int {
    |r: int, c: int| sample_byte(t, r, c, o)
}

pub open spec fn f_byte_sq(t: &ThumbData, o: int) -> spec_fn(int, int) -> int {
    |r: int, c: int| sample_byte(t, r, c, o) * sample_byte(t, r, c, o)
}

pub open spec fn f_bin(t: &ThumbData, b: int) -> spec_fn(int, int) -> int {
    |r: int, c: int| ind(sample_bin(t, r, c) == b)
}

pub open spec fn f_steps(t: &ThumbData) -> spec_fn(int, int) -> int {
    |r: int, c: int| ind(c > 0) + ind(r > 0)
}

pub open spec fn f_step_sum(t: &ThumbData) -> spec_fn(int, int) -> int {
    |r: int, c: int| left_step(t, r, c) + up_step(t, r, c)
}

pub open spec fn f_edges(t: &ThumbData, thr: int) -> spec_fn(int, int) -> int {
    |r: int, c: int| ind(c > 0 && left_step(t, r, c) >= thr) + ind(r > 0 && up_step(t, r, c) >= thr)
}

/// The largest of `f(t, 0)`, ..., `f(t, n - 1)` for the bin counts.
pub open spec fn max_bin_count(t: &ThumbData, n: int) -> int
    decreases n,
{
    if n <= 0 {
        0
    } else {
        let m = max_bin_count(t, n - 1);
        let x = grid_sum(f_bin(t, n - 1), sample_rows(t), sample_cols(t));
        if x > m {
            x
        } else {
            m
        }
    }
}

proof fn lemma_row_ones(t: &ThumbData, r: int, c: int)
    requires
        c >= 0,
    ensures
        row_sum(f_one(t), r, c) == c,
    decreases c,
{
    if c > 0 {
        lemma_row_ones(t, r, c - 1);
    }
}

proof fn lemma_grid_ones(t: &ThumbData, m: int, cols: int)
    requires
        m >= 0,
        cols >= 0,
    ensures
        grid_sum(f_one(t), m, cols) == m * cols,
    decreases m,
{
    if m > 0 {
        lemma_grid_ones(t, m - 1, cols);
        lemma_row_ones(t, m - 1, cols);
        assert((m - 1) * cols + cols == m * cols) by (nonlinear_arith);
        assert(grid_sum(f_one(t), m, cols) == grid_sum(f_one(t), m - 1, cols) + row_sum(
            f_one(t),
            m - 1,
            cols,
        ));
    } else {
        assert(0 * cols == 0);
    }
}

/// Integer statistics over the sampled pixels of a frame (every fourth
/// pixel of every fourth row).  Luma steps are taken between neighbouring
/// samples, to the left and upwards.
pub struct FrameSums {
    /// Samples taken.
    pub total: u64,
    /// Samples whose luma is at most `BlackThreshold`.
    pub dark: u64,
    /// Other samples whose luma is below 180.
    pub mid: u64,
    pub luma_sum: u64,
    pub luma_sq: u64,
    pub b_sum: u64,
    pub g_sum: u64,
    pub r_sum: u64,
    pub b_sq: u64,
    pub g_sq: u64,
    pub r_sq: u64,
    /// Samples in the fullest of the 512 colour bins.
    pub dominant: u32,
    /// Luma steps of at least `EdgeThreshold`.
    pub edge_count: u64,
    /// Luma steps taken.
    pub grad_count: u64,
    /// Sum of the luma steps.
    pub grad_sum: u64,
}

impl FrameSums {
    /// The luma and colour sums over the samples before `(r, c)`.
    pub open spec fn colour_partial(&self, t: &ThumbData, cfg: &Settings, r: int, c: int) -> bool {
        let cols = sample_cols(t);
        let thr = cfg.black_threshold as int;
        &&& self.total == sum_before(f_one(t), r, c, cols)
        &&& self.dark == sum_before(f_dark(t, thr), r, c, cols)
        &&& self.mid == sum_before(f_mid(t, thr), r, c, cols)
        &&& self.luma_sum == sum_before(f_luma(t), r, c, cols)
        &&& self.luma_sq == sum_before(f_luma_sq(t), r, c, cols)
        &&& self.b_sum == sum_before(f_byte(t, 0), r, c, cols)
        &&& self.g_sum == sum_before(f_byte(t, 1), r, c, cols)
        &&& self.r_sum == sum_before(f_byte(t, 2), r, c, cols)
        &&& self.b_sq == sum_before(f_byte_sq(t, 0), r, c, cols)
        &&& self.g_sq == sum_before(f_byte_sq(t, 1), r, c, cols)
        &&& self.r_sq == sum_before(f_byte_sq(t, 2), r, c, cols)
    }

    /// The luma step sums over the samples before `(r, c)`.
    pub open spec fn step_partial(&self, t: &ThumbData, cfg: &Settings, r: int, c: int) -> bool {
        let cols = sample_cols(t);
        let edge = cfg.edge_threshold as int;
        &&& self.edge_count == sum_before(f_edges(t, edge), r, c, cols)
        &&& self.grad_count == sum_before(f_steps(t), r, c, cols)
        &&& self.grad_sum == sum_before(f_step_sum(t), r, c, cols)
    }

    /// All sums over the samples before `(r, c)`.
    pub open spec fn partial(&self, t: &ThumbData, cfg: &Settings, r: int, c: int) -> bool {
        self.colour_partial(t, cfg, r, c) && self.step_partial(t, cfg, r, c)
    }

    /// Each luma and colour sum is at most what `total` samples can give.
    pub open spec fn colour_bounded(&self) -> bool {
        &&& self.dark <= self.total
        &&& self.mid <= self.total
        &&& self.luma_sum <= 255 * self.total
        &&& self.luma_sq <= 65025 * self.total
        &&& self.b_sum <= 255 * self.total
        &&& self.g_sum <= 255 * self.total
        &&& self.r_sum <= 255 * self.total
        &&& self.b_sq <= 65025 * self.total
        &&& self.g_sq <= 65025 * self.total
        &&& self.r_sq <= 65025 * self.total
    }

    /// Each sum is at most what `total` samples can give.
    pub open spec fn bounded(&self) -> bool {
        &&& self.colour_bounded()
        &&& self.edge_count <= 2 * self.total
        &&& self.grad_count <= 2 * self.total
        &&& self.grad_sum <= 510 * self.total
    }

    /// Statistics of a frame that is not measured.
    pub open spec fn is_zero(&self) -> bool {
        &&& self.total == 0
        &&& self.dark == 0
        &&& self.mid == 0
        &&& self.luma_sum == 0
        &&& self.luma_sq == 0
        &&& self.b_sum == 0
        &&& self.g_sum == 0
        &&& self.r_sum == 0
        &&& self.b_sq == 0
        &&& self.g_sq == 0
        &&& self.r_sq == 0
        &&& self.dominant == 0
        &&& self.edge_count == 0
        &&& self.grad_count == 0
        &&& self.grad_sum == 0
    }

    /// The statistics of `t` under `cfg`, each a sum over all samples.
    pub open spec fn describes(&self, t: &ThumbData, cfg: &Settings) -> bool {
        let rows = sample_rows(t);
        let cols = sample_cols(t);
        let thr = cfg.black_threshold as int;
        let edge = cfg.edge_threshold as int;
        &&& self.total == grid_sum(f_one(t), rows, cols)
        &&& self.dark == grid_sum(f_dark(t, thr), rows, cols)
        &&& self.mid == grid_sum(f_mid(t, thr), rows, cols)
        &&& self.luma_sum == grid_sum(f_luma(t), rows, cols)
        &&& self.luma_sq == grid_sum(f_luma_sq(t), rows, cols)
        &&& self.b_sum == grid_sum(f_byte(t, 0), rows, cols)
        &&& self.g_sum == grid_sum(f_byte(t, 1), rows, cols)
        &&& self.r_sum == grid_sum(f_byte(t, 2), rows, cols)
        &&& self.b_sq == grid_sum(f_byte_sq(t, 0), rows, cols)
        &&& self.g_sq == grid_sum(f_byte_sq(t, 1), rows, cols)
        &&& self.r_sq == grid_sum(f_byte_sq(t, 2), rows, cols)
        &&& self.dominant == max_bin_count(t, 512)
        &&& self.edge_count == grid_sum(f_edges(t, edge), rows, cols)
        &&& self.grad_count == grid_sum(f_steps(t), rows, cols)
        &&& self.grad_sum == grid_sum(f_step_sum(t), rows, cols)
    }
}


proof fn lemma_max_bin_count(t: &ThumbData, n: int)
    requires
        1 <= n,
    ensures
        forall|b: int|
            0 <= b < n ==> max_bin_count(t, n) >= #[trigger] grid_sum(
                f_bin(t, b),
                sample_rows(t),
                sample_cols(t),
            ),
        exists|b: int|
            0 <= b < n && max_bin_count(t, n) == #[trigger] grid_sum(
                f_bin(t, b),
                sample_rows(t),
                sample_cols(t),
            ),
    decreases n,
{
    if n > 1 {
        lemma_max_bin_count(t, n - 1);
    } else {
        assert(max_bin_count(t, 0) == 0);
        lemma_grid_nonneg(f_bin(t, 0), sample_rows(t), sample_cols(t));
    }
}

proof fn lemma_grid_nonneg(f: spec_fn(int, int) -> int, m: int, cols: int)
    requires
        forall|r: int, c: int| #[trigger] f(r, c) >= 0,
    ensures
        grid_sum(f, m, cols) >= 0,
    decreases m,
{
    if m > 0 {
        lemma_grid_nonneg(f, m - 1, cols);
        lemma_row_nonneg(f, m - 1, cols);
    }
}

proof fn lemma_row_nonneg(f: spec_fn(int, int) -> int, r: int, n: int)
    requires
        forall|r: int, c: int| #[trigger] f(r, c) >= 0,
    ensures
        row_sum(f, r, n) >= 0,
    decreases n,
{
    if n > 0 {
        lemma_row_nonneg(f, r, n - 1);
    }
}

/// Byte `o` (0 blue, 1 green, 2 red) of the pixel in row `4 r` and column
/// `4 c`, read straight from the rows of the frame.
pub open spec fn pixel_byte(t: &ThumbData, r: int, c: int, o: int) -> int {
    t.bgra@[4 * r * t.stride + 16 * c + o] as int
}

/// The luma of that pixel: `(29 blue + 150 green + 77 red + 128) / 256`.
pub open spec fn pixel_luma_at(t: &ThumbData, r: int, c: int) -> int {
    (29 * t.bgra@[4 * r * t.stride + 16 * c] + 150 * t.bgra@[4 * r * t.stride + 16 * c + 1] + 77
        * t.bgra@[4 * r * t.stride + 16 * c + 2] + 128) / 256
}

/// How far the luma of that pixel is from the one four pixels to its left.
pub open spec fn step_left(t: &ThumbData, r: int, c: int) -> int {
    let (x, y) = (pixel_luma_at(t, r, c), pixel_luma_at(t, r, c - 1));
    if x >= y {
        x - y
    } else {
        y - x
    }
}

/// How far the luma of that pixel is from the one four rows above it.
pub open spec fn step_up(t: &ThumbData, r: int, c: int) -> int {
    let (x, y) = (pixel_luma_at(t, r, c), pixel_luma_at(t, r - 1, c));
    if x >= y {
        x - y
    } else {
        y - x
    }
}

/// The colour bin of that pixel: the top three bits of red, green and blue.
pub open spec fn pixel_bin(t: &ThumbData, r: int, c: int) -> int {
    pixel_byte(t, r, c, 2) / 32 * 64 + pixel_byte(t, r, c, 1) / 32 * 8 + pixel_byte(t, r, c, 0) / 32
}

/// The statistics of a frame are sums over its samples, the pixel at row
/// `4 r` and column `4 c` (bytes blue, green, red at `4 r stride + 16 c`):
/// one per sample; the dark samples (luma at most `BlackThreshold`); the
/// other samples of luma below 180; the luma and its square; each colour
/// and its square; the luma steps to the sample on the left and above
/// (how many, their sum, how many reach `EdgeThreshold`).
pub proof fn lemma_frame_sums_are_sample_sums(t: &ThumbData, cfg: &Settings, st: FrameSums)
    requires
        st.describes(t, cfg),
    ensures
        st.total == grid_sum(|r: int, c: int| 1int, sample_rows(t), sample_cols(t)),
        st.dark == grid_sum(
            |r: int, c: int| if pixel_luma_at(t, r, c) <= cfg.black_threshold { 1int } else { 0 },
            sample_rows(t),
            sample_cols(t),
        ),
        st.mid == grid_sum(
            |r: int, c: int|
                if cfg.black_threshold < pixel_luma_at(t, r, c) < 180 {
                    1int
                } else {
                    0
                },
            sample_rows(t),
            sample_cols(t),
        ),
        st.luma_sum == grid_sum(
            |r: int, c: int| pixel_luma_at(t, r, c),
            sample_rows(t),
            sample_cols(t),
        ),
        st.luma_sq == grid_sum(
            |r: int, c: int| pixel_luma_at(t, r, c) * pixel_luma_at(t, r, c),
            sample_rows(t),
            sample_cols(t),
        ),
        st.b_sum == grid_sum(
            |r: int, c: int| pixel_byte(t, r, c, 0),
            sample_rows(t),
            sample_cols(t),
        ),
        st.g_sum == grid_sum(
            |r: int, c: int| pixel_byte(t, r, c, 1),
            sample_rows(t),
            sample_cols(t),
        ),
        st.r_sum == grid_sum(
            |r: int, c: int| pixel_byte(t, r, c, 2),
            sample_rows(t),
            sample_cols(t),
        ),
        st.b_sq == grid_sum(
            |r: int, c: int| pixel_byte(t, r, c, 0) * pixel_byte(t, r, c, 0),
            sample_rows(t),
            sample_cols(t),
        ),
        st.g_sq == grid_sum(
            |r: int, c: int| pixel_byte(t, r, c, 1) * pixel_byte(t, r, c, 1),
            sample_rows(t),
            sample_cols(t),
        ),
        st.r_sq == grid_sum(
            |r: int, c: int| pixel_byte(t, r, c, 2) * pixel_byte(t, r, c, 2),
            sample_rows(t),
            sample_cols(t),
        ),
        st.grad_count == grid_sum(
            |r: int, c: int| (if c > 0 { 1int } else { 0 }) + (if r > 0 { 1int } else { 0 }),
            sample_rows(t),
            sample_cols(t),
        ),
        st.grad_sum == grid_sum(
            |r: int, c: int|
                (if c > 0 { step_left(t, r, c) } else { 0 }) + (if r > 0 {
                    step_up(t, r, c)
                } else {
                    0
                }),
            sample_rows(t),
            sample_cols(t),
        ),
        st.edge_count == grid_sum(
            |r: int, c: int|
                (if c > 0 && step_left(t, r, c) >= cfg.edge_threshold { 1int } else { 0 }) + (if r
                    > 0 && step_up(t, r, c) >= cfg.edge_threshold {
                    1int
                } else {
                    0
                }),
            sample_rows(t),
            sample_cols(t),
        ),
{
    let thr = cfg.black_threshold as int;
    assert(f_one(t) =~= (|r: int, c: int| 1int));
    assert(f_dark(t, thr) =~= (
        |r: int, c: int| if pixel_luma_at(t, r, c) <= cfg.black_threshold { 1int } else { 0 }
    ));
    assert(f_mid(t, thr) =~= (
        |r: int, c: int| if cfg.black_threshold < pixel_luma_at(t, r, c) < 180 { 1int } else { 0 }
    ));
    assert(f_luma(t) =~= (|r: int, c: int| pixel_luma_at(t, r, c)));
    assert(f_luma_sq(t) =~= (|r: int, c: int| pixel_luma_at(t, r, c) * pixel_luma_at(t, r, c)));
    assert(f_byte(t, 0) =~= (|r: int, c: int| pixel_byte(t, r, c, 0)));
    assert(f_byte(t, 1) =~= (|r: int, c: int| pixel_byte(t, r, c, 1)));
    assert(f_byte(t, 2) =~= (|r: int, c: int| pixel_byte(t, r, c, 2)));
    assert(f_byte_sq(t, 0) =~= (|r: int, c: int| pixel_byte(t, r, c, 0) * pixel_byte(t, r, c, 0)));
    assert(f_byte_sq(t, 1) =~= (|r: int, c: int| pixel_byte(t, r, c, 1) * pixel_byte(t, r, c, 1)));
    assert(f_byte_sq(t, 2) =~= (|r: int, c: int| pixel_byte(t, r, c, 2) * pixel_byte(t, r, c, 2)));
    assert(f_steps(t) =~= (
        |r: int, c: int| (if c > 0 { 1int } else { 0 }) + (if r > 0 { 1int } else { 0 })
    ));
    assert(f_step_sum(t) =~= (
        |r: int, c: int| (if c > 0 { step_left(t, r, c) } else { 0 }) + (if r > 0 { step_up(t, r, c) } else { 0 })
    ));
    assert(f_edges(t, cfg.edge_threshold as int) =~= (
        |r: int, c: int| (if c > 0 && step_left(t, r, c) >= cfg.edge_threshold { 1int } else { 0 }) + (if r > 0 && step_up(t, r, c) >= cfg.edge_threshold { 1int } else { 0 })
    ));
}

/// The fullest colour bin: no bin (top three bits of red, green and blue)
/// holds more samples than `dominant`.
pub proof fn lemma_dominant_is_largest_bin(t: &ThumbData, cfg: &Settings, st: FrameSums, b: int)
    requires
        st.describes(t, cfg),
        0 <= b < 512,
    ensures
        st.dominant >= grid_sum(
            |r: int, c: int| if pixel_bin(t, r, c) == b { 1int } else { 0 },
            sample_rows(t),
            sample_cols(t),
        ),
{
    lemma_max_bin_count(t, 512);
    assert(f_bin(t, b) =~= (|r: int, c: int| if pixel_bin(t, r, c) == b { 1int } else { 0 }));
    assert(st.dominant >= grid_sum(f_bin(t, b), sample_rows(t), sample_cols(t)));
}

/// The fullest colour bin: `dominant` is the number of samples of one bin.
pub proof fn lemma_dominant_is_a_bin(t: &ThumbData, cfg: &Settings, st: FrameSums) -> (b: int)
    requires
        st.describes(t, cfg),
    ensures
        0 <= b < 512,
        st.dominant == grid_sum(
            |r: int, c: int| if pixel_bin(t, r, c) == b { 1int } else { 0 },
            sample_rows(t),
            sample_cols(t),
        ),
{
    lemma_max_bin_count(t, 512);
    let b = choose|b: int|
        0 <= b < 512 && max_bin_count(t, 512) == #[trigger] grid_sum(
            f_bin(t, b),
            sample_rows(t),
            sample_cols(t),
        );
    assert(f_bin(t, b) =~= (|r: int, c: int| if pixel_bin(t, r, c) == b { 1int } else { 0 }));
    b
}

proof fn lemma_grid_single(f: spec_fn(int, int) -> int)
    ensures
        grid_sum(f, 1, 1) == f(0, 0),
{
    assert(grid_sum(f, 0, 1) == 0);
    assert(row_sum(f, 0, 0) == 0);
    assert(row_sum(f, 0, 1) == f(0, 0));
}

proof fn lemma_single_bin_max(t: &ThumbData, n: int)
    requires
        t.width == 1,
        t.height == 1,
        0 <= n <= 512,
        0 <= sample_bin(t, 0, 0) < 512,
    ensures
        max_bin_count(t, n) == if sample_bin(t, 0, 0) < n {
            1int
        } else {
            0
        },
    decreases n,
{
    if n > 0 {
        lemma_single_bin_max(t, n - 1);
        lemma_grid_single(f_bin(t, n - 1));
    }
}

/// A frame of one pixel with blue `b`, green `g` and red `r` has one
/// sample: the sums are `b`, `g`, `r` and the sums of squares `b * b`,
/// `g * g`, `r * r`; the luma `(29 b + 150 g + 77 r + 128) / 256` and its
/// square; it is dark when its luma is at most `BlackThreshold`, a mid-tone
/// when it is above that and below 180; its colour bin holds the one
/// sample; and there are no luma steps.
pub proof fn lemma_one_pixel_frame(t: &ThumbData, cfg: &Settings, st: FrameSums)
    requires
        t.width == 1,
        t.height == 1,
        t.bgra@.len() >= 4,
        st.describes(t, cfg),
    ensures
        ({
            let b = t.bgra@[0] as int;
            let g = t.bgra@[1] as int;
            let r = t.bgra@[2] as int;
            let l = (29 * b + 150 * g + 77 * r + 128) / 256;
            &&& st.total == 1
            &&& st.b_sum == b && st.g_sum == g && st.r_sum == r
            &&& st.b_sq == b * b && st.g_sq == g * g && st.r_sq == r * r
            &&& st.luma_sum == l && st.luma_sq == l * l
            &&& st.dark == if l <= cfg.black_threshold {
                1int
            } else {
                0
            }
            &&& st.mid == if cfg.black_threshold < l < 180 {
                1int
            } else {
                0
            }
            &&& st.dominant == 1
            &&& st.grad_count == 0 && st.grad_sum == 0 && st.edge_count == 0
        }),
{
    let thr = cfg.black_threshold as int;
    assert(sample_rows(t) == 1 && sample_cols(t) == 1);
    lemma_grid_single(f_one(t));
    lemma_grid_single(f_dark(t, thr));
    lemma_grid_single(f_mid(t, thr));
    lemma_grid_single(f_luma(t));
    lemma_grid_single(f_luma_sq(t));
    lemma_grid_single(f_byte(t, 0));
    lemma_grid_single(f_byte(t, 1));
    lemma_grid_single(f_byte(t, 2));
    lemma_grid_single(f_byte_sq(t, 0));
    lemma_grid_single(f_byte_sq(t, 1));
    lemma_grid_single(f_byte_sq(t, 2));
    lemma_grid_single(f_steps(t));
    lemma_grid_single(f_step_sum(t));
    lemma_grid_single(f_edges(t, cfg.edge_threshold as int));
    assert(4 * 0 * t.stride + 16 * 0 == 0) by (nonlinear_arith);
    assert(sample_byte(t, 0, 0, 0) == t.bgra@[0] as int);
    assert(sample_byte(t, 0, 0, 1) == t.bgra@[1] as int);
    assert(sample_byte(t, 0, 0, 2) == t.bgra@[2] as int);
    let (b, g, r) = (t.bgra@[0] as int, t.bgra@[1] as int, t.bgra@[2] as int);
    assert(0 <= sample_bin(t, 0, 0) < 512) by {
        assert(0 <= b / 32 < 8 && 0 <= g / 32 < 8 && 0 <= r / 32 < 8);
    }
    lemma_single_bin_max(t, 512);
}

fn zero_sums() -> (s: FrameSums)
    ensures
        s.is_zero(),
{
    FrameSums {
        total: 0,
        dark: 0,
        mid: 0,
        luma_sum: 0,
        luma_sq: 0,
        b_sum: 0,
        g_sum: 0,
        r_sum: 0,
        b_sq: 0,
        g_sq: 0,
        r_sq: 0,
        dominant: 0,
        edge_count: 0,
        grad_count: 0,
        grad_sum: 0,
    }
}

proof fn lemma_sample_index(r: int, c: int, rows: int, cols: int)
    requires
        0 <= r < rows,
        0 <= c < cols,
    ensures
        r * cols + c + 1 <= rows * cols,
{
    assert(r * cols + c + 1 <= rows * cols) by (nonlinear_arith)
        requires
            0 <= r < rows,
            0 <= c < cols,
    ;
}

proof fn lemma_row_in_bounds(r: int, rows: int, stride: int, len: int)
    requires
        0 <= r < rows,
        stride >= 0,
        (4 * (rows - 1) + 1) * stride <= len,
    ensures
        4 * r * stride + stride <= len,
{
    assert(4 * r * stride + stride <= (4 * (rows - 1) + 1) * stride) by (nonlinear_arith)
        requires
            0 <= r < rows,
            stride >= 0,
    ;
}


proof fn lemma_step(f: spec_fn(int, int) -> int, r: int, c: int, cols: int)
    requires
        c >= 0,
    ensures
        sum_before(f, r, c + 1, cols) == sum_before(f, r, c, cols) + f(r, c),
{
}

/// Adds a sample's luma and colour to the sums.
#[verifier::rlimit(50)]
fn add_colour(
    acc: &mut FrameSums,
    t: &ThumbData,
    cfg: &Settings,
    Ghost(r): Ghost<int>,
    col: usize,
    b: u8,
    g: u8,
    rd: u8,
    l: i32,
)
    requires
        cfg.wf(),
        old(acc).colour_partial(t, cfg, r, col as int),
        old(acc).total < u32::MAX,
        old(acc).colour_bounded(),
        b == sample_byte(t, r, col as int, 0),
        g == sample_byte(t, r, col as int, 1),
        rd == sample_byte(t, r, col as int, 2),
        l == sample_luma(t, r, col as int),
        0 <= l <= 255,
    ensures
        final(acc).colour_partial(t, cfg, r, col + 1),
        final(acc).total == old(acc).total + 1,
        final(acc).colour_bounded(),
        final(acc).edge_count == old(acc).edge_count,
        final(acc).grad_count == old(acc).grad_count,
        final(acc).grad_sum == old(acc).grad_sum,
        final(acc).dominant == old(acc).dominant,
{
    let ghost c = col as int;
    let ghost thr = cfg.black_threshold as int;
    proof {
        let li = l as int;
        let bi = b as int;
        let gi = g as int;
        let ri = rd as int;
        assert(0 <= li * li <= 65025) by (nonlinear_arith)
            requires
                0 <= li <= 255,
        ;
        assert(0 <= bi * bi <= 65025) by (nonlinear_arith)
            requires
                0 <= bi <= 255,
        ;
        assert(0 <= gi * gi <= 65025) by (nonlinear_arith)
            requires
                0 <= gi <= 255,
        ;
        assert(0 <= ri * ri <= 65025) by (nonlinear_arith)
            requires
                0 <= ri <= 255,
        ;
        let cols = sample_cols(t);
        lemma_step(f_one(t), r, c, cols);
        lemma_step(f_dark(t, thr), r, c, cols);
        lemma_step(f_mid(t, thr), r, c, cols);
        lemma_step(f_luma(t), r, c, cols);
        lemma_step(f_luma_sq(t), r, c, cols);
        lemma_step(f_byte(t, 0), r, c, cols);
        lemma_step(f_byte(t, 1), r, c, cols);
        lemma_step(f_byte(t, 2), r, c, cols);
        lemma_step(f_byte_sq(t, 0), r, c, cols);
        lemma_step(f_byte_sq(t, 1), r, c, cols);
        lemma_step(f_byte_sq(t, 2), r, c, cols);
    }
    if l <= cfg.black_threshold {
        acc.dark = acc.dark + 1;
    } else if l < BRIGHT {
        acc.mid = acc.mid + 1;
    }
    acc.luma_sum = acc.luma_sum + l as u64;
    acc.luma_sq = acc.luma_sq + (l * l) as u64;
    acc.b_sum = acc.b_sum + b as u64;
    acc.g_sum = acc.g_sum + g as u64;
    acc.r_sum = acc.r_sum + rd as u64;
    acc.b_sq = acc.b_sq + (b as u64) * (b as u64);
    acc.g_sq = acc.g_sq + (g as u64) * (g as u64);
    acc.r_sq = acc.r_sq + (rd as u64) * (rd as u64);
    acc.total = acc.total + 1;
}

/// Adds a sample's luma steps to the left and upwards.
#[verifier::rlimit(50)]
fn add_steps(
    acc: &mut FrameSums,
    t: &ThumbData,
    cfg: &Settings,
    Ghost(r): Ghost<int>,
    col: usize,
    l8: u8,
    left: u8,
    up: u8,
    have_prev: bool,
)
    requires
        cfg.wf(),
        old(acc).step_partial(t, cfg, r, col as int),
        1 <= old(acc).total <= u32::MAX,
        old(acc).edge_count <= 2 * (old(acc).total - 1),
        old(acc).grad_count <= 2 * (old(acc).total - 1),
        old(acc).grad_sum <= 510 * (old(acc).total - 1),
        have_prev == (r > 0),
        l8 == sample_luma(t, r, col as int),
        col > 0 ==> left == sample_luma(t, r, col - 1),
        r > 0 ==> up == sample_luma(t, r - 1, col as int),
    ensures
        final(acc).step_partial(t, cfg, r, col + 1),
        final(acc).edge_count <= 2 * final(acc).total,
        final(acc).grad_count <= 2 * final(acc).total,
        final(acc).grad_sum <= 510 * final(acc).total,
        final(acc).total == old(acc).total,
        final(acc).dark == old(acc).dark,
        final(acc).mid == old(acc).mid,
        final(acc).luma_sum == old(acc).luma_sum,
        final(acc).luma_sq == old(acc).luma_sq,
        final(acc).b_sum == old(acc).b_sum,
        final(acc).g_sum == old(acc).g_sum,
        final(acc).r_sum == old(acc).r_sum,
        final(acc).b_sq == old(acc).b_sq,
        final(acc).g_sq == old(acc).g_sq,
        final(acc).r_sq == old(acc).r_sq,
        final(acc).dominant == old(acc).dominant,
{
    let ghost c = col as int;
    let edge = cfg.edge_threshold as u64;
    proof {
        let cols = sample_cols(t);
        lemma_step(f_edges(t, cfg.edge_threshold as int), r, c, cols);
        lemma_step(f_steps(t), r, c, cols);
        lemma_step(f_step_sum(t), r, c, cols);
    }
    if col > 0 {
        let d = step_size(l8, left);
        acc.grad_sum = acc.grad_sum + d;
        acc.grad_count = acc.grad_count + 1;
        if d >= edge {
            acc.edge_count = acc.edge_count + 1;
        }
    }
    if have_prev {
        let d = step_size(l8, up);
        acc.grad_sum = acc.grad_sum + d;
        acc.grad_count = acc.grad_count + 1;
        if d >= edge {
            acc.edge_count = acc.edge_count + 1;
        }
    }
}

/// Adds the sample `(r, col)` of row `r` (starting at byte `base`) to the
/// sums, the bins and the luma steps; returns its luma.
fn take_sample(
    t: &ThumbData,
    cfg: &Settings,
    acc: &mut FrameSums,
    bins: &mut Vec<u32>,
    prev: &mut Vec<u8>,
    left: u8,
    base: usize,
    col: usize,
    have_prev: bool,
    Ghost(r): Ghost<int>,
) -> (l8: u8)
    requires
        cfg.wf(),
        measurable(t),
        0 <= r < sample_rows(t),
        col < sample_cols(t),
        have_prev == (r > 0),
        base == 4 * r * t.stride,
        base + t.stride <= t.bgra@.len(),
        4 * col < t.width,
        old(prev)@.len() == sample_cols(t),
        forall|k: int| 0 <= k < col ==> #[trigger] old(prev)@[k] == sample_luma(t, r, k),
        forall|k: int|
            col <= k < sample_cols(t) ==> r > 0 ==> #[trigger] old(prev)@[k] == sample_luma(
                t,
                r - 1,
                k,
            ),
        col > 0 ==> left == sample_luma(t, r, col - 1),
        old(acc).partial(t, cfg, r, col as int),
        old(acc).total < u32::MAX,
        old(acc).bounded(),
        old(bins)@.len() == 512,
        forall|b: int|
            0 <= b < 512 ==> #[trigger] old(bins)@[b] == sum_before(
                f_bin(t, b),
                r,
                col as int,
                sample_cols(t),
            ),
        forall|b: int| 0 <= b < 512 ==> #[trigger] old(bins)@[b] <= old(acc).total,
    ensures
        l8 == sample_luma(t, r, col as int),
        final(prev)@.len() == sample_cols(t),
        forall|k: int| 0 <= k <= col ==> #[trigger] final(prev)@[k] == sample_luma(t, r, k),
        forall|k: int|
            col < k < sample_cols(t) ==> r > 0 ==> #[trigger] final(prev)@[k] == sample_luma(
                t,
                r - 1,
                k,
            ),
        final(acc).partial(t, cfg, r, col + 1),
        final(acc).total == old(acc).total + 1,
        final(acc).bounded(),
        final(bins)@.len() == 512,
        forall|b: int|
            0 <= b < 512 ==> #[trigger] final(bins)@[b] == sum_before(
                f_bin(t, b),
                r,
                col + 1,
                sample_cols(t),
            ),
        forall|b: int| 0 <= b < 512 ==> #[trigger] final(bins)@[b] <= final(acc).total,
{
    assert(16 * col + 3 < t.stride);
    assert(base + 16 * col + 3 < t.bgra.len());
    let at = base + col * 16;
    let b = t.bgra[at];
    let g = t.bgra[at + 1];
    let rd = t.bgra[at + 2];
    assert(b as int == sample_byte(t, r, col as int, 0));
    assert(g as int == sample_byte(t, r, col as int, 1));
    assert(rd as int == sample_byte(t, r, col as int, 2));
    let l = luma_of(b, g, rd);
    let l8 = l as u8;
    add_colour(acc, t, cfg, Ghost(r), col, b, g, rd, l);
    let bin = color_bin(b, g, rd);
    bins.set(bin, bins[bin] + 1);
    proof {
        assert forall|b2: int| 0 <= b2 < 512 implies #[trigger] bins@[b2] == sum_before(
            f_bin(t, b2),
            r,
            col + 1,
            sample_cols(t),
        ) by {
            lemma_step(f_bin(t, b2), r, col as int, sample_cols(t));
        }
    }
    let up = prev[col];
    add_steps(acc, t, cfg, Ghost(r), col, l8, left, up, have_prev);
    prev.set(col, l8);
    l8
}

/// Counts and sums over every fourth pixel of every fourth row of `t`: dark
/// and mid-tone samples, sums and sums of squares of luma and of each
/// colour, the fullest colour bin, and the luma steps between neighbouring
/// samples (how many, their sum, how many reach `EdgeThreshold`).  A frame
/// without pixels, or with rows shorter than its width, gives zeros.
#[verifier::loop_isolation(false)]
#[verifier::rlimit(50)]
pub fn frame_sums(t: &ThumbData, cfg: &Settings) -> (s: FrameSums)
    requires
        cfg.wf(),
        measurable(t) ==> sample_rows(t) * sample_cols(t) <= u32::MAX,
        measurable(t) ==> (4 * (sample_rows(t) - 1) + 1) * t.stride <= t.bgra@.len(),
    ensures
        measurable(t) ==> s.describes(t, cfg),
        !measurable(t) ==> s.is_zero(),
{
    if t.width <= 0 || t.height <= 0 || (t.stride as i64) < (t.width as i64) * 4 || t.bgra.len()
        == 0 {
        return zero_sums();
    }
    let width = t.width as usize;
    let height = t.height as usize;
    let stride = t.stride as usize;
    let cols = (width + 3) / 4;
    let ghost rows = sample_rows(t);
    assert(cols == sample_cols(t));
    let mut acc = zero_sums();
    let mut bins: Vec<u32> = vec![0u32; 512];
    let mut prev: Vec<u8> = vec![0u8; cols];
    let mut have_prev = false;
    let mut y: usize = 0;
    let ghost mut r: int = 0;
    proof {
        lemma_grid_ones(t, 0, cols as int);
    }
    while y < height
        invariant
            y == 4 * r,
            0 <= r <= rows,
            r < rows <==> y < height,
            have_prev == (r > 0),
            prev@.len() == cols,
            forall|k: int| 0 <= k < cols ==> r > 0 ==> #[trigger] prev@[k] == sample_luma(t, r - 1, k),
            acc.partial(t, cfg, r, 0),
            acc.total == r * cols,
            acc.bounded(),
            bins@.len() == 512,
            forall|b: int| 0 <= b < 512 ==> #[trigger] bins@[b] == sum_before(f_bin(t, b), r, 0, cols as int),
            forall|b: int| 0 <= b < 512 ==> #[trigger] bins@[b] <= acc.total,
        decreases rows - r,
    {
        proof {
            lemma_row_in_bounds(r, rows, stride as int, t.bgra@.len() as int);
        }
        let base = y * stride;
        let mut left: u8 = 0;
        let mut x: usize = 0;
        let mut col: usize = 0;
        while x < width
            invariant
                x == 4 * col,
                0 <= col <= cols,
                col < cols <==> x < width,
                base == 4 * r * stride,
                base + stride <= t.bgra@.len(),
                prev@.len() == cols,
                forall|k: int| 0 <= k < col ==> #[trigger] prev@[k] == sample_luma(t, r, k),
                forall|k: int| col <= k < cols ==> r > 0 ==> #[trigger] prev@[k] == sample_luma(t, r - 1, k),
                col > 0 ==> left == sample_luma(t, r, col - 1),
                acc.partial(t, cfg, r, col as int),
                acc.total == r * cols + col,
                acc.bounded(),
                bins@.len() == 512,
                forall|b: int| 0 <= b < 512 ==> #[trigger] bins@[b] == sum_before(f_bin(t, b), r, col as int, cols as int),
                forall|b: int| 0 <= b < 512 ==> #[trigger] bins@[b] <= acc.total,
            decreases cols - col,
        {
            proof {
                lemma_sample_index(r, col as int, rows, cols as int);
            }
            left = take_sample(t, cfg, &mut acc, &mut bins, &mut prev, left, base, col, have_prev, Ghost(r));
            x += 4;
            col += 1;
        }
        proof {
            assert((r + 1) * cols == r * cols + cols) by (nonlinear_arith);
            assert forall|b2: int| 0 <= b2 < 512 implies #[trigger] bins@[b2] == sum_before(f_bin(t, b2), r + 1, 0, cols as int) by {
                assert(grid_sum(f_bin(t, b2), r + 1, cols as int) == grid_sum(f_bin(t, b2), r, cols as int) + row_sum(f_bin(t, b2), r, cols as int));
            }
            r = r + 1;
        }
        have_prev = true;
        y += 4;
    }
    let mut dominant: u32 = 0;
    let mut i: usize = 0;
    while i < 512
        invariant
            i <= 512,
            bins@.len() == 512,
            forall|b: int| 0 <= b < 512 ==> #[trigger] bins@[b] == grid_sum(f_bin(t, b), rows, cols as int),
            dominant == max_bin_count(t, i as int),
        decreases 512 - i,
    {
        if bins[i] > dominant {
            dominant = bins[i];
        }
        i += 1;
    }
    acc.dominant = dominant;
    acc
}

} // verus!
