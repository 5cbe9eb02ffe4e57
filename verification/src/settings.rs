//! The plugin's configuration: its defaults, the raw values read from
//! `VideoThumb.ini`, and how those are clamped into effective settings.
use crate::text::chars_of;
use vstd::prelude::*;

verus! {

/// Effective settings of the plugin.
#[derive(Clone)]
pub struct Settings {
    pub cache_mb: i32,
    pub cache_entries: i32,
    pub max_parallel: i32,
    pub decoder_threads: i32,
    pub seek_ms: i32,
    pub timeout_ms: i32,
    pub packet_limit: i32,
    pub black_frame_detection: bool,
    pub black_threshold: i32,
    pub black_pixel_percent: i32,
    pub title_card_detection: bool,
    pub title_card_dark_percent: i32,
    pub title_card_midtone_max_percent: i32,
    pub title_card_mean_luma_max: i32,
    pub uniform_frame_detection: bool,
    pub max_luma_stddev: i32,
    pub max_color_stddev: i32,
    pub dominant_color_percent: i32,
    pub transition_detection: bool,
    pub min_edge_percent: i32,
    pub edge_threshold: i32,
    pub max_mean_gradient: i32,
    pub fallback_seek_ms: Vec<i32>,
    pub fallback_percent: i32,
    pub zip_sequences: bool,
    pub zip_max_entry_mb: i32,
    pub zip_max_candidates: i32,
    pub zip_max_source_mp: i32,
    pub resolve_symlink_fallback: bool,
}

/// The values of `VideoThumb.ini` as read, before clamping: each integer key
/// as the INI reader returned it (with the default of `Settings::default()`
/// where the key is missing), each switch as that integer, and
/// `FallbackSeekMs` as its text.
pub struct IniSettings {
    pub cache_mb: i32,
    pub cache_entries: i32,
    pub max_parallel: i32,
    pub decoder_threads: i32,
    pub seek_ms: i32,
    pub timeout_ms: i32,
    pub packet_limit: i32,
    pub black_frame_detection: i32,
    pub black_threshold: i32,
    pub black_pixel_percent: i32,
    pub title_card_detection: i32,
    pub title_card_dark_percent: i32,
    pub title_card_midtone_max_percent: i32,
    pub title_card_mean_luma_max: i32,
    pub uniform_frame_detection: i32,
    pub max_luma_stddev: i32,
    pub max_color_stddev: i32,
    pub dominant_color_percent: i32,
    pub transition_detection: i32,
    pub min_edge_percent: i32,
    pub edge_threshold: i32,
    pub max_mean_gradient: i32,
    pub fallback_seek_ms: String,
    pub fallback_percent: i32,
    pub zip_sequences: i32,
    pub zip_max_entry_mb: i32,
    pub zip_max_candidates: i32,
    pub zip_max_source_mp: i32,
    pub resolve_symlink_fallback: i32,
}

/// The largest seek position, in milliseconds, that the settings accept.
pub const MAX_SEEK_MS: i32 = 600000;

/// The most fallback seek positions that are kept.
pub const MAX_FALLBACK_SEEKS: usize = 8;

/// `v` raised to at least `lo`, then lowered to at most `hi`.
pub open spec fn clamped(v: int, lo: int, hi: int) -> int {
    let m = if v >= lo {
        v
    } else {
        lo
    };
    if m <= hi {
        m
    } else {
        hi
    }
}

/// Clamping keeps a value inside `lo..=hi` (when `lo <= hi`): a value
/// already inside stays as it is, one below becomes `lo`, one above `hi`.
pub proof fn lemma_clamped(v: int, lo: int, hi: int)
    requires
        lo <= hi,
    ensures
        lo <= clamped(v, lo, hi) <= hi,
        lo <= v <= hi ==> clamped(v, lo, hi) == v,
        v < lo ==> clamped(v, lo, hi) == lo,
        v > hi ==> clamped(v, lo, hi) == hi,
{
}

/// `v` raised to at least `lo`, then lowered to at most `hi` (so `hi` wins
/// when `lo > hi`).
pub fn clamp(v: i32, lo: i32, hi: i32) -> (r: i32)
    ensures
        r == clamped(v as int, lo as int, hi as int),
{
    let m = if v >= lo {
        v
    } else {
        lo
    };
    if m <= hi {
        m
    } else {
        hi
    }
}

impl Settings {
    /// Every value lies in the range that loading clamps it to, and the
    /// fallback seek positions are at most eight distinct positive positions.
    pub open spec fn wf(&self) -> bool {
        &&& 0 <= self.cache_mb <= 1024
        &&& 0 <= self.cache_entries <= 4096
        &&& 1 <= self.max_parallel <= 16
        &&& 0 <= self.decoder_threads <= 32
        &&& 0 <= self.seek_ms <= 600000
        &&& 1000 <= self.timeout_ms <= 120000
        &&& 100 <= self.packet_limit <= 100000
        &&& 0 <= self.black_threshold <= 255
        &&& 50 <= self.black_pixel_percent <= 100
        &&& 40 <= self.title_card_dark_percent <= 100
        &&& 0 <= self.title_card_midtone_max_percent <= 80
        &&& 0 <= self.title_card_mean_luma_max <= 255
        &&& 0 <= self.max_luma_stddev <= 128
        &&& 0 <= self.max_color_stddev <= 128
        &&& 40 <= self.dominant_color_percent <= 100
        &&& 0 <= self.min_edge_percent <= 100
        &&& 1 <= self.edge_threshold <= 255
        &&& 0 <= self.max_mean_gradient <= 255
        &&& valid_fallback_list(self.fallback_seek_ms@)
        &&& 0 <= self.fallback_percent <= 90
        &&& 1 <= self.zip_max_entry_mb <= 512
        &&& 1 <= self.zip_max_candidates <= 128
        &&& 1 <= self.zip_max_source_mp <= 1000
    }
}

/// At most eight distinct seek positions in `1..=600000`.
pub open spec fn valid_fallback_list(s: Seq<i32>) -> bool {
    &&& s.len() <= 8
    &&& forall|i: int| 0 <= i < s.len() ==> 0 < #[trigger] s[i] <= 600000
    &&& forall|i: int, j: int| 0 <= i < j < s.len() ==> s[i] != s[j]
}


/// Unicode `White_Space`, the set that `char::is_whitespace` accepts.
pub open spec fn is_space(c: char) -> bool {
    let v = c as u32;
    ||| 9 <= v <= 13
    ||| v == 32
    ||| v == 0x85
    ||| v == 0xA0
    ||| v == 0x1680
    ||| 0x2000 <= v <= 0x200A
    ||| v == 0x2028
    ||| v == 0x2029
    ||| v == 0x202F
    ||| v == 0x205F
    ||| v == 0x3000
}

/// `s` without its leading white space.
pub open spec fn trim_start(s: Seq<char>) -> Seq<char>
    decreases s.len(),
{
    if s.len() > 0 && is_space(s[0]) {
        trim_start(s.drop_first())
    } else {
        s
    }
}

/// `s` without its trailing white space.
pub open spec fn trim_end(s: Seq<char>) -> Seq<char>
    decreases s.len(),
{
    if s.len() > 0 && is_space(s.last()) {
        trim_end(s.drop_last())
    } else {
        s
    }
}

/// `s` without leading and trailing white space, as `str::trim` gives it.
pub open spec fn trim(s: Seq<char>) -> Seq<char> {
    trim_end(trim_start(s))
}

pub open spec fn is_ascii_digit_char(c: char) -> bool {
    '0' <= c <= '9'
}

/// The decimal value of a string of ASCII digits.
pub open spec fn decimal_value(s: Seq<char>) -> int
    decreases s.len(),
{
    if s.len() == 0 {
        0
    } else {
        decimal_value(s.drop_last()) * 10 + (s.last() as int - '0' as int)
    }
}

/// Whether `s` starts with a sign.
pub open spec fn has_sign(s: Seq<char>) -> bool {
    s.len() > 0 && (s[0] == '+' || s[0] == '-')
}

/// `s` without its leading sign, if it has one.
pub open spec fn unsigned_part(s: Seq<char>) -> Seq<char> {
    if has_sign(s) {
        s.drop_first()
    } else {
        s
    }
}

/// What `str::parse::<i32>` gives: an optional `+` or `-`, then one or more
/// ASCII digits whose value fits in an `i32`.
pub open spec fn parse_i32(s: Seq<char>) -> Option<i32> {
    let digits = unsigned_part(s);
    if digits.len() == 0 || !(forall|i: int|
        0 <= i < digits.len() ==> is_ascii_digit_char(#[trigger] digits[i])) {
        None
    } else if s[0] == '-' {
        if -decimal_value(digits) >= i32::MIN {
            Some((-decimal_value(digits)) as i32)
        } else {
            None
        }
    } else if decimal_value(digits) <= i32::MAX {
        Some(decimal_value(digits) as i32)
    } else {
        None
    }
}

/// The pieces of `s` between commas, as `str::split(',')` gives them.
pub open spec fn split_commas(s: Seq<char>) -> Seq<Seq<char>>
    decreases s.len(),
{
    if s.len() == 0 {
        seq![Seq::empty()]
    } else {
        let p = split_commas(s.drop_last());
        if s.last() == ',' {
            p.push(Seq::empty())
        } else {
            p.update(p.len() - 1, p.last().push(s.last()))
        }
    }
}

/// What one piece adds to the fallback seek positions kept so far: once
/// trimmed, if it parses as an `i32`, that value clamped to `0..=600000` is
/// kept when it is positive and not yet kept; nothing is looked at once
/// eight positions are kept.
pub open spec fn fallback_step(acc: Seq<i32>, piece: Seq<char>) -> Seq<i32> {
    if acc.len() >= 8 {
        acc
    } else {
        match parse_i32(trim(piece)) {
            Some(v) => {
                let w = clamped(v as int, 0, 600000);
                if w > 0 && !acc.contains(w as i32) {
                    acc.push(w as i32)
                } else {
                    acc
                }
            },
            None => acc,
        }
    }
}

/// The fallback seek positions that a list of pieces yields, piece by piece.
pub open spec fn fallback_list(parts: Seq<Seq<char>>) -> Seq<i32>
    decreases parts.len(),
{
    if parts.len() == 0 {
        Seq::empty()
    } else {
        fallback_step(fallback_list(parts.drop_last()), parts.last())
    }
}

/// The fallback seek positions that the text of `FallbackSeekMs` yields.
pub open spec fn fallback_seeks_of(text: Seq<char>) -> Seq<i32> {
    fallback_list(split_commas(text))
}


/// `char::is_whitespace`.
pub fn is_space_char(c: char) -> (r: bool)
    ensures
        r == is_space(c),
{
    let v = c as u32;
    (9 <= v && v <= 13) || v == 32 || v == 0x85 || v == 0xA0 || v == 0x1680 || (0x2000 <= v
        && v <= 0x200A) || v == 0x2028 || v == 0x2029 || v == 0x202F || v == 0x205F || v
        == 0x3000
}

proof fn lemma_decimal_monotone(s: Seq<char>, t: int)
    requires
        0 <= t <= s.len(),
        forall|i: int| 0 <= i < s.len() ==> is_ascii_digit_char(#[trigger] s[i]),
    ensures
        decimal_value(s.take(t)) <= decimal_value(s),
        0 <= decimal_value(s.take(t)),
    decreases s.len() - t,
{
    if t < s.len() {
        lemma_decimal_monotone(s, t + 1);
        assert(s.take(t + 1).drop_last() =~= s.take(t));
        assert(s.take(t + 1).last() == s[t]);
    } else {
        assert(s.take(t) =~= s);
        lemma_decimal_nonneg(s);
    }
}

proof fn lemma_decimal_nonneg(s: Seq<char>)
    requires
        forall|i: int| 0 <= i < s.len() ==> is_ascii_digit_char(#[trigger] s[i]),
    ensures
        0 <= decimal_value(s),
    decreases s.len(),
{
    if s.len() > 0 {
        lemma_decimal_nonneg(s.drop_last());
        assert(is_ascii_digit_char(s[s.len() - 1]));
    }
}

/// What `str::parse::<i32>` gives for `cs[lo..hi]` once trimmed.
#[verifier::loop_isolation(false)]
fn parse_piece(cs: &Vec<char>, lo: usize, hi: usize) -> (r: Option<i32>)
    requires
        lo <= hi <= cs.len(),
    ensures
        r == parse_i32(trim(cs@.subrange(lo as int, hi as int))),
{
    let mut a = lo;
    while a < hi && is_space_char(cs[a])
        invariant
            lo <= a <= hi <= cs.len(),
            trim_start(cs@.subrange(lo as int, hi as int)) == trim_start(
                cs@.subrange(a as int, hi as int),
            ),
        decreases hi - a,
    {
        assert(cs@.subrange(a as int, hi as int).drop_first() =~= cs@.subrange(a + 1, hi as int));
        a += 1;
    }
    let mut b = hi;
    while b > a && is_space_char(cs[b - 1])
        invariant
            lo <= a <= b <= hi <= cs.len(),
            trim_end(cs@.subrange(a as int, hi as int)) == trim_end(
                cs@.subrange(a as int, b as int),
            ),
        decreases b - a,
    {
        assert(cs@.subrange(a as int, b as int).drop_last() =~= cs@.subrange(a as int, b - 1));
        b -= 1;
    }
    let ghost piece = cs@.subrange(a as int, b as int);
    assert(trim(cs@.subrange(lo as int, hi as int)) == piece);
    let mut d = a;
    let mut negative = false;
    if a < b && (cs[a] == '+' || cs[a] == '-') {
        negative = cs[a] == '-';
        d = a + 1;
    }
    let ghost digits = cs@.subrange(d as int, b as int);
    assert(digits =~= unsigned_part(piece));
    assert(piece.len() > 0 ==> piece[0] == cs@[a as int]);
    if d >= b {
        return None;
    }
    let mut k = d;
    while k < b
        invariant
            d <= k <= b <= cs.len(),
            forall|i: int| d <= i < k ==> is_ascii_digit_char(#[trigger] cs@[i]),
        decreases b - k,
    {
        if !('0' <= cs[k] && cs[k] <= '9') {
            assert(!is_ascii_digit_char(digits[k - d]));
            return None;
        }
        k += 1;
    }
    assert(forall|i: int| 0 <= i < digits.len() ==> is_ascii_digit_char(#[trigger] digits[i]));
    let mut value: i64 = 0;
    let mut k = d;
    while k < b
        invariant
            d <= k <= b <= cs.len(),
            digits == cs@.subrange(d as int, b as int),
            forall|i: int| 0 <= i < digits.len() ==> is_ascii_digit_char(#[trigger] digits[i]),
            value == decimal_value(digits.take(k - d)),
            0 <= value <= 2147483648,
        decreases b - k,
    {
        assert(digits.take(k + 1 - d).drop_last() =~= digits.take(k - d));
        assert(digits.take(k + 1 - d).last() == cs@[k as int]);
        let digit = (cs[k] as u32 - '0' as u32) as i64;
        let next = value * 10 + digit;
        if next > 2147483648 {
            proof {
                lemma_decimal_monotone(digits, k + 1 - d);
            }
            return None;
        }
        value = next;
        k += 1;
    }
    assert(digits.take(b - d) =~= digits);
    if negative {
        Some((-value) as i32)
    } else if value <= 2147483647 {
        Some(value as i32)
    } else {
        None
    }
}

fn contains_i32(v: &Vec<i32>, x: i32) -> (r: bool)
    ensures
        r == v@.contains(x),
{
    let mut i: usize = 0;
    while i < v.len()
        invariant
            i <= v.len(),
            forall|j: int| 0 <= j < i ==> v@[j] != x,
        decreases v.len() - i,
    {
        if v[i] == x {
            return true;
        }
        i += 1;
    }
    false
}

/// `fallback_step` on `out` with the piece `cs[lo..hi]`.
fn push_fallback_piece(out: &mut Vec<i32>, cs: &Vec<char>, lo: usize, hi: usize)
    requires
        lo <= hi <= cs.len(),
        valid_fallback_list(old(out)@),
    ensures
        final(out)@ == fallback_step(old(out)@, cs@.subrange(lo as int, hi as int)),
        valid_fallback_list(final(out)@),
{
    if out.len() < MAX_FALLBACK_SEEKS {
        if let Some(v) = parse_piece(cs, lo, hi) {
            let w = clamp(v, 0, MAX_SEEK_MS);
            if w > 0 && !contains_i32(out, w) {
                out.push(w);
            }
        }
    }
}

/// The fallback seek positions that the text of `FallbackSeekMs` yields:
/// each comma-separated piece that parses as an `i32` once trimmed, clamped
/// to `0..=600000`, kept when positive and not yet kept, at most eight.
pub fn parse_fallback_seeks(text: &str) -> (r: Vec<i32>)
    ensures
        r@ == fallback_seeks_of(text@),
        valid_fallback_list(r@),
{
    let cs = chars_of(text);
    let mut out: Vec<i32> = Vec::new();
    let ghost mut done: Seq<Seq<char>> = Seq::empty();
    let mut start: usize = 0;
    let mut i: usize = 0;
    assert(cs@.take(0) =~= Seq::<char>::empty());
    assert(cs@.subrange(0, 0) =~= Seq::<char>::empty());
    while i < cs.len()
        invariant
            start <= i <= cs.len(),
            split_commas(cs@.take(i as int)) == done.push(cs@.subrange(start as int, i as int)),
            out@ == fallback_list(done),
            valid_fallback_list(out@),
        decreases cs.len() - i,
    {
        proof {
            assert(cs@.take(i + 1).drop_last() =~= cs@.take(i as int));
        }
        if cs[i] == ',' {
            let ghost piece = cs@.subrange(start as int, i as int);
            push_fallback_piece(&mut out, &cs, start, i);
            proof {
                let old_done = done;
                done = done.push(piece);
                assert(done.drop_last() =~= old_done);
                assert(cs@.subrange(i + 1, i + 1) =~= Seq::<char>::empty());
            }
            start = i + 1;
        } else {
            proof {
                assert(cs@.subrange(start as int, i + 1) =~= cs@.subrange(start as int, i as int).push(
                    cs@[i as int],
                ));
            }
        }
        i += 1;
    }
    let ghost piece = cs@.subrange(start as int, i as int);
    push_fallback_piece(&mut out, &cs, start, i);
    proof {
        let old_done = done;
        done = done.push(piece);
        assert(done.drop_last() =~= old_done);
        assert(cs@.take(i as int) =~= cs@);
    }
    out
}

impl Default for Settings {
    fn default() -> (s: Self)
        ensures
            s.cache_mb == 96,
            s.cache_entries == 256,
            s.max_parallel == 2,
            s.decoder_threads == 2,
            s.seek_ms == 1000,
            s.timeout_ms == 12000,
            s.packet_limit == 5000,
            s.black_frame_detection,
            s.black_threshold == 20,
            s.black_pixel_percent == 95,
            s.title_card_detection,
            s.title_card_dark_percent == 70,
            s.title_card_midtone_max_percent == 20,
            s.title_card_mean_luma_max == 70,
            s.uniform_frame_detection,
            s.max_luma_stddev == 18,
            s.max_color_stddev == 16,
            s.dominant_color_percent == 82,
            s.transition_detection,
            s.min_edge_percent == 2,
            s.edge_threshold == 20,
            s.max_mean_gradient == 7,
            s.fallback_seek_ms@ == seq![3000i32, 5000, 10000],
            s.fallback_percent == 10,
            s.zip_sequences,
            s.zip_max_entry_mb == 64,
            s.zip_max_candidates == 16,
            s.zip_max_source_mp == 100,
            !s.resolve_symlink_fallback,
            s.wf(),
    {
        let mut fallback: Vec<i32> = Vec::new();
        fallback.push(3000);
        fallback.push(5000);
        fallback.push(10000);
        Settings {
            cache_mb: 96,
            cache_entries: 256,
            max_parallel: 2,
            decoder_threads: 2,
            seek_ms: 1000,
            timeout_ms: 12000,
            packet_limit: 5000,
            black_frame_detection: true,
            black_threshold: 20,
            black_pixel_percent: 95,
            title_card_detection: true,
            title_card_dark_percent: 70,
            title_card_midtone_max_percent: 20,
            title_card_mean_luma_max: 70,
            uniform_frame_detection: true,
            max_luma_stddev: 18,
            max_color_stddev: 16,
            dominant_color_percent: 82,
            transition_detection: true,
            min_edge_percent: 2,
            edge_threshold: 20,
            max_mean_gradient: 7,
            fallback_seek_ms: fallback,
            fallback_percent: 10,
            zip_sequences: true,
            zip_max_entry_mb: 64,
            zip_max_candidates: 16,
            zip_max_source_mp: 100,
            resolve_symlink_fallback: false,
        }
    }
}


/// The effective settings for the values read from `VideoThumb.ini`: each
/// integer clamped to its range, each switch on when its value is not 0, and
/// the fallback seek positions parsed from their text.
pub fn load_settings(ini: &IniSettings) -> (s: Settings)
    ensures
        s.cache_mb == clamped(ini.cache_mb as int, 0, 1024),
        s.cache_entries == clamped(ini.cache_entries as int, 0, 4096),
        s.max_parallel == clamped(ini.max_parallel as int, 1, 16),
        s.decoder_threads == clamped(ini.decoder_threads as int, 0, 32),
        s.seek_ms == clamped(ini.seek_ms as int, 0, 600000),
        s.timeout_ms == clamped(ini.timeout_ms as int, 1000, 120000),
        s.packet_limit == clamped(ini.packet_limit as int, 100, 100000),
        s.black_frame_detection == (ini.black_frame_detection != 0),
        s.black_threshold == clamped(ini.black_threshold as int, 0, 255),
        s.black_pixel_percent == clamped(ini.black_pixel_percent as int, 50, 100),
        s.title_card_detection == (ini.title_card_detection != 0),
        s.title_card_dark_percent == clamped(ini.title_card_dark_percent as int, 40, 100),
        s.title_card_midtone_max_percent == clamped(
            ini.title_card_midtone_max_percent as int,
            0,
            80,
        ),
        s.title_card_mean_luma_max == clamped(ini.title_card_mean_luma_max as int, 0, 255),
        s.uniform_frame_detection == (ini.uniform_frame_detection != 0),
        s.max_luma_stddev == clamped(ini.max_luma_stddev as int, 0, 128),
        s.max_color_stddev == clamped(ini.max_color_stddev as int, 0, 128),
        s.dominant_color_percent == clamped(ini.dominant_color_percent as int, 40, 100),
        s.transition_detection == (ini.transition_detection != 0),
        s.min_edge_percent == clamped(ini.min_edge_percent as int, 0, 100),
        s.edge_threshold == clamped(ini.edge_threshold as int, 1, 255),
        s.max_mean_gradient == clamped(ini.max_mean_gradient as int, 0, 255),
        s.fallback_seek_ms@ == fallback_seeks_of(ini.fallback_seek_ms@),
        s.fallback_percent == clamped(ini.fallback_percent as int, 0, 90),
        s.zip_sequences == (ini.zip_sequences != 0),
        s.zip_max_entry_mb == clamped(ini.zip_max_entry_mb as int, 1, 512),
        s.zip_max_candidates == clamped(ini.zip_max_candidates as int, 1, 128),
        s.zip_max_source_mp == clamped(ini.zip_max_source_mp as int, 1, 1000),
        s.resolve_symlink_fallback == (ini.resolve_symlink_fallback != 0),
        s.wf(),
{
    Settings {
        cache_mb: clamp(ini.cache_mb, 0, 1024),
        cache_entries: clamp(ini.cache_entries, 0, 4096),
        max_parallel: clamp(ini.max_parallel, 1, 16),
        decoder_threads: clamp(ini.decoder_threads, 0, 32),
        seek_ms: clamp(ini.seek_ms, 0, MAX_SEEK_MS),
        timeout_ms: clamp(ini.timeout_ms, 1000, 120000),
        packet_limit: clamp(ini.packet_limit, 100, 100000),
        black_frame_detection: ini.black_frame_detection != 0,
        black_threshold: clamp(ini.black_threshold, 0, 255),
        black_pixel_percent: clamp(ini.black_pixel_percent, 50, 100),
        title_card_detection: ini.title_card_detection != 0,
        title_card_dark_percent: clamp(ini.title_card_dark_percent, 40, 100),
        title_card_midtone_max_percent: clamp(ini.title_card_midtone_max_percent, 0, 80),
        title_card_mean_luma_max: clamp(ini.title_card_mean_luma_max, 0, 255),
        uniform_frame_detection: ini.uniform_frame_detection != 0,
        max_luma_stddev: clamp(ini.max_luma_stddev, 0, 128),
        max_color_stddev: clamp(ini.max_color_stddev, 0, 128),
        dominant_color_percent: clamp(ini.dominant_color_percent, 40, 100),
        transition_detection: ini.transition_detection != 0,
        min_edge_percent: clamp(ini.min_edge_percent, 0, 100),
        edge_threshold: clamp(ini.edge_threshold, 1, 255),
        max_mean_gradient: clamp(ini.max_mean_gradient, 0, 255),
        fallback_seek_ms: parse_fallback_seeks(ini.fallback_seek_ms.as_str()),
        fallback_percent: clamp(ini.fallback_percent, 0, 90),
        zip_sequences: ini.zip_sequences != 0,
        zip_max_entry_mb: clamp(ini.zip_max_entry_mb, 1, 512),
        zip_max_candidates: clamp(ini.zip_max_candidates, 1, 128),
        zip_max_source_mp: clamp(ini.zip_max_source_mp, 1, 1000),
        resolve_symlink_fallback: ini.resolve_symlink_fallback != 0,
    }
}

} // verus!
