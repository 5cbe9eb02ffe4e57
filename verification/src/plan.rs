//! Decisions around decoding: which seek positions a video is tried at,
//! which decoders a file is given to and in what order, and the limits on a
//! requested thumbnail.
use crate::entry_name::has_zip_signature;
use crate::frame::frame_analysis_enabled;
use crate::settings::Settings;
use vstd::prelude::*;
use vstd::string::StringSliceAdditionalSpecFns;

verus! {

/// Seek positions closer than this, in microseconds, count as the same.
pub const SEEK_SPACING_US: i64 = 100000;

/// The largest thumbnail box side that is served.
pub const MAX_BOX: i32 = 8192;

/// Whether a thumbnail of at most `max_w` x `max_h` is served at all.
pub fn thumb_box_allowed(max_w: i32, max_h: i32) -> (r: bool)
    ensures
        r == (0 < max_w <= 8192 && 0 < max_h <= 8192),
{
    max_w > 0 && max_h > 0 && max_w <= MAX_BOX && max_h <= MAX_BOX
}

/// `ts` with `t` added, unless `t` is negative, at or past a known
/// `duration`, or within 0.1 s of a position already in `ts`.
pub open spec fn add_seek(ts: Seq<i64>, t: int, duration: int) -> Seq<i64> {
    if t < 0 || (duration > 0 && t >= duration) || (exists|i: int|
        0 <= i < ts.len() && -100000 < #[trigger] ts[i] - t < 100000) {
        ts
    } else {
        ts.push(t as i64)
    }
}

/// The first seek position: `SeekMs`, or a third of the duration when that
/// is known and `SeekMs` lies at or past it.
pub open spec fn first_seek(duration: int, cfg: &Settings) -> int {
    let first = cfg.seek_ms * 1000;
    if duration > 0 && first >= duration {
        duration / 3
    } else {
        first
    }
}

/// `ts` with the fallback seek positions `fb` added in order.
pub open spec fn add_fallback_seeks(ts: Seq<i64>, fb: Seq<i32>, duration: int) -> Seq<i64>
    decreases fb.len(),
{
    if fb.len() == 0 {
        ts
    } else {
        add_seek(add_fallback_seeks(ts, fb.drop_last(), duration), fb.last() * 1000, duration)
    }
}

/// Whether any of the frame checks is switched on.
pub open spec fn analysis_on(cfg: &Settings) -> bool {
    cfg.black_frame_detection || cfg.title_card_detection || cfg.uniform_frame_detection
        || cfg.transition_detection
}

/// The positions, in microseconds, at which a video of `duration`
/// microseconds (not known when not positive) is tried, in order: the
/// first seek position; when a frame check is on, the fallback positions and
/// `FallbackPercent` of a known duration; and the start, unless already
/// there.
pub open spec fn seek_plan(duration: int, cfg: &Settings) -> Seq<i64> {
    let first = first_seek(duration, cfg);
    let a = add_seek(Seq::empty(), if first > 0 {
        first
    } else {
        0
    }, duration);
    let b = if analysis_on(cfg) {
        let f = add_fallback_seeks(a, cfg.fallback_seek_ms@, duration);
        if duration > 0 && cfg.fallback_percent > 0 {
            add_seek(f, duration * cfg.fallback_percent / 100, duration)
        } else {
            f
        }
    } else {
        a
    };
    if b.contains(0) {
        b
    } else {
        b.push(0)
    }
}

fn add_seek_exec(ts: &mut Vec<i64>, t: i64, duration: i64)
    requires
        forall|i: int| 0 <= i < old(ts)@.len() ==> 0 <= #[trigger] old(ts)@[i] <= i64::MAX / 2,
        t <= i64::MAX / 2,
    ensures
        final(ts)@ == add_seek(old(ts)@, t as int, duration as int),
        forall|i: int| 0 <= i < final(ts)@.len() ==> 0 <= #[trigger] final(ts)@[i] <= i64::MAX / 2,
{
    if t < 0 {
        return;
    }
    if duration > 0 && t >= duration {
        return;
    }
    let mut i: usize = 0;
    while i < ts.len()
        invariant
            i <= ts.len(),
            0 <= t <= i64::MAX / 2,
            forall|j: int| 0 <= j < ts@.len() ==> 0 <= #[trigger] ts@[j] <= i64::MAX / 2,
            forall|j: int| 0 <= j < i ==> !(-100000 < #[trigger] ts@[j] - t < 100000),
        decreases ts.len() - i,
    {
        let d = ts[i] - t;
        if -SEEK_SPACING_US < d && d < SEEK_SPACING_US {
            return;
        }
        i += 1;
    }
    ts.push(t);
}

/// The seek positions, in microseconds, at which a video of `duration`
/// microseconds is tried (see `seek_plan`).
pub fn seek_targets(duration: i64, cfg: &Settings) -> (r: Vec<i64>)
    requires
        cfg.wf(),
        analysis_on(cfg) ==> duration * cfg.fallback_percent <= i64::MAX,
    ensures
        r@ == seek_plan(duration as int, cfg),
{
    let mut targets: Vec<i64> = Vec::new();
    let mut first: i64 = cfg.seek_ms as i64 * 1000;
    if duration > 0 && first >= duration {
        first = duration / 3;
    }
    let start = if first > 0 {
        first
    } else {
        0
    };
    add_seek_exec(&mut targets, start, duration);
    if frame_analysis_enabled(cfg) {
        let mut k: usize = 0;
        while k < cfg.fallback_seek_ms.len()
            invariant
                k <= cfg.fallback_seek_ms.len(),
                cfg.wf(),
                targets@ == add_fallback_seeks(
                    add_seek(Seq::empty(), start as int, duration as int),
                    cfg.fallback_seek_ms@.take(k as int),
                    duration as int,
                ),
                forall|i: int| 0 <= i < targets@.len() ==> 0 <= #[trigger] targets@[i] <= i64::MAX / 2,
            decreases cfg.fallback_seek_ms.len() - k,
        {
            let ms = cfg.fallback_seek_ms[k];
            assert(cfg.fallback_seek_ms@.take(k + 1).drop_last() =~= cfg.fallback_seek_ms@.take(
                k as int,
            ));
            add_seek_exec(&mut targets, ms as i64 * 1000, duration);
            k += 1;
        }
        assert(cfg.fallback_seek_ms@.take(cfg.fallback_seek_ms.len() as int)
            =~= cfg.fallback_seek_ms@);
        if duration > 0 && cfg.fallback_percent > 0 {
            assert(duration * cfg.fallback_percent / 100 <= duration) by (nonlinear_arith)
                requires
                    0 < duration,
                    0 < cfg.fallback_percent <= 90,
            ;
            add_seek_exec(&mut targets, duration * cfg.fallback_percent as i64 / 100, duration);
        }
    }
    let mut has_zero = false;
    let mut i: usize = 0;
    while i < targets.len()
        invariant
            i <= targets.len(),
            has_zero == (exists|j: int| 0 <= j < i && targets@[j] == 0),
        decreases targets.len() - i,
    {
        if targets[i] == 0 {
            has_zero = true;
        }
        i += 1;
    }
    if !has_zero {
        targets.push(0);
    }
    targets
}



/// Positions that lie in a video of `duration` microseconds (any
/// non-negative position when the duration is not known).
pub open spec fn within_video(ts: Seq<i64>, duration: int) -> bool {
    forall|i: int| 0 <= i < ts.len() ==> 0 <= #[trigger] ts[i] && (duration > 0 ==> ts[i] < duration)
}

proof fn lemma_add_seek(ts: Seq<i64>, t: int, duration: int)
    requires
        within_video(ts, duration),
        t <= i64::MAX,
    ensures
        within_video(add_seek(ts, t, duration), duration),
        add_seek(ts, t, duration).len() <= ts.len() + 1,
        forall|x: i64| ts.contains(x) ==> add_seek(ts, t, duration).contains(x),
{
    if !(t < 0 || (duration > 0 && t >= duration) || (exists|i: int|
        0 <= i < ts.len() && -100000 < #[trigger] ts[i] - t < 100000)) {
        assert forall|x: i64| ts.contains(x) implies ts.push(t as i64).contains(x) by {
            let i = choose|i: int| 0 <= i < ts.len() && ts[i] == x;
            assert(ts.push(t as i64)[i] == x);
        }
    }
}

proof fn lemma_add_fallback_seeks(ts: Seq<i64>, fb: Seq<i32>, duration: int)
    requires
        within_video(ts, duration),
        forall|i: int| 0 <= i < fb.len() ==> #[trigger] fb[i] <= 600000,
    ensures
        within_video(add_fallback_seeks(ts, fb, duration), duration),
        add_fallback_seeks(ts, fb, duration).len() <= ts.len() + fb.len(),
    decreases fb.len(),
{
    if fb.len() > 0 {
        assert(fb.last() == fb[fb.len() - 1]);
        lemma_add_fallback_seeks(ts, fb.drop_last(), duration);
        lemma_add_seek(add_fallback_seeks(ts, fb.drop_last(), duration), fb.last() * 1000, duration);
    }
}

/// A video is tried at no more than eleven positions, all within the video,
/// and always at its start.
pub proof fn lemma_seek_plan_shape(duration: int, cfg: &Settings)
    requires
        cfg.wf(),
        analysis_on(cfg) ==> duration * cfg.fallback_percent <= i64::MAX,
    ensures
        seek_plan(duration, cfg).contains(0),
        seek_plan(duration, cfg).len() <= 11,
        within_video(seek_plan(duration, cfg), duration),
{
    let first = first_seek(duration, cfg);
    let start = if first > 0 {
        first
    } else {
        0
    };
    lemma_add_seek(Seq::empty(), start, duration);
    let a = add_seek(Seq::empty(), start, duration);
    lemma_add_fallback_seeks(a, cfg.fallback_seek_ms@, duration);
    let f = add_fallback_seeks(a, cfg.fallback_seek_ms@, duration);
    if analysis_on(cfg) && duration > 0 && cfg.fallback_percent > 0 {
        assert(duration * cfg.fallback_percent / 100 <= duration) by (nonlinear_arith)
            requires
                0 < duration,
                0 < cfg.fallback_percent <= 90,
        ;
        lemma_add_seek(f, duration * cfg.fallback_percent / 100, duration);
    }
    let b = if analysis_on(cfg) {
        if duration > 0 && cfg.fallback_percent > 0 {
            add_seek(f, duration * cfg.fallback_percent / 100, duration)
        } else {
            f
        }
    } else {
        a
    };
    if !b.contains(0) {
        assert(b.push(0)[b.len() as int] == 0);
    }
}

/// Whether a position of `ts` lies within 0.1 s of `t` (or is `t`).
pub open spec fn near_planned(ts: Seq<i64>, t: int) -> bool {
    exists|j: int| 0 <= j < ts.len() && -100000 < #[trigger] ts[j] - t < 100000
}

proof fn lemma_add_seek_grows(ts: Seq<i64>, t: int, duration: int)
    ensures
        ts.len() <= add_seek(ts, t, duration).len() <= ts.len() + 1,
        forall|j: int| 0 <= j < ts.len() ==> add_seek(ts, t, duration)[j] == ts[j],
        forall|u: int| near_planned(ts, u) ==> near_planned(add_seek(ts, t, duration), u),
        0 <= t <= i64::MAX && (duration <= 0 || t < duration) ==> near_planned(
            add_seek(ts, t, duration),
            t,
        ),
        forall|j: int|
            0 <= j < add_seek(ts, t, duration).len() ==> j < ts.len() || add_seek(ts, t, duration)[j]
                == t as i64,
{
    let r = add_seek(ts, t, duration);
    assert forall|u: int| near_planned(ts, u) implies near_planned(r, u) by {
        let j = choose|j: int| 0 <= j < ts.len() && -100000 < #[trigger] ts[j] - u < 100000;
        assert(r[j] == ts[j]);
    }
    if 0 <= t <= i64::MAX && (duration <= 0 || t < duration) {
        if r.len() > ts.len() {
            assert(r[ts.len() as int] - t == 0);
        }
    }
}

proof fn lemma_fallbacks_cover(ts: Seq<i64>, fb: Seq<i32>, duration: int)
    ensures
        forall|u: int| near_planned(ts, u) ==> near_planned(add_fallback_seeks(ts, fb, duration), u),
        forall|i: int|
            0 <= i < fb.len() && 0 <= fb[i] * 1000 && (duration <= 0 || fb[i] * 1000 < duration)
                ==> near_planned(add_fallback_seeks(ts, fb, duration), #[trigger] fb[i] * 1000),
        ts.len() <= add_fallback_seeks(ts, fb, duration).len(),
        forall|j: int| 0 <= j < ts.len() ==> add_fallback_seeks(ts, fb, duration)[j] == ts[j],
        forall|j: int|
            #![trigger add_fallback_seeks(ts, fb, duration)[j]]
            0 <= j < add_fallback_seeks(ts, fb, duration).len() ==> j < ts.len() || exists|i: int|
                0 <= i < fb.len() && add_fallback_seeks(ts, fb, duration)[j] == #[trigger] fb[i]
                    * 1000,
    decreases fb.len(),
{
    if fb.len() > 0 {
        let init = fb.drop_last();
        lemma_fallbacks_cover(ts, init, duration);
        let prev = add_fallback_seeks(ts, init, duration);
        let t = fb.last() * 1000;
        lemma_add_seek_grows(prev, t, duration);
        let r = add_fallback_seeks(ts, fb, duration);
        assert forall|i: int|
            0 <= i < fb.len() && 0 <= fb[i] * 1000 && (duration <= 0 || fb[i] * 1000 < duration)
                implies near_planned(r, #[trigger] fb[i] * 1000) by {
            if i < fb.len() - 1 {
                assert(init[i] == fb[i]);
            }
        }
        assert forall|j: int| #![trigger r[j]] 0 <= j < r.len() implies j < ts.len() || exists|i: int|
            0 <= i < fb.len() && r[j] == #[trigger] fb[i] * 1000 by {
            if j >= ts.len() {
                if j < prev.len() {
                    let i = choose|i: int| 0 <= i < init.len() && prev[j] == #[trigger] init[i] * 1000;
                    assert(fb[i] == init[i]);
                } else {
                    assert(r[j] == fb[fb.len() - 1] * 1000);
                }
            }
        }
    }
}

/// Every position the plan is asked for is tried, or one within 0.1 s of
/// it is: the first seek position (`SeekMs`, or a third of a known duration
/// that `SeekMs` reaches), and, with a frame check on, each `FallbackSeekMs`
/// position inside a known duration and the `FallbackPercent` position;
/// the start is always tried; and nothing else is tried.
pub proof fn lemma_seek_plan_covers(duration: int, cfg: &Settings)
    requires
        cfg.wf(),
        duration <= i64::MAX,
    ensures
        ({
            let plan = seek_plan(duration, cfg);
            let first = if duration > 0 && cfg.seek_ms * 1000 >= duration {
                duration / 3
            } else {
                cfg.seek_ms * 1000
            };
            let pct = duration * cfg.fallback_percent / 100;
            let on = cfg.black_frame_detection || cfg.title_card_detection
                || cfg.uniform_frame_detection || cfg.transition_detection;
            &&& near_planned(plan, first)
            &&& on ==> forall|i: int|
                0 <= i < cfg.fallback_seek_ms@.len() && (duration <= 0
                    || cfg.fallback_seek_ms@[i] * 1000 < duration) ==> near_planned(
                    plan,
                    #[trigger] cfg.fallback_seek_ms@[i] * 1000,
                )
            &&& on && duration > 0 && cfg.fallback_percent > 0 ==> near_planned(plan, pct)
            &&& plan.contains(0)
            &&& forall|j: int|
                #![trigger plan[j]]
                0 <= j < plan.len() ==> plan[j] == first || plan[j] == 0 || (on && plan[j] == pct
                    && duration > 0 && cfg.fallback_percent > 0) || (on && exists|i: int|
                    0 <= i < cfg.fallback_seek_ms@.len() && plan[j] == #[trigger] cfg.fallback_seek_ms@[i]
                        * 1000)
        }),
{
    let first = first_seek(duration, cfg);
    let start = if first > 0 {
        first
    } else {
        0
    };
    let a = add_seek(Seq::empty(), start, duration);
    lemma_add_seek_grows(Seq::empty(), start, duration);
    if duration > 0 && cfg.seek_ms * 1000 >= duration {
        assert(0 <= duration / 3 < duration);
    }
    assert(near_planned(a, first)) by {
        if first > 0 {
        } else {
            assert(first == 0);
        }
    }
    let fb = cfg.fallback_seek_ms@;
    lemma_fallbacks_cover(a, fb, duration);
    let f = add_fallback_seeks(a, fb, duration);
    let pct = duration * cfg.fallback_percent / 100;
    let b = if analysis_on(cfg) {
        if duration > 0 && cfg.fallback_percent > 0 {
            assert(0 <= pct < duration) by (nonlinear_arith)
                requires
                    0 < duration,
                    0 < cfg.fallback_percent <= 90,
                    pct == duration * cfg.fallback_percent / 100,
            ;
            lemma_add_seek_grows(f, pct, duration);
            add_seek(f, pct, duration)
        } else {
            f
        }
    } else {
        a
    };
    let plan = seek_plan(duration, cfg);
    assert forall|u: int| near_planned(b, u) implies near_planned(plan, u) by {
        let j = choose|j: int| 0 <= j < b.len() && -100000 < #[trigger] b[j] - u < 100000;
        if !b.contains(0) {
            assert(plan[j] == b[j]);
        }
    }
    if !b.contains(0) {
        assert(plan[b.len() as int] == 0);
    }
    assert forall|j: int| #![trigger plan[j]] 0 <= j < plan.len() implies plan[j] == first || plan[j] == 0 || (
    analysis_on(cfg) && plan[j] == pct && duration > 0 && cfg.fallback_percent > 0) || (
    analysis_on(cfg) && exists|i: int| 0 <= i < fb.len() && plan[j] == #[trigger] fb[i] * 1000) by {
        if j < b.len() {
            assert(plan[j] == b[j]);
            if j >= a.len() {
                if j < f.len() {
                    assert(b[j] == f[j]);
                }
            } else {
                assert(b[j] == a[j]);
                assert(a[j] == start);
            }
        }
    }
}

/// Whether the positions of `ts` other than the start lie 0.1 s apart.
pub open spec fn spaced(ts: Seq<i64>) -> bool {
    forall|i: int, j: int|
        0 <= i < j < ts.len() && ts[i] != 0 && ts[j] != 0 ==> !(-100000 < #[trigger] ts[i]
            - #[trigger] ts[j] < 100000)
}

proof fn lemma_add_seek_spaced(ts: Seq<i64>, t: int, duration: int)
    requires
        spaced(ts),
        0 <= t <= i64::MAX,
    ensures
        spaced(add_seek(ts, t, duration)),
{
    let r = add_seek(ts, t, duration);
    if r.len() > ts.len() {
        assert forall|i: int, j: int|
            0 <= i < j < r.len() && r[i] != 0 && r[j] != 0 implies !(-100000 < #[trigger] r[i]
                - #[trigger] r[j] < 100000) by {
            if j == ts.len() {
                assert(r[i] == ts[i]);
                assert(r[j] == t);
            } else {
                assert(r[i] == ts[i] && r[j] == ts[j]);
            }
        }
    }
}

proof fn lemma_fallbacks_spaced(ts: Seq<i64>, fb: Seq<i32>, duration: int)
    requires
        spaced(ts),
        forall|i: int| 0 <= i < fb.len() ==> 0 < #[trigger] fb[i] <= 600000,
    ensures
        spaced(add_fallback_seeks(ts, fb, duration)),
    decreases fb.len(),
{
    if fb.len() > 0 {
        lemma_fallbacks_spaced(ts, fb.drop_last(), duration);
        assert(fb.last() == fb[fb.len() - 1]);
        lemma_add_seek_spaced(add_fallback_seeks(ts, fb.drop_last(), duration), fb.last() * 1000, duration);
    }
}

/// Apart from the start, the planned positions lie at least 0.1 s apart.
pub proof fn lemma_seek_plan_spaced(duration: int, cfg: &Settings)
    requires
        cfg.wf(),
        duration <= i64::MAX,
    ensures
        forall|i: int, j: int|
            0 <= i < j < seek_plan(duration, cfg).len() && seek_plan(duration, cfg)[i] != 0
                && seek_plan(duration, cfg)[j] != 0 ==> (#[trigger] seek_plan(duration, cfg)[i]
                - #[trigger] seek_plan(duration, cfg)[j] >= 100000 || seek_plan(duration, cfg)[j]
                - seek_plan(duration, cfg)[i] >= 100000),
{
    let first = first_seek(duration, cfg);
    let start = if first > 0 {
        first
    } else {
        0
    };
    if duration > 0 && cfg.seek_ms * 1000 >= duration {
        assert(0 <= duration / 3 < duration);
    }
    assert(spaced(Seq::<i64>::empty()));
    lemma_add_seek_spaced(Seq::empty(), start, duration);
    let a = add_seek(Seq::empty(), start, duration);
    lemma_fallbacks_spaced(a, cfg.fallback_seek_ms@, duration);
    let f = add_fallback_seeks(a, cfg.fallback_seek_ms@, duration);
    let b = if analysis_on(cfg) {
        if duration > 0 && cfg.fallback_percent > 0 {
            let pct = duration * cfg.fallback_percent / 100;
            assert(0 <= pct < duration) by (nonlinear_arith)
                requires
                    0 < duration,
                    0 < cfg.fallback_percent <= 90,
                    pct == duration * cfg.fallback_percent / 100,
            ;
            lemma_add_seek_spaced(f, pct, duration);
            add_seek(f, pct, duration)
        } else {
            f
        }
    } else {
        a
    };
    let plan = seek_plan(duration, cfg);
    assert(spaced(b));
    assert forall|i: int, j: int| 0 <= i < j < plan.len() && plan[i] != 0 && plan[j] != 0 implies (
    #[trigger] plan[i] - #[trigger] plan[j] >= 100000 || plan[j] - plan[i] >= 100000) by {
        if !b.contains(0) && j == b.len() {
            assert(plan[j] == 0);
        } else {
            assert(plan[i] == b[i] && plan[j] == b[j]);
        }
    }
}

/// One way of decoding a file.
#[derive(PartialEq, Eq, Structural, Clone, Copy, Debug)]
pub enum DecodeStep {
    /// The file as a ZIP image sequence.
    Zip,
    /// The file with FFmpeg, by its path as UTF-8.
    Libav,
    /// The file with FFmpeg, by its resolved final path.
    ResolvedLibav,
    /// The resolved final path as a ZIP image sequence.
    ResolvedZip,
}

/// The ways a file is decoded, in order, given the first bytes of its
/// content: a file that starts like a ZIP archive is first read as an image
/// sequence; every file is given to FFmpeg; a file of which fewer than four
/// bytes are known is then read as an image sequence; and, when
/// `ResolveSymlinkFallback` is on, the resolved path is given to FFmpeg and,
/// with ZIP sequences enabled, read as an image sequence.
pub open spec fn decode_steps(content: Seq<u8>, cfg: &Settings) -> Seq<DecodeStep> {
    let zip_hint = content.len() >= 4 && content[0] == 0x50 && content[1] == 0x4B && (
    (content[2] == 3 && content[3] == 4) || (content[2] == 5 && content[3] == 6) || (content[2]
        == 7 && content[3] == 8));
    let known = content.len() >= 4;
    let a = if zip_hint {
        seq![DecodeStep::Zip]
    } else {
        Seq::empty()
    };
    let b = a.push(DecodeStep::Libav);
    let c = if !zip_hint && !known {
        b.push(DecodeStep::Zip)
    } else {
        b
    };
    if cfg.resolve_symlink_fallback {
        if cfg.zip_sequences {
            c.push(DecodeStep::ResolvedLibav).push(DecodeStep::ResolvedZip)
        } else {
            c.push(DecodeStep::ResolvedLibav)
        }
    } else {
        c
    }
}

/// The order of decode attempts: every file is given to FFmpeg by its
/// path; content that starts like a ZIP archive is read as an image
/// sequence first, and then only through its path; known content (four
/// bytes or more) that does not is never read as a sequence by its path;
/// content too short to tell is read as a sequence after FFmpeg; the
/// resolved path is tried, after those, only when `ResolveSymlinkFallback`
/// is on (as a sequence only when ZIP sequences are on).
pub proof fn lemma_decode_order(content: Seq<u8>, cfg: &Settings)
    ensures
        ({
            let steps = decode_steps(content, cfg);
            let zip = content.len() >= 4 && content[0] == 0x50 && content[1] == 0x4B && ((content[2]
                == 3 && content[3] == 4) || (content[2] == 5 && content[3] == 6) || (content[2] == 7
                && content[3] == 8));
            &&& steps.contains(DecodeStep::Libav)
            &&& zip ==> steps[0] == DecodeStep::Zip && steps[1] == DecodeStep::Libav
            &&& !zip ==> steps[0] == DecodeStep::Libav
            &&& (!zip && content.len() >= 4) ==> !steps.contains(DecodeStep::Zip)
            &&& content.len() < 4 ==> steps[1] == DecodeStep::Zip
            &&& steps.contains(DecodeStep::ResolvedLibav) <==> cfg.resolve_symlink_fallback
            &&& steps.contains(DecodeStep::ResolvedZip) <==> (cfg.resolve_symlink_fallback
                && cfg.zip_sequences)
            &&& cfg.resolve_symlink_fallback ==> steps[steps.len() - 1 - (if cfg.zip_sequences {
                1int
            } else {
                0
            })] == DecodeStep::ResolvedLibav
        }),
{
    let steps = decode_steps(content, cfg);
    let zip = content.len() >= 4 && content[0] == 0x50 && content[1] == 0x4B && ((content[2] == 3
        && content[3] == 4) || (content[2] == 5 && content[3] == 6) || (content[2] == 7 && content[3]
        == 8));
    if zip {
        assert(steps[1] == DecodeStep::Libav);
    } else {
        assert(steps[0] == DecodeStep::Libav);
    }
    if !zip && content.len() >= 4 {
        assert forall|i: int| 0 <= i < steps.len() implies steps[i] != DecodeStep::Zip by {}
    }
    if !cfg.resolve_symlink_fallback {
        assert forall|i: int| 0 <= i < steps.len() implies steps[i] != DecodeStep::ResolvedLibav
            && steps[i] != DecodeStep::ResolvedZip by {}
    } else if !cfg.zip_sequences {
        assert(steps[steps.len() - 1] == DecodeStep::ResolvedLibav);
        assert forall|i: int| 0 <= i < steps.len() implies steps[i] != DecodeStep::ResolvedZip by {}
    } else {
        assert(steps[steps.len() - 1] == DecodeStep::ResolvedZip);
        assert(steps[steps.len() - 2] == DecodeStep::ResolvedLibav);
    }
}

/// The ways a file is decoded, in order (see `decode_steps`).
pub fn decode_plan(content: &[u8], cfg: &Settings) -> (r: Vec<DecodeStep>)
    ensures
        r@ == decode_steps(content@, cfg),
{
    let known = content.len() >= 4;
    let zip_hint = has_zip_signature(content);
    let mut steps: Vec<DecodeStep> = Vec::new();
    if zip_hint {
        steps.push(DecodeStep::Zip);
    }
    steps.push(DecodeStep::Libav);
    if !zip_hint && !known {
        steps.push(DecodeStep::Zip);
    }
    if cfg.resolve_symlink_fallback {
        steps.push(DecodeStep::ResolvedLibav);
        if cfg.zip_sequences {
            steps.push(DecodeStep::ResolvedZip);
        }
    }
    assert(steps@ =~= decode_steps(content@, cfg));
    steps
}

/// Decodes a file by trying the steps of `decode_plan` in order with
/// `attempt` and returning the first thumbnail one gives.
pub fn decode_path<T, F: Fn(DecodeStep) -> Option<T>>(content: &[u8], cfg: &Settings, attempt: F) -> (r: Option<T>)
    requires
        forall|s: DecodeStep| attempt.requires((s,)),
    ensures
        r is None ==> forall|k: int|
            0 <= k < decode_steps(content@, cfg).len() ==> attempt.ensures(
                (#[trigger] decode_steps(content@, cfg)[k],),
                None,
            ),
        r is Some ==> exists|k: int|
            0 <= k < decode_steps(content@, cfg).len() && attempt.ensures(
                (#[trigger] decode_steps(content@, cfg)[k],),
                r,
            ) && forall|j: int| 0 <= j < k ==> attempt.ensures((#[trigger] decode_steps(content@, cfg)[j],), None),
{
    let steps = decode_plan(content, cfg);
    let mut i: usize = 0;
    while i < steps.len()
        invariant
            i <= steps.len(),
            steps@ == decode_steps(content@, cfg),
            forall|s: DecodeStep| attempt.requires((s,)),
            forall|j: int| 0 <= j < i ==> attempt.ensures((#[trigger] steps@[j],), None),
        decreases steps.len() - i,
    {
        let out = attempt(steps[i]);
        if out.is_some() {
            return out;
        }
        i += 1;
    }
    None
}

/// What reading from an in-memory file gives.
#[derive(PartialEq, Eq, Structural, Clone, Copy, Debug)]
pub enum MemoryRead {
    /// A negative buffer size.
    Invalid,
    /// Nothing is left, or nothing was asked for.
    EndOfData,
    /// This many bytes, from the position before the read, are copied.
    Copied(usize),
}

/// The read position over `len` bytes of in-memory file data, as FFmpeg's
/// custom I/O reads and seeks it.
pub struct MemoryIo {
    pub len: usize,
    pub pos: usize,
}

impl MemoryIo {
    /// Reads up to `buf_size` bytes: as many as are left, at most
    /// `buf_size`, moving the position past them.
    pub fn read(&mut self, buf_size: i32) -> (r: MemoryRead)
        ensures
            buf_size < 0 ==> r == MemoryRead::Invalid && *final(self) == *old(self),
            buf_size >= 0 && (old(self).pos >= old(self).len || buf_size == 0) ==> r
                == MemoryRead::EndOfData && *final(self) == *old(self),
            buf_size > 0 && old(self).pos < old(self).len ==> {
                let n = if old(self).len - old(self).pos < buf_size {
                    old(self).len - old(self).pos
                } else {
                    buf_size as int
                };
                &&& r == MemoryRead::Copied(n as usize)
                &&& final(self).len == old(self).len
                &&& final(self).pos == old(self).pos + n
            },
    {
        if buf_size < 0 {
            return MemoryRead::Invalid;
        }
        let remaining = if self.len > self.pos {
            self.len - self.pos
        } else {
            0
        };
        if remaining == 0 || buf_size == 0 {
            return MemoryRead::EndOfData;
        }
        let n = if remaining < buf_size as usize {
            remaining
        } else {
            buf_size as usize
        };
        self.pos = self.pos + n;
        MemoryRead::Copied(n)
    }

    /// Seeks as FFmpeg asks: with `size_flag` set in `whence`, only the data
    /// size (at most `i64::MAX`) is returned; otherwise, ignoring
    /// `force_flag`, `whence` 0, 1 or 2 counts `offset` from the start, the
    /// position or the end.  `None` (and no move) for any other `whence`
    /// and for a new position below 0 or above `i64::MAX`.
    pub fn seek(&mut self, offset: i64, whence: i32, size_flag: i32, force_flag: i32) -> (r: Option<i64>)
        ensures
            whence & size_flag != 0 ==> *final(self) == *old(self) && r == Some(
                if old(self).len > i64::MAX {
                    i64::MAX
                } else {
                    old(self).len as i64
                },
            ),
            whence & size_flag == 0 ==> {
                let w = whence & !(size_flag | force_flag);
                let base = if w == 0 {
                    0
                } else if w == 1 {
                    old(self).pos as int
                } else {
                    old(self).len as int
                };
                let target = base + offset;
                if (w == 0 || w == 1 || w == 2) && 0 <= target <= usize::MAX && target <= i64::MAX {
                    r == Some(target as i64) && final(self).pos == target && final(self).len
                        == old(self).len
                } else {
                    r is None && *final(self) == *old(self)
                }
            },
    {
        if (whence & size_flag) != 0 {
            return Some(if self.len as u64 > 0x7fff_ffff_ffff_ffff {
                0x7fff_ffff_ffff_ffff
            } else {
                self.len as i64
            });
        }
        let w = whence & !(size_flag | force_flag);
        let base: i128 = if w == 0 {
            0
        } else if w == 1 {
            self.pos as i128
        } else if w == 2 {
            self.len as i128
        } else {
            return None;
        };
        let target: i128 = base + offset as i128;
        if target < 0 || target > usize::MAX as i128 || target > 0x7fff_ffff_ffff_ffff {
            return None;
        }
        self.pos = target as usize;
        Some(target as i64)
    }
}

/// The extensions the plugin announces to the file manager.
pub const DETECT_STRING: &'static str = "EXT=\"MP4\" | EXT=\"MKV\" | EXT=\"AVI\" | EXT=\"MOV\" | EXT=\"WEBM\" | EXT=\"WMV\" | EXT=\"M4V\" | EXT=\"MPG\" | EXT=\"MPEG\" | EXT=\"TS\" | EXT=\"M2TS\" | EXT=\"FLV\" | EXT=\"VOB\" | EXT=\"3GP\" | EXT=\"OGV\" | EXT=\"ASF\" | EXT=\"RM\" | EXT=\"RMVB\" | EXT=\"F4V\"";

/// The bytes written for the detection string into a buffer of `maxlen`
/// bytes: as much of it as fits before a terminating zero, or nothing for a
/// buffer without room.
pub fn detect_string_bytes(maxlen: i32) -> (r: Option<Vec<u8>>)
    ensures
        maxlen <= 0 ==> r is None,
        maxlen > 0 ==> (r matches Some(v) && v@ == DETECT_STRING.spec_bytes().take(
            if maxlen - 1 < DETECT_STRING.spec_bytes().len() {
                maxlen - 1
            } else {
                DETECT_STRING.spec_bytes().len() as int
            },
        ).push(0)),
{
    if maxlen <= 0 {
        return None;
    }
    let s = DETECT_STRING.as_bytes();
    let n = if ((maxlen - 1) as usize) < s.len() {
        (maxlen - 1) as usize
    } else {
        s.len()
    };
    let mut out: Vec<u8> = Vec::new();
    let mut i: usize = 0;
    while i < n
        invariant
            i <= n <= s@.len(),
            out@ == s@.take(i as int),
        decreases n - i,
    {
        out.push(s[i]);
        assert(s@.take(i + 1) =~= s@.take(i as int).push(s@[i as int]));
        i += 1;
    }
    out.push(0);
    Some(out)
}

} // verus!
