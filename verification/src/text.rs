//! Small verified helpers on text: the characters of a string, and its
//! UTF-16 form as Win32 wants it.
use vstd::prelude::*;

verus! {

/// The characters of `s`, in order.
pub fn chars_of(s: &str) -> (r: Vec<char>)
    ensures
        r@ == s@,
{
    let mut out: Vec<char> = Vec::new();
    for c in it: s.chars()
        invariant
            out@ == it.seq().take(it.index()),
    {
        out.push(c);
    }
    out
}


/// The UTF-16 code units of one character.
pub open spec fn utf16_units(c: char) -> Seq<u16> {
    let v = c as u32;
    if v < 0x10000 {
        seq![v as u16]
    } else {
        seq![(0xD800 + (v - 0x10000) / 1024) as u16, (0xDC00 + (v - 0x10000) % 1024) as u16]
    }
}

/// The UTF-16 encoding of a character sequence.
pub open spec fn utf16_of(s: Seq<char>) -> Seq<u16>
    decreases s.len(),
{
    if s.len() == 0 {
        Seq::empty()
    } else {
        utf16_of(s.drop_last()) + utf16_units(s.last())
    }
}

/// `s` in UTF-16 followed by a terminating zero unit, as the wide-string
/// Win32 functions want it.
pub fn wide_z(s: &str) -> (r: Vec<u16>)
    ensures
        r@ == utf16_of(s@).push(0),
{
    let cs = chars_of(s);
    let mut out: Vec<u16> = Vec::new();
    let mut i: usize = 0;
    while i < cs.len()
        invariant
            i <= cs.len(),
            cs@ == s@,
            out@ == utf16_of(cs@.take(i as int)),
        decreases cs.len() - i,
    {
        let c = cs[i];
        let v = c as u32;
        proof {
            vstd::utf8::char_is_scalar(c);
        }
        if v < 0x10000 {
            out.push(v as u16);
        } else {
            let w = v - 0x10000;
            out.push((0xD800 + w / 1024) as u16);
            out.push((0xDC00 + w % 1024) as u16);
        }
        assert(cs@.take(i + 1).drop_last() =~= cs@.take(i as int));
        i += 1;
    }
    assert(cs@.take(cs.len() as int) =~= cs@);
    out.push(0);
    out
}

/// A path given by its UTF-16 units, followed by a terminating zero unit.
pub fn path_wide_z(units: &[u16]) -> (r: Vec<u16>)
    ensures
        r@ == units@.push(0),
{
    let mut out: Vec<u16> = Vec::new();
    let mut i: usize = 0;
    while i < units.len()
        invariant
            i <= units.len(),
            out@ == units@.take(i as int),
        decreases units.len() - i,
    {
        out.push(units[i]);
        assert(units@.take(i + 1) =~= units@.take(i as int).push(units@[i as int]));
        i += 1;
    }
    assert(units@.take(units.len() as int) =~= units@);
    out.push(0);
    out
}

/// `\\?\UNC\` in UTF-16.
pub open spec fn verbatim_unc_prefix() -> Seq<u16> {
    seq![92u16, 92, 63, 92, 85, 78, 67, 92]
}

/// `\\?\` in UTF-16.
pub open spec fn verbatim_prefix() -> Seq<u16> {
    seq![92u16, 92, 63, 92]
}

/// The usual spelling of a path that Windows gives in verbatim form:
/// `\\?\UNC\server\share` becomes `\\server\share`, `\\?\C:\x` becomes
/// `C:\x`, and any other path is kept.
pub open spec fn plain_path(w: Seq<u16>) -> Seq<u16> {
    if w.len() >= 8 && w.take(8) == verbatim_unc_prefix() {
        seq![92u16, 92] + w.skip(8)
    } else if w.len() >= 4 && w.take(4) == verbatim_prefix() {
        w.skip(4)
    } else {
        w
    }
}

/// Whether `w` starts with the units of `p`.
fn starts_with_units(w: &[u16], p: &[u16]) -> (r: bool)
    ensures
        r == (w@.len() >= p@.len() && w@.take(p@.len() as int) == p@),
{
    if w.len() < p.len() {
        return false;
    }
    let mut i: usize = 0;
    while i < p.len()
        invariant
            i <= p.len() <= w.len(),
            forall|j: int| 0 <= j < i ==> w@[j] == p@[j],
        decreases p.len() - i,
    {
        if w[i] != p[i] {
            assert(w@.take(p@.len() as int)[i as int] != p@[i as int]);
            return false;
        }
        i += 1;
    }
    assert(w@.take(p@.len() as int) =~= p@);
    true
}

/// The path `w` without a verbatim prefix (see `plain_path`).
pub fn strip_verbatim_prefix(w: &[u16]) -> (r: Vec<u16>)
    ensures
        r@ == plain_path(w@),
{
    let unc: [u16; 8] = [92, 92, 63, 92, 85, 78, 67, 92];
    let plain: [u16; 4] = [92, 92, 63, 92];
    assert(unc@ =~= verbatim_unc_prefix());
    assert(plain@ =~= verbatim_prefix());
    let mut out: Vec<u16> = Vec::new();
    let start: usize = if starts_with_units(w, &unc) {
        out.push(92);
        out.push(92);
        8
    } else if starts_with_units(w, &plain) {
        4
    } else {
        0
    };
    let ghost head = out@;
    let mut i: usize = start;
    while i < w.len()
        invariant
            start <= i <= w.len(),
            out@ == head + w@.subrange(start as int, i as int),
        decreases w.len() - i,
    {
        out.push(w[i]);
        assert(w@.subrange(start as int, i + 1) =~= w@.subrange(start as int, i as int).push(
            w@[i as int],
        ));
        i += 1;
    }
    assert(w@.subrange(start as int, w.len() as int) =~= w@.skip(start as int));
    assert(start == 0 ==> w@.skip(0) =~= w@);
    assert(start == 8 ==> head =~= seq![92u16, 92]);
    out
}

/// UTF-16 encodes each character so that it can be read back: a character
/// below `0x10000` is one unit holding its code; any other is a high
/// surrogate (`0xD800..0xDC00`) then a low one (`0xDC00..0xE000`) from
/// which `0x10000 + (high - 0xD800) * 1024 + (low - 0xDC00)` gives the
/// code back.
pub proof fn lemma_utf16_units_decode(c: char)
    ensures
        (c as u32) < 0x10000 ==> utf16_units(c) == seq![c as u32 as u16],
        (c as u32) >= 0x10000 ==> {
            let u = utf16_units(c);
            &&& u.len() == 2
            &&& 0xD800 <= u[0] < 0xDC00
            &&& 0xDC00 <= u[1] < 0xE000
            &&& 0x10000 + (u[0] - 0xD800) * 1024 + (u[1] - 0xDC00) == c as u32
        },
{
    vstd::utf8::char_is_scalar(c);
}

/// What dropping a verbatim prefix gives: `\\?\UNC\` followed by `rest`
/// becomes `\\` followed by `rest`; `\\?\` followed by a `rest` that does
/// not start with `UNC\` becomes `rest`; a path without either prefix stays
/// as it is.
pub proof fn lemma_plain_path(rest: Seq<u16>, w: Seq<u16>)
    ensures
        plain_path(seq![92u16, 92, 63, 92, 85, 78, 67, 92] + rest) == seq![92u16, 92] + rest,
        !(rest.len() >= 4 && rest.take(4) == seq![85u16, 78, 67, 92]) ==> plain_path(
            seq![92u16, 92, 63, 92] + rest,
        ) == rest,
        !(w.len() >= 4 && w.take(4) == seq![92u16, 92, 63, 92]) ==> plain_path(w) == w,
{
    let a = seq![92u16, 92, 63, 92, 85, 78, 67, 92] + rest;
    assert(a.take(8) =~= verbatim_unc_prefix());
    assert(a.skip(8) =~= rest);
    let b = seq![92u16, 92, 63, 92] + rest;
    assert(b.take(4) =~= verbatim_prefix());
    assert(b.skip(4) =~= rest);
    if b.len() >= 8 && b.take(8) == verbatim_unc_prefix() {
        assert forall|i: int| 0 <= i < 4 implies rest[i] == verbatim_unc_prefix()[4 + i] by {
            assert(b[4 + i] == rest[i]);
            assert(b.take(8)[4 + i] == b[4 + i]);
        }
        assert(rest.take(4) =~= seq![85u16, 78, 67, 92]);
    }
    if w.len() >= 8 && w.take(8) == verbatim_unc_prefix() {
        assert forall|i: int| 0 <= i < 4 implies w[i] == verbatim_unc_prefix()[i] by {
            assert(w.take(8)[i] == w[i]);
        }
        assert(w.take(4) =~= seq![92u16, 92, 63, 92]);
    }
}

} // verus!
