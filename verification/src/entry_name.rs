//! Which archive entries are images: the extension of the last component of
//! an entry name, read the way a Windows path is read.
use crate::text::chars_of;
use vstd::prelude::*;

verus! {

/// A separator of a Windows path: `\` or `/`, but only `\` in a verbatim
/// (`\\?\`) path.
pub open spec fn is_path_sep(c: char, verbatim: bool) -> bool {
    c == '\\' || (!verbatim && c == '/')
}

/// An ASCII letter.
pub open spec fn is_ascii_alpha(c: char) -> bool {
    ('a' <= c <= 'z') || ('A' <= c <= 'Z')
}

/// `s[i]` as the prefix of a path is matched: among the first eight
/// characters a `/` counts as `\`.
pub open spec fn prefix_char(s: Seq<char>, i: int) -> char {
    if i < 8 && s[i] == '/' {
        '\\'
    } else {
        s[i]
    }
}

/// Where the component that starts at `i` ends: at the first separator
/// from `i` on, or at the end of `s`.
pub open spec fn component_end(s: Seq<char>, i: int, verbatim: bool) -> int
    decreases s.len() - i,
{
    if i >= s.len() {
        s.len() as int
    } else if is_path_sep(s[i], verbatim) {
        i
    } else {
        component_end(s, i + 1, verbatim)
    }
}

/// A drive `X:` exactly at `i`: followed by `\` or by nothing.
pub open spec fn exact_drive_at(s: Seq<char>, i: int) -> bool {
    &&& i + 2 <= s.len()
    &&& is_ascii_alpha(s[i])
    &&& s[i + 1] == ':'
    &&& (i + 2 == s.len() || s[i + 2] == '\\')
}

/// The Windows prefix of a path, as its length and whether it is verbatim:
/// `\\?\UNC\server\share`, `\\?\C:` and `\\?\name` (verbatim, where
/// only `\` separates); `\\.\device`; `\\server\share` when both are not
/// empty; a drive `C:`; or none (length 0).  `\\`, `?\`, `.\` and `UNC\` may
/// be written with `/` among the first eight characters, except that a `/`
/// among the first four makes a path not verbatim.
pub open spec fn path_prefix(s: Seq<char>) -> (int, bool) {
    if s.len() >= 2 && prefix_char(s, 0) == '\\' && prefix_char(s, 1) == '\\' {
        if s.len() >= 4 && prefix_char(s, 2) == '?' && prefix_char(s, 3) == '\\' && s[0] != '/'
            && s[1] != '/' && s[3] != '/' {
            if s.len() >= 8 && prefix_char(s, 4) == 'U' && prefix_char(s, 5) == 'N' && prefix_char(
                s,
                6,
            ) == 'C' && prefix_char(s, 7) == '\\' {
                let se = component_end(s, 8, true);
                let sh = if se < s.len() {
                    component_end(s, se + 1, true) - (se + 1)
                } else {
                    0
                };
                (
                    se + if sh > 0 {
                        1 + sh
                    } else {
                        0
                    },
                    true,
                )
            } else if exact_drive_at(s, 4) {
                (6, true)
            } else {
                (component_end(s, 4, true), true)
            }
        } else if s.len() >= 4 && prefix_char(s, 2) == '.' && prefix_char(s, 3) == '\\' {
            (component_end(s, 4, false), false)
        } else {
            let se = component_end(s, 2, false);
            if se > 2 && se < s.len() && component_end(s, se + 1, false) > se + 1 {
                (component_end(s, se + 1, false), false)
            } else {
                (0, false)
            }
        }
    } else if s.len() >= 2 && is_ascii_alpha(s[0]) && s[1] == ':' {
        (2, false)
    } else {
        (0, false)
    }
}

/// The last separator in `s[lo..hi]`, or `lo - 1` when there is none.
pub open spec fn last_sep(s: Seq<char>, lo: int, hi: int, verbatim: bool) -> int
    decreases hi - lo,
{
    if hi <= lo {
        lo - 1
    } else if is_path_sep(s[hi - 1], verbatim) {
        hi - 1
    } else {
        last_sep(s, lo, hi - 1, verbatim)
    }
}

/// The bounds of the last component of `s[lo..hi]` that is not empty (nor
/// `.`, outside verbatim paths, where `.` components are dropped), if there
/// is one: the file name of the path.
pub open spec fn file_name_bounds(s: Seq<char>, lo: int, hi: int, verbatim: bool) -> Option<
    (int, int),
>
    decreases hi - lo,
{
    let p = last_sep(s, lo, hi, verbatim);
    if hi - (p + 1) > 0 && !(!verbatim && hi - (p + 1) == 1 && s[p + 1] == '.') {
        Some((p + 1, hi))
    } else if p < lo || hi <= lo {
        None
    } else {
        proof {
            lemma_last_sep(s, lo, hi, verbatim);
        }
        file_name_bounds(s, lo, p, verbatim)
    }
}

/// The last `.` in `s[lo..hi]`, or `lo - 1` when there is none.
pub open spec fn last_dot(s: Seq<char>, lo: int, hi: int) -> int
    decreases hi - lo,
{
    if hi <= lo {
        lo - 1
    } else if s[hi - 1] == '.' {
        hi - 1
    } else {
        last_dot(s, lo, hi - 1)
    }
}

/// ASCII lower-casing of a character.
pub open spec fn lower_char(c: char) -> char {
    if 'A' <= c <= 'Z' {
        ((c as u32) + 32) as char
    } else {
        c
    }
}

/// The extensions, in lower case, of the image formats an archive entry may
/// have.
pub open spec fn is_image_extension(e: Seq<char>) -> bool {
    ||| e == seq!['j', 'p', 'g']
    ||| e == seq!['j', 'p', 'e', 'g']
    ||| e == seq!['p', 'n', 'g']
    ||| e == seq!['b', 'm', 'p']
    ||| e == seq!['g', 'i', 'f']
    ||| e == seq!['t', 'i', 'f']
    ||| e == seq!['t', 'i', 'f', 'f']
    ||| e == seq!['w', 'e', 'b', 'p']
    ||| e == seq!['h', 'e', 'i', 'c']
    ||| e == seq!['h', 'e', 'i', 'f']
}

/// Whether an entry name names an image: its file name (after the Windows
/// prefix of the path, which is no file name) has an extension
/// (text after the last `.`, which must not be the first character of the
/// file name) that is, ignoring ASCII case, one of the image extensions.
pub open spec fn names_image(s: Seq<char>) -> bool {
    let pre = path_prefix(s);
    match file_name_bounds(s, pre.0, s.len() as int, pre.1) {
        Some((a, e)) => {
            let d = last_dot(s, a, e);
            d > a && is_image_extension(s.subrange(d + 1, e).map_values(|c: char| lower_char(c)))
        },
        None => false,
    }
}

pub proof fn lemma_last_sep(s: Seq<char>, lo: int, hi: int, verbatim: bool)
    requires
        lo <= hi,
    ensures
        lo - 1 <= last_sep(s, lo, hi, verbatim) < hi,
    decreases hi - lo,
{
    if hi > lo && !is_path_sep(s[hi - 1], verbatim) {
        lemma_last_sep(s, lo, hi - 1, verbatim);
    }
}

proof fn lemma_last_dot(s: Seq<char>, lo: int, hi: int)
    requires
        lo <= hi,
    ensures
        lo - 1 <= last_dot(s, lo, hi) < hi,
    decreases hi - lo,
{
    if hi > lo && s[hi - 1] != '.' {
        lemma_last_dot(s, lo, hi - 1);
    }
}

proof fn lemma_file_name_bounds(s: Seq<char>, lo: int, hi: int, verbatim: bool)
    requires
        0 <= lo <= hi <= s.len(),
    ensures
        file_name_bounds(s, lo, hi, verbatim) matches Some((a, e)) ==> lo <= a < e <= hi,
    decreases hi - lo,
{
    lemma_last_sep(s, lo, hi, verbatim);
    let p = last_sep(s, lo, hi, verbatim);
    if hi - (p + 1) > 0 && !(!verbatim && hi - (p + 1) == 1 && s[p + 1] == '.') {
    } else if p < lo || hi <= lo {
    } else {
        lemma_file_name_bounds(s, lo, p, verbatim);
    }
}

proof fn lemma_component_end(s: Seq<char>, i: int, verbatim: bool)
    requires
        0 <= i <= s.len(),
    ensures
        i <= component_end(s, i, verbatim) <= s.len(),
    decreases s.len() - i,
{
    if i < s.len() && !is_path_sep(s[i], verbatim) {
        lemma_component_end(s, i + 1, verbatim);
    }
}

/// Where the component of `cs` that starts at `i` ends.
fn component_end_exec(cs: &Vec<char>, i: usize, verbatim: bool) -> (r: usize)
    requires
        i <= cs.len(),
    ensures
        r == component_end(cs@, i as int, verbatim),
        i <= r <= cs.len(),
{
    proof {
        lemma_component_end(cs@, i as int, verbatim);
    }
    let mut j = i;
    while j < cs.len() && !(cs[j] == '\\' || (!verbatim && cs[j] == '/'))
        invariant
            i <= j <= cs.len(),
            component_end(cs@, i as int, verbatim) == component_end(cs@, j as int, verbatim),
        decreases cs.len() - j,
    {
        j += 1;
    }
    j
}

/// `cs[i]` as the prefix of a path is matched (see `prefix_char`).
fn prefix_char_exec(cs: &Vec<char>, i: usize) -> (r: char)
    requires
        i < cs.len(),
    ensures
        r == prefix_char(cs@, i as int),
{
    if i < 8 && cs[i] == '/' {
        '\\'
    } else {
        cs[i]
    }
}

/// The Windows prefix of `cs` (see `path_prefix`).
fn path_prefix_exec(cs: &Vec<char>) -> (r: (usize, bool))
    ensures
        r.0 == path_prefix(cs@).0,
        r.1 == path_prefix(cs@).1,
        r.0 <= cs.len(),
{
    let n = cs.len();
    if n >= 2 && prefix_char_exec(cs, 0) == '\\' && prefix_char_exec(cs, 1) == '\\' {
        if n >= 4 && prefix_char_exec(cs, 2) == '?' && prefix_char_exec(cs, 3) == '\\' && cs[0]
            != '/' && cs[1] != '/' && cs[3] != '/' {
            if n >= 8 && prefix_char_exec(cs, 4) == 'U' && prefix_char_exec(cs, 5) == 'N'
                && prefix_char_exec(cs, 6) == 'C' && prefix_char_exec(cs, 7) == '\\' {
                let se = component_end_exec(cs, 8, true);
                let sh = if se < n {
                    component_end_exec(cs, se + 1, true) - (se + 1)
                } else {
                    0
                };
                (if sh > 0 {
                    se + 1 + sh
                } else {
                    se
                }, true)
            } else if n >= 6 && (('a' <= cs[4] && cs[4] <= 'z') || ('A' <= cs[4] && cs[4] <= 'Z'))
                && cs[5] == ':' && (n == 6 || cs[6] == '\\') {
                (6, true)
            } else {
                (component_end_exec(cs, 4, true), true)
            }
        } else if n >= 4 && prefix_char_exec(cs, 2) == '.' && prefix_char_exec(cs, 3) == '\\' {
            (component_end_exec(cs, 4, false), false)
        } else {
            let se = component_end_exec(cs, 2, false);
            if se > 2 && se < n {
                let sh = component_end_exec(cs, se + 1, false);
                if sh > se + 1 {
                    (sh, false)
                } else {
                    (0, false)
                }
            } else {
                (0, false)
            }
        }
    } else if n >= 2 && (('a' <= cs[0] && cs[0] <= 'z') || ('A' <= cs[0] && cs[0] <= 'Z'))
        && cs[1] == ':' {
        (2, false)
    } else {
        (0, false)
    }
}

proof fn lemma_last_dot_at(s: Seq<char>, lo: int, hi: int, d: int)
    requires
        lo <= d < hi <= s.len(),
        s[d] == '.',
        forall|k: int| d < k < hi ==> s[k] != '.',
    ensures
        last_dot(s, lo, hi) == d,
    decreases hi - lo,
{
    if hi - 1 != d {
        lemma_last_dot_at(s, lo, hi - 1, d);
    }
}

proof fn lemma_no_dot(s: Seq<char>, lo: int, hi: int)
    requires
        lo <= hi <= s.len(),
        forall|k: int| lo <= k < hi ==> s[k] != '.',
    ensures
        last_dot(s, lo, hi) == lo - 1,
    decreases hi - lo,
{
    if hi > lo {
        lemma_no_dot(s, lo, hi - 1);
    }
}

proof fn lemma_no_sep(s: Seq<char>, lo: int, hi: int, verbatim: bool)
    requires
        lo <= hi <= s.len(),
        forall|k: int| lo <= k < hi ==> s[k] != '/' && s[k] != '\\',
    ensures
        last_sep(s, lo, hi, verbatim) == lo - 1,
    decreases hi - lo,
{
    if hi > lo {
        lemma_no_sep(s, lo, hi - 1, verbatim);
    }
}

proof fn lemma_path_prefix_bounds(s: Seq<char>)
    ensures
        0 <= path_prefix(s).0 <= s.len(),
{
    if s.len() >= 8 {
        lemma_component_end(s, 8, true);
        let se = component_end(s, 8, true);
        if se < s.len() {
            lemma_component_end(s, se + 1, true);
        }
    }
    if s.len() >= 4 {
        lemma_component_end(s, 4, true);
        lemma_component_end(s, 4, false);
    }
    if s.len() >= 2 {
        lemma_component_end(s, 2, false);
        let se = component_end(s, 2, false);
        if se < s.len() {
            lemma_component_end(s, se + 1, false);
        }
    }
}

/// The extension decides when the name ends in it: whatever comes before,
/// a name ending in `.` and then some text without `.`, `/` or `\` that is
/// not, ignoring ASCII case, one of the image extensions is no image.
pub proof fn lemma_other_extension_is_no_image(stem: Seq<char>, ext: Seq<char>)
    requires
        ext.len() > 0,
        forall|i: int| 0 <= i < ext.len() ==> ext[i] != '.' && ext[i] != '/' && ext[i] != '\\',
        !({
            let low = ext.map_values(|c: char| if 'A' <= c <= 'Z' { ((c as u32) + 32) as char } else { c });
            low == seq!['j', 'p', 'g'] || low == seq!['j', 'p', 'e', 'g'] || low == seq!['p', 'n', 'g']
                || low == seq!['b', 'm', 'p'] || low == seq!['g', 'i', 'f'] || low == seq!['t', 'i', 'f']
                || low == seq!['t', 'i', 'f', 'f'] || low == seq!['w', 'e', 'b', 'p'] || low == seq![
                'h',
                'e',
                'i',
                'c',
            ] || low == seq!['h', 'e', 'i', 'f']
        }),
    ensures
        !names_image(stem + seq!['.'] + ext),
{
    let s = stem + seq!['.'] + ext;
    let n = s.len() as int;
    let dd = stem.len() as int;
    assert(s[dd] == '.');
    assert forall|k: int| dd < k < n implies s[k] == ext[k - dd - 1] by {}
    lemma_path_prefix_bounds(s);
    let pre = path_prefix(s);
    let lo = pre.0;
    let v = pre.1;
    lemma_last_sep(s, lo, n, v);
    if n > lo {
        assert(s[n - 1] == ext[ext.len() - 1]);
        lemma_last_sep(s, lo, n - 1, v);
        let p = last_sep(s, lo, n, v);
        assert(p == last_sep(s, lo, n - 1, v));
        assert(file_name_bounds(s, lo, n, v) == Some((p + 1, n)));
        let a = p + 1;
        if a <= dd {
            lemma_last_dot_at(s, a, n, dd);
            assert(s.subrange(dd + 1, n) =~= ext);
            assert(s.subrange(dd + 1, n).map_values(|c: char| lower_char(c)) =~= ext.map_values(|c: char| if 'A' <= c <= 'Z' { ((c as u32) + 32) as char } else { c }));
        } else {
            lemma_no_dot(s, a, n);
        }
    }
}

/// An image-sequence frame is an image by its last extension: for every
/// stem that is not empty and holds no separator (it may hold dots, as in
/// `render.0001`), other than a bare drive `X:`, the name stem `.` ext is
/// an image whenever ext is, ignoring ASCII case, one of the image
/// extensions.
pub proof fn lemma_image_extension_is_image(stem: Seq<char>, ext: Seq<char>)
    requires
        stem.len() > 0,
        forall|i: int| 0 <= i < stem.len() ==> stem[i] != '/' && stem[i] != '\\',
        !(stem.len() == 2 && stem[1] == ':' && (('a' <= stem[0] <= 'z') || ('A' <= stem[0] <= 'Z'))),
        ({
            let low = ext.map_values(|c: char| if 'A' <= c <= 'Z' { ((c as u32) + 32) as char } else { c });
            low == seq!['j', 'p', 'g'] || low == seq!['j', 'p', 'e', 'g'] || low == seq!['p', 'n', 'g']
                || low == seq!['b', 'm', 'p'] || low == seq!['g', 'i', 'f'] || low == seq!['t', 'i', 'f']
                || low == seq!['t', 'i', 'f', 'f'] || low == seq!['w', 'e', 'b', 'p'] || low == seq![
                'h',
                'e',
                'i',
                'c',
            ] || low == seq!['h', 'e', 'i', 'f']
        }),
    ensures
        names_image(stem + seq!['.'] + ext),
{
    let s = stem + seq!['.'] + ext;
    let n = s.len() as int;
    let dd = stem.len() as int;
    let low = ext.map_values(|c: char| if 'A' <= c <= 'Z' { ((c as u32) + 32) as char } else { c });
    assert(ext.len() == low.len());
    assert forall|i: int| 0 <= i < ext.len() implies ext[i] != '.' && ext[i] != '/' && ext[i] != '\\'
        && low[i] != '.' by {
        assert(low[i] == (if 'A' <= ext[i] <= 'Z' { ((ext[i] as u32) + 32) as char } else { ext[i] }));
        assert('a' <= low[i] <= 'z');
    }
    assert(s[dd] == '.');
    assert forall|k: int| dd < k < n implies s[k] == ext[k - dd - 1] by {}
    assert forall|k: int| 0 <= k < n implies s[k] != '/' && s[k] != '\\' by {
        if k < dd {
            assert(s[k] == stem[k]);
        }
    }
    assert(s[0] == stem[0]);
    if stem.len() >= 2 {
        assert(s[1] == stem[1]);
    }
    let pre = path_prefix(s);
    let lo = pre.0;
    let v = pre.1;
    assert(lo == 0 || lo == 2);
    assert(lo < dd);
    lemma_no_sep(s, lo, n, v);
    assert(file_name_bounds(s, lo, n, v) == Some((lo, n)));
    lemma_last_dot_at(s, lo, n, dd);
    assert(s.subrange(dd + 1, n) =~= ext);
    assert(s.subrange(dd + 1, n).map_values(|c: char| lower_char(c)) =~= low);
}

/// Whether `cs[a..e]`, lower-cased, is `w`.
fn lower_equals(cs: &Vec<char>, a: usize, e: usize, w: &[char]) -> (r: bool)
    requires
        a <= e <= cs.len(),
    ensures
        r == (cs@.subrange(a as int, e as int).map_values(|c: char| lower_char(c)) == w@),
{
    let ghost low = cs@.subrange(a as int, e as int).map_values(|c: char| lower_char(c));
    if e - a != w.len() {
        assert(low.len() != w@.len());
        return false;
    }
    let mut i: usize = 0;
    while i < w.len()
        invariant
            e - a == w.len(),
            a <= e <= cs.len(),
            low == cs@.subrange(a as int, e as int).map_values(|c: char| lower_char(c)),
            i <= w.len(),
            forall|j: int| 0 <= j < i ==> low[j] == w@[j],
        decreases w.len() - i,
    {
        let c = cs[a + i];
        let lc = if 'A' <= c && c <= 'Z' {
            ((c as u32) + 32) as u8 as char
        } else {
            c
        };
        assert(lc == lower_char(c)) by {
            if 'A' <= c && c <= 'Z' {
                assert(((c as u32) + 32) as u8 as char == ((c as u32) + 32) as char);
            }
        }
        if lc != w[i] {
            assert(low[i as int] != w@[i as int]);
            return false;
        }
        i += 1;
    }
    assert(low =~= w@);
    true
}

/// Whether a ZIP entry name names an image (`jpg`, `jpeg`, `png`, `bmp`,
/// `gif`, `tif`, `tiff`, `webp`, `heic`, `heif`, in any ASCII case), judged
/// by the extension of its file name as a Windows path reads it.
#[verifier::loop_isolation(false)]
pub fn is_image_entry_name(name: &str) -> (r: bool)
    ensures
        r == names_image(name@),
{
    let cs = chars_of(name);
    let (start, verbatim) = path_prefix_exec(&cs);
    let mut hi: usize = cs.len();
    // Find the last component that is neither empty nor `.`.
    let mut found: Option<(usize, usize)> = None;
    loop
        invariant
            start <= hi <= cs.len(),
            cs@ == name@,
            start == path_prefix(cs@).0,
            verbatim == path_prefix(cs@).1,
            found is None ==> file_name_bounds(cs@, start as int, cs.len() as int, verbatim)
                == file_name_bounds(cs@, start as int, hi as int, verbatim),
            found matches Some((a, e)) ==> file_name_bounds(
                cs@,
                start as int,
                cs.len() as int,
                verbatim,
            ) == Some((a as int, e as int)),
        decreases hi - start, if found is None { 1int } else { 0int },
    {
        if found.is_some() {
            break;
        }
        let mut p = hi;
        proof {
            lemma_last_sep(cs@, start as int, hi as int, verbatim);
        }
        while p > start && !(cs[p - 1] == '\\' || (!verbatim && cs[p - 1] == '/'))
            invariant
                start <= p <= hi,
                last_sep(cs@, start as int, hi as int, verbatim) == last_sep(
                    cs@,
                    start as int,
                    p as int,
                    verbatim,
                ),
            decreases p - start,
        {
            p -= 1;
        }
        // p is one past the last separator, or `start` when there is none
        let has_sep = p > start;
        let seg_start = p;
        if hi > seg_start && !(!verbatim && hi - seg_start == 1 && cs[seg_start] == '.') {
            found = Some((seg_start, hi));
        } else if !has_sep || hi <= start {
            break;
        } else {
            hi = p - 1;
        }
    }
    match found {
        None => false,
        Some((a, e)) => {
            proof {
                lemma_file_name_bounds(cs@, start as int, cs.len() as int, verbatim);
                lemma_last_dot(cs@, a as int, e as int);
            }
            let mut d = e;
            while d > a && cs[d - 1] != '.'
                invariant
                    a <= d <= e,
                    last_dot(cs@, a as int, e as int) == last_dot(cs@, a as int, d as int),
                decreases d - a,
            {
                d -= 1;
            }
            if d <= a + 1 {
                return false;
            }
            let x = d;
            lower_equals(&cs, x, e, &['j', 'p', 'g']) || lower_equals(&cs, x, e, &['j', 'p', 'e', 'g'])
                || lower_equals(&cs, x, e, &['p', 'n', 'g']) || lower_equals(&cs, x, e, &['b', 'm', 'p'])
                || lower_equals(&cs, x, e, &['g', 'i', 'f']) || lower_equals(&cs, x, e, &['t', 'i', 'f'])
                || lower_equals(&cs, x, e, &['t', 'i', 'f', 'f']) || lower_equals(
                &cs,
                x,
                e,
                &['w', 'e', 'b', 'p'],
            ) || lower_equals(&cs, x, e, &['h', 'e', 'i', 'c']) || lower_equals(
                &cs,
                x,
                e,
                &['h', 'e', 'i', 'f'],
            )
        },
    }
}

/// Whether a buffer starts like a ZIP archive: `PK` and then a local file
/// header, end-of-directory or spanning marker (`3 4`, `5 6` or `7 8`).
pub fn has_zip_signature(buf: &[u8]) -> (r: bool)
    ensures
        r == (buf@.len() >= 4 && buf@[0] == 0x50 && buf@[1] == 0x4B && ((buf@[2] == 3 && buf@[3]
            == 4) || (buf@[2] == 5 && buf@[3] == 6) || (buf@[2] == 7 && buf@[3] == 8))),
{
    buf.len() >= 4 && buf[0] == 0x50 && buf[1] == 0x4B && ((buf[2] == 3 && buf[3] == 4) || (buf[2]
        == 5 && buf[3] == 6) || (buf[2] == 7 && buf[3] == 8))
}

} // verus!
