//! Natural ("human") ordering of file names, as used to order the images of
//! a ZIP image sequence: runs of ASCII digits compare by numeric value, other
//! bytes compare ASCII-case-insensitively.
//!
//! The order is described by a sign (`-1`, `0`, `1`) so that this module can
//! be free of `Ordering`; `natural_order.rs` turns the sign into an `Ordering`.
use vstd::prelude::*;

verus! {

/// `true` for the bytes `'0'..='9'`.
pub open spec fn is_digit(c: u8) -> bool {
    48 <= c && c <= 57
}

/// ASCII lower-casing of one byte: `'A'..='Z'` become `'a'..='z'`, every
/// other byte is unchanged.
pub open spec fn lower(c: u8) -> u8 {
    if 65 <= c && c <= 90 {
        (c + 32) as u8
    } else {
        c
    }
}

/// The sign of a comparison whose outcome is "less" when `less` holds and
/// "equal" when `equal` holds.
pub open spec fn sign_of(less: bool, equal: bool) -> int {
    if less {
        -1
    } else if equal {
        0
    } else {
        1
    }
}

/// The first position at or after `i` that does not hold a `'0'`.
pub open spec fn skip_zeros(s: Seq<u8>, i: int) -> int
    decreases s.len() - i,
{
    if 0 <= i < s.len() && s[i] == 48 {
        skip_zeros(s, i + 1)
    } else {
        i
    }
}

/// The first position at or after `i` that does not hold a digit.
pub open spec fn skip_digits(s: Seq<u8>, i: int) -> int
    decreases s.len() - i,
{
    if 0 <= i < s.len() && is_digit(s[i]) {
        skip_digits(s, i + 1)
    } else {
        i
    }
}

/// Lexicographic sign of the `n` bytes of `a` from `i` against the `n`
/// bytes of `b` from `j`.
pub open spec fn run_sign(a: Seq<u8>, i: int, b: Seq<u8>, j: int, n: int) -> int
    decreases n,
{
    if n <= 0 {
        0
    } else if a[i] != b[j] {
        sign_of(a[i] < b[j], false)
    } else {
        run_sign(a, i + 1, b, j + 1, n - 1)
    }
}

pub proof fn lemma_skip_zeros(s: Seq<u8>, i: int)
    requires
        0 <= i <= s.len(),
    ensures
        i <= skip_zeros(s, i) <= s.len(),
        forall|t: int| i <= t < skip_zeros(s, i) ==> s[t] == 48,
        skip_zeros(s, i) < s.len() ==> s[skip_zeros(s, i)] != 48,
    decreases s.len() - i,
{
    if i < s.len() && s[i] == 48 {
        lemma_skip_zeros(s, i + 1);
    }
}

pub proof fn lemma_skip_digits(s: Seq<u8>, i: int)
    requires
        0 <= i <= s.len(),
    ensures
        i <= skip_digits(s, i) <= s.len(),
        forall|t: int| i <= t < skip_digits(s, i) ==> is_digit(#[trigger] s[t]),
        skip_digits(s, i) < s.len() ==> !is_digit(s[skip_digits(s, i)]),
    decreases s.len() - i,
{
    if i < s.len() && is_digit(s[i]) {
        lemma_skip_digits(s, i + 1);
    }
}

/// Where the digit run of `s` that starts at `k` ends.
pub open spec fn run_end(s: Seq<u8>, k: int) -> int {
    skip_digits(s, skip_zeros(s, k))
}

pub proof fn lemma_run_end(s: Seq<u8>, k: int)
    requires
        0 <= k < s.len(),
        is_digit(s[k]),
    ensures
        k < skip_zeros(s, k) || skip_zeros(s, k) < run_end(s, k),
        k <= skip_zeros(s, k) <= run_end(s, k) <= s.len(),
        k < run_end(s, k),
{
    lemma_skip_zeros(s, k);
    lemma_skip_digits(s, skip_zeros(s, k));
    if skip_zeros(s, k) == k {
        assert(s[k] != 48);
        assert(skip_digits(s, k) > k);
    }
}

/// The natural order of `a` and `b`, both compared from position `k`
/// (equal prefixes always have equal lengths, so one position serves both).
///
/// At a position where both hold a digit, the two digit runs are compared:
/// first by the length of the number without its leading zeros, then by its
/// digits, then by the number of leading zeros (fewer first); equal runs are
/// skipped.  Elsewhere the two bytes are compared ASCII-case-insensitively.
/// When one side is used up, the longer input is the greater.
pub open spec fn natural_sign_from(a: Seq<u8>, b: Seq<u8>, k: int) -> int
    decreases a.len() - k,
{
    if k < 0 || k >= a.len() || k >= b.len() {
        sign_of(a.len() < b.len(), a.len() == b.len())
    } else if is_digit(a[k]) && is_digit(b[k]) {
        let na = skip_zeros(a, k);
        let nb = skip_zeros(b, k);
        let ea = skip_digits(a, na);
        let eb = skip_digits(b, nb);
        if ea - na != eb - nb {
            sign_of(ea - na < eb - nb, false)
        } else if run_sign(a, na, b, nb, ea - na) != 0 {
            run_sign(a, na, b, nb, ea - na)
        } else if na != nb {
            sign_of(na - k < nb - k, false)
        } else {
            proof {
                lemma_run_end(a, k);
            }
            natural_sign_from(a, b, ea)
        }
    } else if lower(a[k]) != lower(b[k]) {
        sign_of(lower(a[k]) < lower(b[k]), false)
    } else {
        natural_sign_from(a, b, k + 1)
    }
}

/// The natural order of two byte strings, as a sign.
pub open spec fn natural_sign(a: Seq<u8>, b: Seq<u8>) -> int {
    natural_sign_from(a, b, 0)
}


proof fn lemma_run_sign_refl(a: Seq<u8>, i: int, n: int)
    ensures
        run_sign(a, i, a, i, n) == 0,
    decreases n,
{
    if n > 0 {
        lemma_run_sign_refl(a, i + 1, n - 1);
    }
}

proof fn lemma_run_sign_antisym(a: Seq<u8>, i: int, b: Seq<u8>, j: int, n: int)
    ensures
        run_sign(a, i, b, j, n) == -run_sign(b, j, a, i, n),
    decreases n,
{
    if n > 0 && a[i] == b[j] {
        lemma_run_sign_antisym(a, i + 1, b, j + 1, n - 1);
    }
}

proof fn lemma_run_sign_trans(
    a: Seq<u8>,
    i: int,
    b: Seq<u8>,
    j: int,
    c: Seq<u8>,
    l: int,
    n: int,
)
    requires
        run_sign(a, i, b, j, n) <= 0,
        run_sign(b, j, c, l, n) <= 0,
    ensures
        run_sign(a, i, c, l, n) <= 0,
        run_sign(a, i, b, j, n) == 0 && run_sign(b, j, c, l, n) == 0 ==> run_sign(a, i, c, l, n)
            == 0,
        run_sign(a, i, b, j, n) < 0 || run_sign(b, j, c, l, n) < 0 ==> run_sign(a, i, c, l, n)
            < 0,
    decreases n,
{
    if n > 0 && a[i] == b[j] && b[j] == c[l] {
        lemma_run_sign_trans(a, i + 1, b, j + 1, c, l + 1, n - 1);
    }
}

/// Every byte string is naturally equal to itself.
pub proof fn lemma_natural_refl(a: Seq<u8>, k: int)
    ensures
        natural_sign_from(a, a, k) == 0,
    decreases a.len() - k,
{
    if 0 <= k < a.len() {
        if is_digit(a[k]) {
            lemma_run_end(a, k);
            lemma_run_sign_refl(a, skip_zeros(a, k), run_end(a, k) - skip_zeros(a, k));
            lemma_natural_refl(a, run_end(a, k));
        } else {
            lemma_natural_refl(a, k + 1);
        }
    }
}

/// Swapping the two sides negates the natural order.
pub proof fn lemma_natural_antisym(a: Seq<u8>, b: Seq<u8>, k: int)
    ensures
        natural_sign_from(a, b, k) == -natural_sign_from(b, a, k),
    decreases a.len() - k,
{
    if 0 <= k < a.len() && k < b.len() {
        if is_digit(a[k]) && is_digit(b[k]) {
            lemma_run_end(a, k);
            lemma_run_end(b, k);
            let na = skip_zeros(a, k);
            let nb = skip_zeros(b, k);
            lemma_run_sign_antisym(a, na, b, nb, run_end(a, k) - na);
            lemma_natural_antisym(a, b, run_end(a, k));
        } else if lower(a[k]) == lower(b[k]) {
            lemma_natural_antisym(a, b, k + 1);
        }
    }
}

/// A byte that is not a digit does not become one by lower-casing.
proof fn lemma_lower_digit(c: u8)
    ensures
        is_digit(c) ==> lower(c) == c,
        !is_digit(c) ==> !is_digit(lower(c)),
{
}

/// The natural order is transitive.
pub proof fn lemma_natural_trans(a: Seq<u8>, b: Seq<u8>, c: Seq<u8>, k: int)
    requires
        natural_sign_from(a, b, k) <= 0,
        natural_sign_from(b, c, k) <= 0,
    ensures
        natural_sign_from(a, c, k) <= 0,
    decreases a.len() - k,
{
    if 0 <= k < a.len() && k < b.len() && k < c.len() {
        lemma_lower_digit(a[k]);
        lemma_lower_digit(b[k]);
        lemma_lower_digit(c[k]);
        if is_digit(a[k]) && is_digit(b[k]) && is_digit(c[k]) {
            lemma_run_end(a, k);
            lemma_run_end(b, k);
            lemma_run_end(c, k);
            let na = skip_zeros(a, k);
            let nb = skip_zeros(b, k);
            let nc = skip_zeros(c, k);
            let la = run_end(a, k) - na;
            let lb = run_end(b, k) - nb;
            let lc = run_end(c, k) - nc;
            if la == lb && lb == lc {
                lemma_run_sign_trans(a, na, b, nb, c, nc, la);
                if run_sign(a, na, b, nb, la) == 0 && run_sign(b, nb, c, nc, la) == 0 && na
                    == nb && nb == nc {
                    lemma_natural_trans(a, b, c, run_end(a, k));
                }
            }
        } else if !is_digit(a[k]) && !is_digit(b[k]) && !is_digit(c[k]) {
            if lower(a[k]) == lower(b[k]) && lower(b[k]) == lower(c[k]) {
                lemma_natural_trans(a, b, c, k + 1);
            }
        }
        // In the remaining cases the digit bytes are compared with lower-cased
        // bytes that are not digits, which never equal them; a non-digit can
        // never sort strictly between two digits.
    }
}

/// `10` to the power `n`.
pub open spec fn tens(n: int) -> int
    decreases n,
{
    if n <= 0 {
        1
    } else {
        10 * tens(n - 1)
    }
}

/// The number written by the decimal digits `s[i..j]`.
pub open spec fn digits_value(s: Seq<u8>, i: int, j: int) -> int
    decreases j - i,
{
    if j <= i {
        0
    } else {
        digits_value(s, i, j - 1) * 10 + (s[j - 1] - 48)
    }
}

proof fn lemma_tens(n: int, m: int)
    requires
        0 <= n <= m,
    ensures
        1 <= tens(n) <= tens(m),
    decreases m,
{
    if m > n {
        lemma_tens(n, m - 1);
    } else if n > 0 {
        lemma_tens(n - 1, n - 1);
    }
}

proof fn lemma_digits_bounds(s: Seq<u8>, i: int, j: int)
    requires
        0 <= i <= j <= s.len(),
        forall|t: int| i <= t < j ==> is_digit(#[trigger] s[t]),
    ensures
        0 <= digits_value(s, i, j) < tens(j - i),
    decreases j - i,
{
    if j > i {
        lemma_digits_bounds(s, i, j - 1);
        let v = digits_value(s, i, j - 1);
        let d = s[j - 1] - 48;
        let t = tens(j - 1 - i);
        assert(tens(j - i) == 10 * t);
        assert(0 <= v * 10 + d < 10 * t) by (nonlinear_arith)
            requires
                0 <= v < t,
                0 <= d <= 9,
        ;
    }
}

proof fn lemma_digits_front(s: Seq<u8>, i: int, j: int)
    requires
        0 <= i < j <= s.len(),
    ensures
        digits_value(s, i, j) == (s[i] - 48) * tens(j - i - 1) + digits_value(s, i + 1, j),
    decreases j - i,
{
    if j == i + 1 {
        assert(digits_value(s, i, i) == 0);
        assert(digits_value(s, i + 1, j) == 0);
        assert(tens(0) == 1);
        assert(digits_value(s, i, j) == s[i] - 48);
    } else {
        lemma_digits_front(s, i, j - 1);
        let d0 = s[i] - 48;
        let t = tens(j - i - 2);
        let r = digits_value(s, i + 1, j - 1);
        assert(tens(j - i - 1) == 10 * t);
        assert(digits_value(s, i + 1, j) == r * 10 + (s[j - 1] - 48));
        assert(digits_value(s, i, j) == (d0 * t + r) * 10 + (s[j - 1] - 48));
        assert((d0 * t + r) * 10 + (s[j - 1] - 48) == d0 * (10 * t) + (r * 10 + (s[j - 1] - 48)))
            by (nonlinear_arith);
    }
}

proof fn lemma_digits_skip_zeros(s: Seq<u8>, i: int, j: int)
    requires
        0 <= i <= skip_zeros(s, i) <= j <= s.len(),
    ensures
        digits_value(s, i, j) == digits_value(s, skip_zeros(s, i), j),
    decreases j - i,
{
    if i < j && s[i] == 48 {
        assert(skip_zeros(s, i) == skip_zeros(s, i + 1));
        lemma_skip_zeros(s, i + 1);
        lemma_digits_front(s, i, j);
        lemma_digits_skip_zeros(s, i + 1, j);
    }
}

/// Equal-length digit runs compare lexicographically as their numbers do.
proof fn lemma_run_sign_value(a: Seq<u8>, i: int, b: Seq<u8>, j: int, n: int)
    requires
        0 <= n,
        0 <= i,
        i + n <= a.len(),
        0 <= j,
        j + n <= b.len(),
        forall|t: int| i <= t < i + n ==> is_digit(#[trigger] a[t]),
        forall|t: int| j <= t < j + n ==> is_digit(#[trigger] b[t]),
    ensures
        run_sign(a, i, b, j, n) == sign_of(
            digits_value(a, i, i + n) < digits_value(b, j, j + n),
            digits_value(a, i, i + n) == digits_value(b, j, j + n),
        ),
    decreases n,
{
    if n > 0 {
        lemma_digits_front(a, i, i + n);
        lemma_digits_front(b, j, j + n);
        lemma_digits_bounds(a, i + 1, i + n);
        lemma_digits_bounds(b, j + 1, j + n);
        let t = tens(n - 1);
        let (da, db) = (a[i] - 48, b[j] - 48);
        let (ra, rb) = (digits_value(a, i + 1, i + n), digits_value(b, j + 1, j + n));
        if da < db {
            assert(da * t + ra < db * t + rb) by (nonlinear_arith)
                requires
                    0 <= ra < t,
                    0 <= rb,
                    da + 1 <= db,
            ;
        } else if db < da {
            assert(db * t + rb < da * t + ra) by (nonlinear_arith)
                requires
                    0 <= rb < t,
                    0 <= ra,
                    db + 1 <= da,
            ;
        } else {
            lemma_run_sign_value(a, i + 1, b, j + 1, n - 1);
        }
    }
}

/// Numbers compare by value: two names made only of decimal digits are in
/// the order of the numbers they write, and one number written with more
/// leading zeros comes after the same number with fewer.
pub proof fn lemma_numbers_by_value(x: Seq<u8>, y: Seq<u8>)
    requires
        x.len() > 0,
        y.len() > 0,
        forall|t: int| 0 <= t < x.len() ==> 48 <= #[trigger] x[t] <= 57,
        forall|t: int| 0 <= t < y.len() ==> 48 <= #[trigger] y[t] <= 57,
    ensures
        ({
            let vx = digits_value(x, 0, x.len() as int);
            let vy = digits_value(y, 0, y.len() as int);
            natural_sign(x, y) == if vx < vy {
                -1int
            } else if vx > vy {
                1
            } else if x.len() < y.len() {
                -1
            } else if x.len() > y.len() {
                1
            } else {
                0
            }
        }),
{
    let (lx, ly) = (x.len() as int, y.len() as int);
    lemma_skip_zeros(x, 0);
    lemma_skip_zeros(y, 0);
    let na = skip_zeros(x, 0);
    let nb = skip_zeros(y, 0);
    lemma_skip_digits(x, na);
    lemma_skip_digits(y, nb);
    assert(skip_digits(x, na) == lx);
    assert(skip_digits(y, nb) == ly);
    lemma_digits_skip_zeros(x, 0, lx);
    lemma_digits_skip_zeros(y, 0, ly);
    lemma_digits_bounds(x, na, lx);
    lemma_digits_bounds(y, nb, ly);
    let (vx, vy) = (digits_value(x, na, lx), digits_value(y, nb, ly));
    let (sx, sy) = (lx - na, ly - nb);
    if na < lx {
        lemma_digits_front(x, na, lx);
        lemma_digits_bounds(x, na + 1, lx);
        assert(vx >= tens(sx - 1)) by (nonlinear_arith)
            requires
                vx == (x[na] - 48) * tens(sx - 1) + digits_value(x, na + 1, lx),
                x[na] - 48 >= 1,
                tens(sx - 1) >= 0,
                digits_value(x, na + 1, lx) >= 0,
        ;
    }
    if nb < ly {
        lemma_digits_front(y, nb, ly);
        lemma_digits_bounds(y, nb + 1, ly);
        assert(vy >= tens(sy - 1)) by (nonlinear_arith)
            requires
                vy == (y[nb] - 48) * tens(sy - 1) + digits_value(y, nb + 1, ly),
                y[nb] - 48 >= 1,
                tens(sy - 1) >= 0,
                digits_value(y, nb + 1, ly) >= 0,
        ;
    }
    assert(is_digit(x[0]) && is_digit(y[0]));
    assert(digits_value(x, 0, lx) == vx && digits_value(y, 0, ly) == vy);
    if sx < sy {
        lemma_tens(sx, sy - 1);
        assert(vx < vy);
        assert(natural_sign_from(x, y, 0) == -1);
    } else if sy < sx {
        lemma_tens(sy, sx - 1);
        assert(vy < vx);
        assert(natural_sign_from(x, y, 0) == 1);
    } else {
        lemma_run_sign_value(x, na, y, nb, sx);
        if vx == vy && na == nb {
            assert(lx == ly);
            assert(natural_sign_from(x, y, 0) == natural_sign_from(x, y, lx));
        }
    }
}

/// Letters compare without regard to ASCII case: two names without digits
/// that agree, ignoring case, on their first `k` bytes are in the order of
/// their next bytes, ignoring case, or, when one of them ends there, of
/// their lengths.
pub proof fn lemma_letters_ignore_case(a: Seq<u8>, b: Seq<u8>, k: int)
    requires
        0 <= k,
        k <= a.len(),
        k <= b.len(),
        forall|t: int| 0 <= t < a.len() ==> !(48 <= #[trigger] a[t] <= 57),
        forall|t: int| 0 <= t < b.len() ==> !(48 <= #[trigger] b[t] <= 57),
        forall|t: int|
            0 <= t < k ==> (if 65 <= a[t] <= 90 {
                a[t] + 32
            } else {
                a[t] as int
            }) == (if 65 <= b[t] <= 90 {
                b[t] + 32
            } else {
                b[t] as int
            }),
    ensures
        ({
            let la = if k < a.len() && 65 <= a[k] <= 90 {
                a[k] + 32
            } else if k < a.len() {
                a[k] as int
            } else {
                0
            };
            let lb = if k < b.len() && 65 <= b[k] <= 90 {
                b[k] + 32
            } else if k < b.len() {
                b[k] as int
            } else {
                0
            };
            &&& (k < a.len() && k < b.len() && la < lb) ==> natural_sign(a, b) == -1
            &&& (k < a.len() && k < b.len() && la > lb) ==> natural_sign(a, b) == 1
            &&& (k == a.len() || k == b.len()) ==> natural_sign(a, b) == sign_of(
                a.len() < b.len(),
                a.len() == b.len(),
            )
        }),
{
    lemma_letters_from(a, b, 0, k);
}

proof fn lemma_letters_from(a: Seq<u8>, b: Seq<u8>, i: int, k: int)
    requires
        0 <= i <= k,
        k <= a.len(),
        k <= b.len(),
        forall|t: int| 0 <= t < a.len() ==> !(48 <= #[trigger] a[t] <= 57),
        forall|t: int| 0 <= t < b.len() ==> !(48 <= #[trigger] b[t] <= 57),
        forall|t: int| 0 <= t < k ==> lower(a[t]) == lower(b[t]),
    ensures
        natural_sign_from(a, b, i) == natural_sign_from(a, b, k),
    decreases k - i,
{
    if i < k {
        lemma_letters_from(a, b, i + 1, k);
    }
}

/// `'0'..='9'`.
pub fn ascii_digit(c: u8) -> (r: bool)
    ensures
        r == is_digit(c),
{
    48 <= c && c <= 57
}

/// ASCII lower-casing of one byte.
pub fn ascii_lower(c: u8) -> (r: u8)
    ensures
        r == lower(c),
{
    if 65 <= c && c <= 90 {
        c + 32
    } else {
        c
    }
}

fn sign_i8(less: bool, equal: bool) -> (r: i8)
    ensures
        r == sign_of(less, equal),
{
    if less {
        -1
    } else if equal {
        0
    } else {
        1
    }
}

/// The natural order of two byte strings: `-1`, `0` or `1`.
#[verifier::loop_isolation(false)]
pub fn natural_sign_of_bytes(aa: &[u8], bb: &[u8]) -> (r: i8)
    ensures
        r == natural_sign(aa@, bb@),
{
    let mut i: usize = 0;
    let mut j: usize = 0;
    while i < aa.len() && j < bb.len()
        invariant
            i == j,
            i <= aa.len(),
            j <= bb.len(),
            natural_sign(aa@, bb@) == natural_sign_from(aa@, bb@, i as int),
        decreases aa.len() - i,
    {
        if ascii_digit(aa[i]) && ascii_digit(bb[j]) {
            let za = i;
            let zb = j;
            proof {
                lemma_skip_zeros(aa@, za as int);
                lemma_skip_zeros(bb@, zb as int);
                lemma_run_end(aa@, za as int);
                lemma_run_end(bb@, zb as int);
            }
            while i < aa.len() && aa[i] == 48
                invariant
                    za <= i <= aa.len(),
                    skip_zeros(aa@, za as int) == skip_zeros(aa@, i as int),
                decreases aa.len() - i,
            {
                i += 1;
            }
            while j < bb.len() && bb[j] == 48
                invariant
                    zb <= j <= bb.len(),
                    skip_zeros(bb@, zb as int) == skip_zeros(bb@, j as int),
                decreases bb.len() - j,
            {
                j += 1;
            }
            let na = i;
            let nb = j;
            proof {
                lemma_skip_digits(aa@, na as int);
                lemma_skip_digits(bb@, nb as int);
            }
            while i < aa.len() && ascii_digit(aa[i])
                invariant
                    na <= i <= aa.len(),
                    skip_digits(aa@, na as int) == skip_digits(aa@, i as int),
                decreases aa.len() - i,
            {
                i += 1;
            }
            while j < bb.len() && ascii_digit(bb[j])
                invariant
                    nb <= j <= bb.len(),
                    skip_digits(bb@, nb as int) == skip_digits(bb@, j as int),
                decreases bb.len() - j,
            {
                j += 1;
            }
            let la = i - na;
            let lb = j - nb;
            if la != lb {
                return sign_i8(la < lb, false);
            }
            let mut t: usize = 0;
            while t < la
                invariant
                    la == lb,
                    na + la == i <= aa.len(),
                    nb + lb == j <= bb.len(),
                    t <= la,
                    run_sign(aa@, na as int, bb@, nb as int, la as int) == run_sign(
                        aa@,
                        na + t,
                        bb@,
                        nb + t,
                        la - t,
                    ),
                decreases la - t,
            {
                if aa[na + t] != bb[nb + t] {
                    assert(run_sign(aa@, na + t, bb@, nb + t, la - t) == sign_of(
                        aa[na + t] < bb[nb + t],
                        false,
                    ));
                    return sign_i8(aa[na + t] < bb[nb + t], false);
                }
                t += 1;
            }
            if na - za != nb - zb {
                return sign_i8(na - za < nb - zb, false);
            }
        } else {
            let ca = ascii_lower(aa[i]);
            let cb = ascii_lower(bb[j]);
            if ca != cb {
                return sign_i8(ca < cb, false);
            }
            i += 1;
            j += 1;
        }
    }
    sign_i8(aa.len() < bb.len(), aa.len() == bb.len())
}

} // verus!
