//! The in-memory thumbnail cache: least-recently-used eviction, bounded by a
//! number of entries and by the bytes of pixel data it holds.
use crate::settings::Settings;
use crate::thumb::ThumbData;
use std::sync::Arc;
use vstd::prelude::*;

verus! {

/// What a thumbnail is cached under: the normalized path of the file and the
/// size of the box it was fitted into.
pub struct CacheKey {
    pub path: Vec<u16>,
    pub max_w: i32,
    pub max_h: i32,
}

/// A cache key as a value: path units, box width, box height.
pub type KeyView = (Seq<u16>, i32, i32);

/// One cached thumbnail under its key.
pub type CacheItem = (KeyView, Arc<ThumbData>);

pub open spec fn key_view(k: &CacheKey) -> KeyView {
    (k.path@, k.max_w, k.max_h)
}

/// The most bytes the cache may ever hold: 1024 MB, the largest `CacheMB`.
pub const MAX_CACHE_BYTES: usize = 1073741824;

/// The bytes of pixel data of the items of `s`.
pub open spec fn bytes_of(s: Seq<CacheItem>) -> nat
    decreases s.len(),
{
    if s.len() == 0 {
        0
    } else {
        bytes_of(s.drop_last()) + s.last().1.bgra@.len()
    }
}

/// No key occurs twice in `s`.
pub open spec fn unique_keys(s: Seq<CacheItem>) -> bool {
    forall|i: int, j: int| 0 <= i < j < s.len() ==> s[i].0 != s[j].0
}

/// The position of the last item of `s` under `k`, or `-1`.
pub open spec fn find_key(s: Seq<CacheItem>, k: KeyView) -> int
    decreases s.len(),
{
    if s.len() == 0 {
        -1
    } else if s.last().0 == k {
        s.len() - 1
    } else {
        find_key(s.drop_last(), k)
    }
}

/// `s` without the item under `k`, if there is one.
pub open spec fn without_key(s: Seq<CacheItem>, k: KeyView) -> Seq<CacheItem> {
    if find_key(s, k) >= 0 {
        s.remove(find_key(s, k))
    } else {
        s
    }
}

/// Whether the settings enable the cache at all.
pub open spec fn cache_enabled(cfg: &Settings) -> bool {
    cfg.cache_mb != 0 && cfg.cache_entries != 0
}

/// The byte limit of the cache under `cfg`.
pub open spec fn byte_limit(cfg: &Settings) -> int {
    cfg.cache_mb * 1024 * 1024
}

/// Whether `s` holds more than the settings allow.
pub open spec fn over_limits(s: Seq<CacheItem>, cfg: &Settings) -> bool {
    s.len() > cfg.cache_entries || bytes_of(s) > byte_limit(cfg)
}

/// `s` after dropping least recently used items until it is within limits.
pub open spec fn evict(s: Seq<CacheItem>, cfg: &Settings) -> Seq<CacheItem>
    decreases s.len(),
{
    if s.len() > 0 && over_limits(s, cfg) {
        evict(s.drop_first(), cfg)
    } else {
        s
    }
}

/// What a lookup of `k` returns.
pub open spec fn spec_lookup(s: Seq<CacheItem>, k: KeyView, cfg: &Settings) -> Option<
    Arc<ThumbData>,
> {
    if cache_enabled(cfg) && find_key(s, k) >= 0 {
        Some(s[find_key(s, k)].1)
    } else {
        None
    }
}

/// The items after a lookup of `k`: a hit becomes the most recently used.
pub open spec fn after_lookup(s: Seq<CacheItem>, k: KeyView, cfg: &Settings) -> Seq<CacheItem> {
    if cache_enabled(cfg) && find_key(s, k) >= 0 {
        s.remove(find_key(s, k)).push(s[find_key(s, k)])
    } else {
        s
    }
}

/// Whether `d` is stored at all: the cache is on and the thumbnail is not
/// empty and not larger than the byte limit.
pub open spec fn stores(d: Arc<ThumbData>, cfg: &Settings) -> bool {
    cache_enabled(cfg) && 0 < d.bgra@.len() <= byte_limit(cfg)
}

/// The items after storing `d` under `k`: nothing happens when the cache is
/// off or the thumbnail is empty or larger than the byte limit; otherwise
/// the item replaces any item under `k` as the most recently used, and the
/// least recently used items go until the limits hold again.
pub open spec fn after_store(
    s: Seq<CacheItem>,
    k: KeyView,
    d: Arc<ThumbData>,
    cfg: &Settings,
) -> Seq<CacheItem> {
    if !stores(d, cfg) {
        s
    } else {
        evict(without_key(s, k).push((k, d)), cfg)
    }
}


/// One UTF-16 unit of a path as the cache keys it: `/` becomes `\`, and
/// `A`..`Z` become `a`..`z`.
pub open spec fn normalize_unit(c: u16) -> u16 {
    let c = if c == 47 {
        92u16
    } else {
        c
    };
    if 65 <= c <= 90 {
        (c + 32) as u16
    } else {
        c
    }
}

/// The path as the cache keys it: separators unified to `\` and ASCII
/// letters lower-cased, so that spellings of one path share an entry.
pub fn normalized_cache_path(wide: &[u16]) -> (r: Vec<u16>)
    ensures
        r@ == wide@.map_values(|c: u16| normalize_unit(c)),
{
    let mut out: Vec<u16> = Vec::new();
    let mut i: usize = 0;
    while i < wide.len()
        invariant
            i <= wide.len(),
            out@ =~= wide@.take(i as int).map_values(|c: u16| normalize_unit(c)),
        decreases wide.len() - i,
    {
        let mut c = wide[i];
        if c == 47 {
            c = 92;
        }
        if 65 <= c && c <= 90 {
            c = c + 32;
        }
        out.push(c);
        assert(wide@.take(i + 1) =~= wide@.take(i as int).push(wide@[i as int]));
        i += 1;
    }
    assert(wide@.take(wide.len() as int) =~= wide@);
    out
}


/// Normalizing a path twice gives the same as once.
pub proof fn lemma_normalize_idempotent(p: Seq<u16>)
    ensures
        p.map_values(|c: u16| normalize_unit(c)).map_values(|c: u16| normalize_unit(c))
            =~= p.map_values(|c: u16| normalize_unit(c)),
{
}

/// What the cache key of a path holds at each unit `i`: no `/` and no ASCII
/// capital letter; a `/` became `\`, a capital `A`..`Z` its small letter,
/// and every other unit stays as it is (and the key is as long as the path).
pub proof fn lemma_normalized_units(p: Seq<u16>, i: int)
    requires
        0 <= i < p.len(),
    ensures
        p.map_values(|c: u16| normalize_unit(c)).len() == p.len(),
        p.map_values(|c: u16| normalize_unit(c))[i] != 47,
        !(65 <= p.map_values(|c: u16| normalize_unit(c))[i] <= 90),
        p[i] == 47 ==> p.map_values(|c: u16| normalize_unit(c))[i] == 92,
        65 <= p[i] <= 90 ==> p.map_values(|c: u16| normalize_unit(c))[i] == p[i] + 32,
        (p[i] != 47 && !(65 <= p[i] <= 90)) ==> p.map_values(|c: u16| normalize_unit(c))[i]
            == p[i],
{
}

/// Two spellings of one path share a cache key: when, unit by unit, two
/// paths are equal, differ only in the ASCII case of a letter, or have `/`
/// where the other has `\`, their keys are equal.
pub proof fn lemma_spellings_share_key(p: Seq<u16>, q: Seq<u16>)
    requires
        p.len() == q.len(),
        forall|i: int|
            0 <= i < p.len() ==> {
                ||| p[i] == q[i]
                ||| (65 <= p[i] <= 90 && q[i] == p[i] + 32)
                ||| (65 <= q[i] <= 90 && p[i] == q[i] + 32)
                ||| ((p[i] == 47 || p[i] == 92) && (q[i] == 47 || q[i] == 92))
            },
    ensures
        p.map_values(|c: u16| normalize_unit(c)) =~= q.map_values(|c: u16| normalize_unit(c)),
{
}

/// Stored entries as cache items.
pub open spec fn view_items(v: Seq<(CacheKey, Arc<ThumbData>)>) -> Seq<CacheItem> {
    v.map_values(|e: (CacheKey, Arc<ThumbData>)| (key_view(&e.0), e.1))
}


proof fn lemma_evict_suffix(t: Seq<CacheItem>, cfg: &Settings)
    requires
        t.len() > 0,
        cache_enabled(cfg),
        cfg.cache_entries >= 1,
        t.last().1.bgra@.len() <= byte_limit(cfg),
    ensures
        exists|m: int| 0 <= m < t.len() && evict(t, cfg) == t.skip(m),
    decreases t.len(),
{
    if over_limits(t, cfg) {
        if t.len() == 1 {
            assert(t.drop_last().len() == 0);
            assert(bytes_of(t.drop_last()) == 0);
            assert(bytes_of(t) == t.last().1.bgra@.len());
        }
        assert(t.len() > 1);
        lemma_evict_suffix(t.drop_first(), cfg);
        let m = choose|m: int| 0 <= m < t.drop_first().len() && evict(t.drop_first(), cfg) == t.drop_first().skip(m);
        assert(t.drop_first().skip(m) =~= t.skip(m + 1));
    } else {
        assert(t.skip(0) =~= t);
    }
}

/// What the cache gives back of a write: right after `d` is stored under
/// `k`, a lookup of `k` returns `d`.
pub proof fn lemma_lookup_after_store(s: Seq<CacheItem>, k: KeyView, d: Arc<ThumbData>, cfg: &Settings)
    requires
        cfg.wf(),
        stores(d, cfg),
    ensures
        spec_lookup(after_store(s, k, d, cfg), k, cfg) == Some(d),
{
    let t = without_key(s, k).push((k, d));
    lemma_evict_suffix(t, cfg);
    let m = choose|m: int| 0 <= m < t.len() && evict(t, cfg) == t.skip(m);
    let r = t.skip(m);
    assert(r.last() == (k, d));
}

proof fn lemma_find_in_suffix(t: Seq<CacheItem>, m: int, k: KeyView)
    requires
        0 <= m <= t.len(),
        unique_keys(t),
    ensures
        unique_keys(t.skip(m)),
        find_key(t.skip(m), k) >= 0 ==> find_key(t, k) == find_key(t.skip(m), k) + m,
{
    let r = t.skip(m);
    lemma_find_key(r, k);
    lemma_find_key(t, k);
    if find_key(r, k) >= 0 {
        lemma_find_unique(t, k, find_key(r, k) + m);
    }
}

proof fn lemma_evict_is_suffix(t: Seq<CacheItem>, cfg: &Settings)
    ensures
        exists|m: int| 0 <= m <= t.len() && evict(t, cfg) == t.skip(m),
    decreases t.len(),
{
    if t.len() > 0 && over_limits(t, cfg) {
        lemma_evict_is_suffix(t.drop_first(), cfg);
        let m = choose|m: int| 0 <= m <= t.drop_first().len() && evict(t.drop_first(), cfg) == t.drop_first().skip(m);
        assert(t.drop_first().skip(m) =~= t.skip(m + 1));
    } else {
        assert(t.skip(0) =~= t);
    }
}

/// Storing under one key never changes what another key gives back: after
/// the store, a lookup of `k2 != k` finds nothing (its item was evicted) or
/// the same thumbnail as before.
pub proof fn lemma_store_keeps_other_keys(
    s: Seq<CacheItem>,
    k: KeyView,
    d: Arc<ThumbData>,
    k2: KeyView,
    cfg: &Settings,
)
    requires
        unique_keys(s),
        k2 != k,
    ensures
        spec_lookup(after_store(s, k, d, cfg), k2, cfg) is Some ==> spec_lookup(
            after_store(s, k, d, cfg),
            k2,
            cfg,
        ) == spec_lookup(s, k2, cfg),
{
    if stores(d, cfg) {
        lemma_find_key(s, k);
        lemma_find_key(s, k2);
        let w = without_key(s, k);
        let t = w.push((k, d));
        lemma_store_unique(s, k, d);
        lemma_evict_is_suffix(t, cfg);
        let m = choose|m: int| 0 <= m <= t.len() && evict(t, cfg) == t.skip(m);
        lemma_find_in_suffix(t, m, k2);
        let r = t.skip(m);
        lemma_find_key(r, k2);
        lemma_find_key(t, k2);
        if find_key(r, k2) >= 0 {
            let p = find_key(t, k2);
            assert(p < t.len() - 1);
            let f = find_key(s, k);
            let p0 = if f >= 0 && p >= f { p + 1 } else { p };
            assert(w[p] == s[p0]);
            lemma_find_unique(s, k2, p0);
        }
    }
}

proof fn lemma_store_unique(s: Seq<CacheItem>, k: KeyView, d: Arc<ThumbData>)
    requires
        unique_keys(s),
    ensures
        unique_keys(without_key(s, k).push((k, d))),
{
    lemma_find_key(s, k);
    let w = without_key(s, k);
    let t = w.push((k, d));
    if find_key(s, k) >= 0 {
        assert forall|i: int, j: int| 0 <= i < j < t.len() implies t[i].0 != t[j].0 by {
            let f = find_key(s, k);
            let i0 = if i < f { i } else { i + 1 };
            assert(w[i] == s[i0]);
            if j < t.len() - 1 {
                let j0 = if j < f { j } else { j + 1 };
                assert(w[j] == s[j0]);
            }
        }
    }
}

/// Eviction stops at the latest at a suffix that is within the limits.
proof fn lemma_evict_keeps_fitting_suffix(t: Seq<CacheItem>, j: int, cfg: &Settings)
    requires
        0 <= j <= t.len(),
        !over_limits(t.skip(j), cfg),
    ensures
        exists|m: int| 0 <= m <= j && evict(t, cfg) == t.skip(m),
    decreases t.len(),
{
    if t.len() > 0 && over_limits(t, cfg) {
        assert(j > 0) by {
            if j == 0 {
                assert(t.skip(0) =~= t);
            }
        }
        assert(t.drop_first().skip(j - 1) =~= t.skip(j));
        lemma_evict_keeps_fitting_suffix(t.drop_first(), j - 1, cfg);
        let m = choose|m: int| 0 <= m <= j - 1 && evict(t.drop_first(), cfg) == t.drop_first().skip(m);
        assert(t.drop_first().skip(m) =~= t.skip(m + 1));
    } else {
        assert(t.skip(0) =~= t);
    }
}

/// The least recently used items go first: right after a lookup finds `k`,
/// storing a thumbnail under another key keeps the item of `k` whenever
/// the cache has room for two items and for the bytes of both.
pub proof fn lemma_recently_used_survives(
    s: Seq<CacheItem>,
    k: KeyView,
    k2: KeyView,
    d: Arc<ThumbData>,
    cfg: &Settings,
)
    requires
        unique_keys(s),
        k2 != k,
        spec_lookup(s, k, cfg) is Some,
        cfg.cache_entries >= 2,
        spec_lookup(s, k, cfg)->Some_0.bgra@.len() + d.bgra@.len() <= byte_limit(cfg),
    ensures
        spec_lookup(after_store(after_lookup(s, k, cfg), k2, d, cfg), k, cfg) == spec_lookup(
            s,
            k,
            cfg,
        ),
{
    lemma_lookup_keeps_contents(s, k, k, cfg);
    let s1 = after_lookup(s, k, cfg);
    if stores(d, cfg) {
        lemma_find_key(s, k);
        let f = find_key(s, k);
        let item = s[f];
        assert(s1.last() == item);
        lemma_find_key(s1, k2);
        let w = without_key(s1, k2);
        assert(w.len() > 0 && w.last() == item) by {
            if find_key(s1, k2) >= 0 {
                let g = find_key(s1, k2);
                assert(g < s1.len() - 1);
                assert(w[w.len() - 1] == s1[s1.len() - 1]);
            }
        }
        let t = w.push((k2, d));
        lemma_store_unique(s1, k2, d);
        let j = t.len() - 2;
        let tail = t.skip(j);
        assert(tail =~= seq![item, (k2, d)]);
        assert(tail.drop_last() =~= seq![item]);
        assert(seq![item].drop_last() =~= Seq::<CacheItem>::empty());
        assert(bytes_of(tail) == item.1.bgra@.len() + d.bgra@.len()) by {
            reveal_with_fuel(bytes_of, 3);
        }
        lemma_evict_keeps_fitting_suffix(t, j, cfg);
        let m = choose|m: int| 0 <= m <= j && evict(t, cfg) == t.skip(m);
        let r = t.skip(m);
        lemma_find_in_suffix(t, m, k);
        assert(r[j - m] == item);
        lemma_find_unique(r, k, j - m);
    }
}

proof fn lemma_evict_within_limits(t: Seq<CacheItem>, cfg: &Settings)
    ensures
        !over_limits(evict(t, cfg), cfg) || evict(t, cfg).len() == 0,
    decreases t.len(),
{
    if t.len() > 0 && over_limits(t, cfg) {
        lemma_evict_within_limits(t.drop_first(), cfg);
    }
}

/// After a store the cache holds at most `CacheEntries` thumbnails of at
/// most `CacheMB` megabytes in all.
pub proof fn lemma_store_within_limits(s: Seq<CacheItem>, k: KeyView, d: Arc<ThumbData>, cfg: &Settings)
    requires
        cfg.wf(),
        stores(d, cfg),
    ensures
        after_store(s, k, d, cfg).len() <= cfg.cache_entries,
        bytes_of(after_store(s, k, d, cfg)) <= cfg.cache_mb * 1024 * 1024,
{
    let t = without_key(s, k).push((k, d));
    lemma_evict_within_limits(t, cfg);
    if evict(t, cfg).len() == 0 {
        assert(bytes_of(evict(t, cfg)) == 0);
    }
}

/// A lookup never changes what any key gives back; it only reorders items.
pub proof fn lemma_lookup_keeps_contents(s: Seq<CacheItem>, k: KeyView, k2: KeyView, cfg: &Settings)
    requires
        unique_keys(s),
    ensures
        spec_lookup(after_lookup(s, k, cfg), k2, cfg) == spec_lookup(s, k2, cfg),
        unique_keys(after_lookup(s, k, cfg)),
{
    lemma_find_key(s, k);
    lemma_find_key(s, k2);
    if cache_enabled(cfg) && find_key(s, k) >= 0 {
        let f = find_key(s, k);
        let t = s.remove(f).push(s[f]);
        assert(unique_keys(t)) by {
            assert forall|i: int, j: int| 0 <= i < j < t.len() implies t[i].0 != t[j].0 by {
                let i0 = if i < f { i } else { i + 1 };
                if j < t.len() - 1 {
                    let j0 = if j < f { j } else { j + 1 };
                    assert(t[j] == s[j0]);
                }
                assert(t[i] == s[i0]);
            }
        }
        lemma_find_key(t, k2);
        if find_key(s, k2) >= 0 {
            let p = find_key(s, k2);
            let q = if p == f { t.len() - 1 } else if p < f { p } else { p - 1 };
            assert(t[q] == s[p]);
            lemma_find_unique(t, k2, q);
        } else {
            assert forall|i: int| 0 <= i < t.len() implies t[i].0 != k2 by {
                if i < t.len() - 1 {
                    let i0 = if i < f { i } else { i + 1 };
                    assert(t[i] == s[i0]);
                }
            }
        }
    }
}

/// A thumbnail cache, from the least to the most recently used item.
pub struct ThumbCache {
    items: Vec<(CacheKey, Arc<ThumbData>)>,
    total_bytes: usize,
}

/// `Arc::clone`: another handle to the same value.
#[verifier::external_body]
fn share<T>(a: &Arc<T>) -> (r: Arc<T>)
    ensures
        r == *a,
{
    Arc::clone(a)
}

/// Adding an item adds its bytes.
pub proof fn lemma_bytes_push(s: Seq<CacheItem>, x: CacheItem)
    ensures
        bytes_of(s.push(x)) == bytes_of(s) + x.1.bgra@.len(),
{
    assert(s.push(x).drop_last() =~= s);
}

/// Removing an item takes away its bytes.
pub proof fn lemma_bytes_remove(s: Seq<CacheItem>, i: int)
    requires
        0 <= i < s.len(),
    ensures
        bytes_of(s) == bytes_of(s.remove(i)) + s[i].1.bgra@.len(),
    decreases s.len(),
{
    if i < s.len() - 1 {
        lemma_bytes_remove(s.drop_last(), i);
        assert(s.remove(i).drop_last() =~= s.drop_last().remove(i));
        assert(s.remove(i).last() == s.last());
    } else {
        assert(s.remove(i) =~= s.drop_last());
    }
}

/// `find_key` gives a position holding the key, or `-1` when no item has
/// it.
pub proof fn lemma_find_key(s: Seq<CacheItem>, k: KeyView)
    ensures
        -1 <= find_key(s, k) < s.len(),
        find_key(s, k) >= 0 ==> s[find_key(s, k)].0 == k,
        find_key(s, k) < 0 ==> forall|i: int| 0 <= i < s.len() ==> s[i].0 != k,
    decreases s.len(),
{
    if s.len() > 0 && s.last().0 != k {
        lemma_find_key(s.drop_last(), k);
        assert forall|i: int| 0 <= i < s.len() - 1 implies s[i] == s.drop_last()[i] by {}
    }
}

/// With unique keys, the item holding a key is the one `find_key` gives.
pub proof fn lemma_find_unique(s: Seq<CacheItem>, k: KeyView, i: int)
    requires
        unique_keys(s),
        0 <= i < s.len(),
        s[i].0 == k,
    ensures
        find_key(s, k) == i,
{
    lemma_find_key(s, k);
}


/// Whether two keys are the same: same path units and same box.
pub fn keys_equal(a: &CacheKey, b: &CacheKey) -> (r: bool)
    ensures
        r == (key_view(a) == key_view(b)),
{
    if a.max_w != b.max_w || a.max_h != b.max_h || a.path.len() != b.path.len() {
        return false;
    }
    let mut i: usize = 0;
    while i < a.path.len()
        invariant
            i <= a.path.len() == b.path.len(),
            forall|j: int| 0 <= j < i ==> a.path@[j] == b.path@[j],
        decreases a.path.len() - i,
    {
        if a.path[i] != b.path[i] {
            return false;
        }
        i += 1;
    }
    assert(a.path@ =~= b.path@);
    true
}

impl ThumbCache {
    /// The cached items, from the least to the most recently used.  The
    /// bytes held are `bytes_of` of them (see `total_bytes`).
    pub closed spec fn items(&self) -> Seq<CacheItem> {
        view_items(self.items@)
    }

    #[verifier::type_invariant]
    closed spec fn inv(&self) -> bool {
        &&& unique_keys(self.items())
        &&& self.total_bytes == bytes_of(self.items())
        &&& self.total_bytes <= MAX_CACHE_BYTES
    }

    /// The bytes of pixel data held.
    pub fn total_bytes(&self) -> (r: usize)
        ensures
            r == bytes_of(self.items()),
            r <= MAX_CACHE_BYTES,
    {
        proof {
            use_type_invariant(self);
        }
        self.total_bytes
    }

    /// An empty cache.
    pub fn new() -> (c: Self)
        ensures
            c.items() == Seq::<CacheItem>::empty(),
            unique_keys(c.items()),
    {
        let c = ThumbCache { items: Vec::new(), total_bytes: 0 };
        assert(c.items() =~= Seq::<CacheItem>::empty());
        c
    }

    /// Where the item under `key` is, if there is one.
    #[verifier::loop_isolation(false)]
    fn position_of(&self, key: &CacheKey) -> (r: Option<usize>)
        ensures
            r matches Some(i) ==> i == find_key(self.items(), key_view(key)) && i
                < self.items@.len(),
            r is None ==> find_key(self.items(), key_view(key)) < 0,
    {
        proof {
            use_type_invariant(self);
            lemma_find_key(self.items(), key_view(key));
        }
        let mut i: usize = 0;
        while i < self.items.len()
            invariant
                i <= self.items.len(),
                self.items().len() == self.items@.len(),
                forall|j: int| 0 <= j < i ==> self.items()[j].0 != key_view(key),
            decreases self.items.len() - i,
        {
            if keys_equal(&self.items[i].0, key) {
                proof {
                    lemma_find_unique(self.items(), key_view(key), i as int);
                }
                return Some(i);
            }
            i += 1;
        }
        None
    }

    /// Looks up the thumbnail under `key`; a hit becomes the most recently
    /// used item.  Nothing is found while the settings disable the cache.
    pub fn get(&mut self, key: &CacheKey, cfg: &Settings) -> (r: Option<Arc<ThumbData>>)
        ensures
            r == spec_lookup(old(self).items(), key_view(key), cfg),
            final(self).items() == after_lookup(old(self).items(), key_view(key), cfg),
            unique_keys(final(self).items()),
            bytes_of(final(self).items()) == bytes_of(old(self).items()),
    {
        proof {
            use_type_invariant(&*self);
        }
        if cfg.cache_mb == 0 || cfg.cache_entries == 0 {
            return None;
        }
        match self.position_of(key) {
            None => None,
            Some(i) => {
                let ghost s = self.items();
                let mut cur = ThumbCache::new();
                std::mem::swap(self, &mut cur);
                proof {
                    use_type_invariant(&cur);
                }
                let ThumbCache { mut items, total_bytes } = cur;
                let item = items.remove(i);
                let data = share(&item.1);
                items.push(item);
                proof {
                    assert(view_items(items@) =~= s.remove(i as int).push(s[i as int]));
                    lemma_bytes_remove(s, i as int);
                    lemma_bytes_push(s.remove(i as int), s[i as int]);
                    assert(unique_keys(view_items(items@)));
                }
                let next = ThumbCache { items, total_bytes };
                *self = next;
                Some(data)
            },
        }
    }

    /// Stores `data` under `key` as the most recently used item, replacing
    /// any item under `key`, then drops least recently used items while there
    /// are more than `CacheEntries` items or more than `CacheMB` megabytes.
    /// Nothing is stored while the cache is disabled, nor an empty thumbnail,
    /// nor one larger than the byte limit.
    pub fn put(&mut self, key: CacheKey, data: Arc<ThumbData>, cfg: &Settings)
        requires
            cfg.wf(),
        ensures
            final(self).items() == after_store(old(self).items(), key_view(&key), data, cfg),
            stores(data, cfg) ==> !over_limits(final(self).items(), cfg),
            unique_keys(final(self).items()),
    {
        proof {
            use_type_invariant(&*self);
        }
        if cfg.cache_mb == 0 || cfg.cache_entries == 0 {
            return;
        }
        let limit: usize = cfg.cache_mb as usize * 1024 * 1024;
        let n = data.bgra.len();
        if n == 0 || n > limit {
            return;
        }
        let ghost s = self.items();
        let ghost k = key_view(&key);
        let mut cur = ThumbCache::new();
        std::mem::swap(self, &mut cur);
        proof {
            use_type_invariant(&cur);
        }
        let ThumbCache { mut items, mut total_bytes } = cur;
        let probe = ThumbCache { items, total_bytes };
        let pos = probe.position_of(&key);
        let ThumbCache { mut items, mut total_bytes } = probe;
        if let Some(i) = pos {
            let old_item = items.remove(i);
            proof {
                lemma_bytes_remove(s, i as int);
                assert(view_items(items@) =~= s.remove(i as int));
            }
            total_bytes = total_bytes - old_item.1.bgra.len();
        } else {
            proof {
                lemma_find_key(s, k);
            }
        }
        let ghost base = view_items(items@);
        assert(base == without_key(s, k));
        proof {
            lemma_find_key(s, k);
            lemma_bytes_push(base, (k, data));
        }
        total_bytes = total_bytes + n;
        items.push((key, data));
        assert(view_items(items@) =~= base.push((k, data)));
        let max_entries = cfg.cache_entries as usize;
        while items.len() > 0 && (items.len() > max_entries || total_bytes > limit)
            invariant
                limit == byte_limit(cfg),
                max_entries == cfg.cache_entries,
                total_bytes == bytes_of(view_items(items@)),
                total_bytes <= 2 * MAX_CACHE_BYTES,
                unique_keys(view_items(items@)),
                evict(view_items(items@), cfg) == evict(base.push((k, data)), cfg),
            decreases items.len(),
        {
            let ghost before = view_items(items@);
            let gone = items.remove(0);
            proof {
                lemma_bytes_remove(before, 0);
                assert(view_items(items@) =~= before.drop_first());
                assert(before.remove(0) =~= before.drop_first());
            }
            total_bytes = total_bytes - gone.1.bgra.len();
        }
        let next = ThumbCache { items, total_bytes };
        *self = next;
    }
}

} // verus!
