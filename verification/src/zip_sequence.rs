//! Which images of a ZIP image sequence are tried, and in what order: the
//! first `MaxCandidates` image entries in natural name order, chosen while
//! the archive is scanned once and holding no more than that many.
use crate::entry_name::{is_image_entry_name, names_image};
use crate::natural::{
    lemma_natural_antisym, lemma_natural_refl, lemma_natural_trans, natural_sign,
    natural_sign_of_bytes,
};
use crate::settings::Settings;
use vstd::prelude::*;
use vstd::utf8::encode_utf8;

verus! {

/// What the archive says of one of its entries.
pub struct ZipEntryInfo {
    pub name: String,
    pub size: u64,
    pub is_dir: bool,
}

/// An image entry chosen to be tried: its position in the archive, its name
/// and its uncompressed size.
pub struct ZipCandidate {
    pub index: usize,
    pub name: String,
    pub size: u64,
}

/// An entry as a value: name, size, whether it is a directory.
pub type EntryView = (Seq<char>, u64, bool);

pub open spec fn entry_view(e: ZipEntryInfo) -> EntryView {
    (e.name@, e.size, e.is_dir)
}

/// The entries of an archive as values.
pub open spec fn entry_views(es: Seq<ZipEntryInfo>) -> Seq<EntryView> {
    es.map_values(|e: ZipEntryInfo| entry_view(e))
}

/// The largest entry, in bytes, that is read.
pub open spec fn max_entry_bytes(cfg: &Settings) -> int {
    cfg.zip_max_entry_mb * 1024 * 1024
}

/// Whether an entry may be tried: a file, not empty, of at most `max_entry`
/// bytes, with an image name.
pub open spec fn eligible(e: EntryView, max_entry: int) -> bool {
    !e.2 && e.1 != 0 && e.1 <= max_entry && names_image(e.0)
}

/// The order in which candidates are tried: natural order of the names,
/// then position in the archive.
pub open spec fn tried_before(a: (Seq<char>, int), b: (Seq<char>, int)) -> bool {
    let s = natural_sign(encode_utf8(a.0), encode_utf8(b.0));
    s < 0 || (s == 0 && a.1 < b.1)
}

pub open spec fn entry_key(es: Seq<EntryView>, j: int) -> (Seq<char>, int) {
    (es[j].0, j)
}

pub open spec fn cand_key(c: ZipCandidate) -> (Seq<char>, int) {
    (c.name@, c.index as int)
}

/// How many of the first `n` entries may be tried.
pub open spec fn count_eligible(es: Seq<EntryView>, n: int, max_entry: int) -> int
    decreases n,
{
    if n <= 0 {
        0
    } else {
        count_eligible(es, n - 1, max_entry) + if eligible(es[n - 1], max_entry) {
            1int
        } else {
            0
        }
    }
}

/// `r` is what the selection gives for the first `n` entries of `es`, with
/// room for `keep` candidates: `min(keep, eligible)` eligible entries,
/// copied faithfully, in the order they are tried, and every eligible entry
/// left out comes after all of them.
pub open spec fn selects(
    r: Seq<ZipCandidate>,
    es: Seq<EntryView>,
    n: int,
    keep: int,
    max_entry: int,
) -> bool {
    &&& r.len() == if count_eligible(es, n, max_entry) < keep {
        count_eligible(es, n, max_entry)
    } else {
        keep
    }
    &&& forall|p: int|
        0 <= p < r.len() ==> {
            &&& 0 <= #[trigger] r[p].index < n
            &&& eligible(es[r[p].index as int], max_entry)
            &&& r[p].name@ == es[r[p].index as int].0
            &&& r[p].size == es[r[p].index as int].1
        }
    &&& forall|p: int, q: int| 0 <= p < q < r.len() ==> tried_before(cand_key(r[p]), cand_key(r[q]))
    &&& forall|j: int|
        0 <= j < n && eligible(es[j], max_entry) && (forall|p: int|
            0 <= p < r.len() ==> #[trigger] r[p].index != j) ==> r.len() == keep && r.len() > 0
            && tried_before(cand_key(r.last()), entry_key(es, j))
}

proof fn lemma_before_trans(a: (Seq<char>, int), b: (Seq<char>, int), c: (Seq<char>, int))
    requires
        tried_before(a, b),
        tried_before(b, c),
    ensures
        tried_before(a, c),
{
    let (x, y, z) = (encode_utf8(a.0), encode_utf8(b.0), encode_utf8(c.0));
    lemma_natural_trans(x, y, z, 0);
    lemma_natural_antisym(x, y, 0);
    lemma_natural_antisym(y, z, 0);
    lemma_natural_antisym(x, z, 0);
    if natural_sign(x, z) == 0 {
        // c and a are equal in name order, so a < b <= c <= a unless all equal
        lemma_natural_trans(y, z, x, 0);
        lemma_natural_trans(z, x, y, 0);
    }
}

proof fn lemma_before_total(a: (Seq<char>, int), b: (Seq<char>, int))
    requires
        a.1 != b.1,
    ensures
        tried_before(a, b) || tried_before(b, a),
        !(tried_before(a, b) && tried_before(b, a)),
{
    lemma_natural_antisym(encode_utf8(a.0), encode_utf8(b.0), 0);
}

proof fn lemma_before_irrefl(a: (Seq<char>, int))
    ensures
        !tried_before(a, a),
{
    lemma_natural_refl(encode_utf8(a.0), 0);
}

/// Two selections from the same entries that agree before position `p`
/// cannot have the candidate of the first at `p` tried before that of the
/// second.
proof fn lemma_not_earlier(
    r1: Seq<ZipCandidate>,
    r2: Seq<ZipCandidate>,
    es: Seq<EntryView>,
    n: int,
    keep: int,
    max_entry: int,
    p: int,
)
    requires
        selects(r1, es, n, keep, max_entry),
        selects(r2, es, n, keep, max_entry),
        0 <= p < r1.len(),
        forall|q: int| 0 <= q < p ==> #[trigger] r1[q].index == r2[q].index,
        r1[p].index != r2[p].index,
    ensures
        !tried_before(cand_key(r1[p]), cand_key(r2[p])),
{
    if tried_before(cand_key(r1[p]), cand_key(r2[p])) {
        let j = r1[p].index as int;
        let ka = cand_key(r1[p]);
        let kb = cand_key(r2[p]);
        assert(ka == entry_key(es, j));
        lemma_before_total(ka, kb);
        if exists|q: int| 0 <= q < r2.len() && #[trigger] r2[q].index == j {
            let q = choose|q: int| 0 <= q < r2.len() && #[trigger] r2[q].index == j;
            assert(cand_key(r2[q]) == ka);
            if q < p {
                assert(r1[q].index == j);
                assert(cand_key(r1[q]) == ka);
                lemma_before_irrefl(ka);
            } else {
                assert(q > p);
                assert(tried_before(kb, cand_key(r2[q])));
            }
        } else {
            let last = r2.len() - 1;
            assert(tried_before(cand_key(r2[last]), ka));
            if p < last {
                lemma_before_trans(kb, cand_key(r2[last]), ka);
            }
        }
    }
}

/// The selections of the same entries hold the same candidates in the same
/// order, up to `p`.
proof fn lemma_agree_upto(
    r1: Seq<ZipCandidate>,
    r2: Seq<ZipCandidate>,
    es: Seq<EntryView>,
    n: int,
    keep: int,
    max_entry: int,
    p: int,
)
    requires
        selects(r1, es, n, keep, max_entry),
        selects(r2, es, n, keep, max_entry),
        p < r1.len(),
    ensures
        forall|q: int| 0 <= q <= p ==> #[trigger] r1[q].index == r2[q].index,
    decreases p,
{
    if p >= 0 {
        if p > 0 {
            lemma_agree_upto(r1, r2, es, n, keep, max_entry, p - 1);
        }
        if r1[p].index != r2[p].index {
            lemma_before_total(cand_key(r1[p]), cand_key(r2[p]));
            if tried_before(cand_key(r1[p]), cand_key(r2[p])) {
                lemma_not_earlier(r1, r2, es, n, keep, max_entry, p);
            } else {
                lemma_not_earlier(r2, r1, es, n, keep, max_entry, p);
            }
        }
    }
}

/// The candidates are determined by the entries and the settings: any two
/// selections from the same entries hold the same entries, copied the same
/// way, in the same order.
pub proof fn lemma_selection_unique(
    r1: Seq<ZipCandidate>,
    r2: Seq<ZipCandidate>,
    es: Seq<EntryView>,
    n: int,
    keep: int,
    max_entry: int,
)
    requires
        selects(r1, es, n, keep, max_entry),
        selects(r2, es, n, keep, max_entry),
    ensures
        r1.len() == r2.len(),
        forall|p: int|
            0 <= p < r1.len() ==> #[trigger] r1[p].index == r2[p].index && r1[p].name@ == r2[p].name@
                && r1[p].size == r2[p].size,
{
    lemma_agree_upto(r1, r2, es, n, keep, max_entry, r1.len() - 1);
    assert forall|p: int| 0 <= p < r1.len() implies #[trigger] r1[p].index == r2[p].index
        && r1[p].name@ == r2[p].name@ && r1[p].size == r2[p].size by {
        assert(r1[p].index == r2[p].index);
    }
}

/// The candidates come in natural name order, candidates whose names are
/// naturally equal come in archive order, and no entry is held twice.
pub proof fn lemma_selection_order(
    r: Seq<ZipCandidate>,
    es: Seq<EntryView>,
    n: int,
    keep: int,
    max_entry: int,
    p: int,
    q: int,
)
    requires
        selects(r, es, n, keep, max_entry),
        0 <= p < q < r.len(),
    ensures
        natural_sign(encode_utf8(r[p].name@), encode_utf8(r[q].name@)) <= 0,
        natural_sign(encode_utf8(r[p].name@), encode_utf8(r[q].name@)) == 0 ==> r[p].index
            < r[q].index,
        r[p].index != r[q].index,
{
    assert(tried_before(cand_key(r[p]), cand_key(r[q])));
    if r[p].index == r[q].index {
        assert(cand_key(r[p]) == cand_key(r[q]));
        lemma_before_irrefl(cand_key(r[p]));
    }
}

/// While fewer entries may be tried than there is room for, every one of
/// them is a candidate.
pub proof fn lemma_selection_keeps_all(
    r: Seq<ZipCandidate>,
    es: Seq<EntryView>,
    n: int,
    keep: int,
    max_entry: int,
    j: int,
)
    requires
        selects(r, es, n, keep, max_entry),
        r.len() < keep,
        0 <= j < n,
        !es[j].2,
        es[j].1 != 0,
        es[j].1 <= max_entry,
        names_image(es[j].0),
    ensures
        exists|p: int| 0 <= p < r.len() && #[trigger] r[p].index == j,
{
}

proof fn lemma_count_prefix(es: Seq<EntryView>, e: EntryView, n: int, max_entry: int)
    requires
        0 <= n <= es.len(),
    ensures
        count_eligible(es.push(e), n, max_entry) == count_eligible(es, n, max_entry),
    decreases n,
{
    if n > 0 {
        lemma_count_prefix(es, e, n - 1, max_entry);
        assert(es.push(e)[n - 1] == es[n - 1]);
    }
}

/// What is selected from some entries is what is selected from the same
/// first entries when one more follows them.
proof fn lemma_selects_push(r: Seq<ZipCandidate>, es: Seq<EntryView>, e: EntryView, keep: int, max_entry: int)
    requires
        selects(r, es, es.len() as int, keep, max_entry),
    ensures
        selects(r, es.push(e), es.len() as int, keep, max_entry),
{
    lemma_count_prefix(es, e, es.len() as int, max_entry);
    let es2 = es.push(e);
    assert forall|j: int| 0 <= j < es.len() implies es2[j] == es[j] by {}
    assert forall|p: int| 0 <= p < r.len() implies es2[#[trigger] r[p].index as int] == es[r[p].index as int] by {}
    assert forall|j: int| 0 <= j < es.len() implies #[trigger] entry_key(es2, j) == entry_key(es, j) by {}
}

/// Whether candidate `a` is tried before the entry `name` at position `j`.
fn tried_before_exec(a: &ZipCandidate, name: &String, j: usize) -> (r: bool)
    ensures
        r == tried_before(cand_key(*a), (name@, j as int)),
{
    let s = natural_sign_of_bytes(a.name.as_str().as_bytes(), name.as_str().as_bytes());
    s < 0 || (s == 0 && a.index < j)
}

/// The candidates chosen so far while the entries of an archive are
/// offered one by one, in archive order.
pub struct CandidateSelection {
    kept: Vec<ZipCandidate>,
    keep: usize,
    max_entry: u64,
    count: usize,
    seen: Ghost<Seq<EntryView>>,
}

impl CandidateSelection {
    /// The entries offered so far.
    pub closed spec fn entries(&self) -> Seq<EntryView> {
        self.seen@
    }

    /// The candidates held, in the order they are tried.
    pub closed spec fn candidates(&self) -> Seq<ZipCandidate> {
        self.kept@
    }

    /// How many candidates are held at most.
    pub closed spec fn room(&self) -> int {
        self.keep as int
    }

    /// The largest entry, in bytes, that may be a candidate.
    pub closed spec fn entry_limit(&self) -> int {
        self.max_entry as int
    }

    #[verifier::type_invariant]
    closed spec fn inv(&self) -> bool {
        &&& 1 <= self.keep
        &&& self.count == self.seen@.len()
        &&& selects(self.kept@, self.seen@, self.seen@.len() as int, self.keep as int, self.max_entry as int)
    }

    /// Whether the held candidates are those selected from the entries
    /// offered so far.
    pub open spec fn holds_selection(&self) -> bool {
        selects(self.candidates(), self.entries(), self.entries().len() as int, self.room(), self.entry_limit())
    }

    fn empty() -> (s: Self)
        ensures
            s.entries() == Seq::<EntryView>::empty(),
    {
        CandidateSelection { kept: Vec::new(), keep: 1, max_entry: 0, count: 0, seen: Ghost(Seq::empty()) }
    }

    /// A selection with room for `MaxCandidates` entries of at most
    /// `MaxEntryMB`, before any entry is offered.
    pub fn new(cfg: &Settings) -> (s: Self)
        requires
            cfg.wf(),
        ensures
            s.entries() == Seq::<EntryView>::empty(),
            s.candidates() == Seq::<ZipCandidate>::empty(),
            s.room() == cfg.zip_max_candidates,
            s.entry_limit() == max_entry_bytes(cfg),
            s.holds_selection(),
    {
        let max_entry: u64 = cfg.zip_max_entry_mb as u64 * 1024 * 1024;
        let s = CandidateSelection {
            kept: Vec::new(),
            keep: cfg.zip_max_candidates as usize,
            max_entry,
            count: 0,
            seen: Ghost(Seq::empty()),
        };
        assert(s.kept@ =~= Seq::<ZipCandidate>::empty());
        s
    }

    /// How many entries were offered.
    pub fn offered(&self) -> (r: usize)
        ensures
            r == self.entries().len(),
    {
        proof {
            use_type_invariant(self);
        }
        self.count
    }

    /// The candidates held, in the order they are tried.
    pub fn into_candidates(self) -> (r: Vec<ZipCandidate>)
        ensures
            r@ == self.candidates(),
            self.holds_selection(),
    {
        proof {
            use_type_invariant(&self);
        }
        let CandidateSelection { kept, .. } = self;
        kept
    }

    /// Offers the next entry of the archive: it becomes a candidate when it
    /// may be tried and there is room, or when it comes before the last held
    /// candidate, which then leaves.
    #[verifier::loop_isolation(false)]
    #[verifier::rlimit(50)]
    pub fn offer(&mut self, e: &ZipEntryInfo)
        requires
            old(self).entries().len() < usize::MAX,
        ensures
            final(self).entries() == old(self).entries().push(entry_view(*e)),
            final(self).room() == old(self).room(),
            final(self).entry_limit() == old(self).entry_limit(),
            final(self).holds_selection(),
            final(self).candidates().len() <= final(self).room(),
    {
        proof {
            use_type_invariant(&*self);
        }
        let mut cur = CandidateSelection::empty();
        std::mem::swap(self, &mut cur);
        proof {
            use_type_invariant(&cur);
        }
        let CandidateSelection { mut kept, keep, max_entry, count, seen } = cur;
        let i = count;
        let ghost es = seen@.push(entry_view(*e));
        let ghost old_kept = kept@;
        let ghost ki = entry_key(es, i as int);
        proof {
            lemma_selects_push(old_kept, seen@, entry_view(*e), keep as int, max_entry as int);
        }
        assert(es[i as int] == entry_view(*e));
        if e.is_dir || e.size == 0 || e.size > max_entry || !is_image_entry_name(e.name.as_str()) {
            assert(!eligible(es[i as int], max_entry as int));
            assert(count_eligible(es, i + 1, max_entry as int) == count_eligible(es, i as int, max_entry as int));
        } else {
            assert(eligible(es[i as int], max_entry as int));
            let len = kept.len();
            let should_keep = len < keep || !tried_before_exec(&kept[len - 1], &e.name, i);
            if should_keep {
                let mut p: usize = 0;
                while p < kept.len() && tried_before_exec(&kept[p], &e.name, i)
                    invariant
                        p <= kept.len(),
                        kept@ == old_kept,
                        forall|q: int| 0 <= q < p ==> tried_before(cand_key(#[trigger] kept@[q]), ki),
                    decreases kept.len() - p,
                {
                    p += 1;
                }
                let c = ZipCandidate { index: i, name: e.name.clone(), size: e.size };
                assert(cand_key(c) == ki);
                proof {
                    // the candidate comes before every held candidate from p on
                    if p < old_kept.len() {
                        lemma_before_total(cand_key(old_kept[p as int]), ki);
                        assert forall|q: int| p <= q < old_kept.len() implies tried_before(ki, cand_key(#[trigger] old_kept[q])) by {
                            if q > p {
                                lemma_before_trans(ki, cand_key(old_kept[p as int]), cand_key(old_kept[q]));
                            }
                        }
                    }
                    if len == keep {
                        lemma_before_total(cand_key(old_kept[len - 1]), ki);
                        if p == len {
                            assert(tried_before(cand_key(old_kept[len - 1]), ki));
                        }
                    }
                }
                kept.insert(p, c);
                let ghost ins = kept@;
                assert(forall|q: int| 0 <= q < p ==> ins[q] == old_kept[q]);
                assert(forall|q: int| p < q < ins.len() ==> ins[q] == old_kept[q - 1]);
                assert(ins[p as int] == c);
                if kept.len() > keep {
                    kept.pop();
                    proof {
                        let gone = old_kept[len - 1];
                        let now = kept@;
                        assert(now =~= ins.subrange(0, ins.len() - 1));
                        // what was left out stays after the new last candidate
                        if p == len - 1 {
                            assert(now.last() == c);
                        } else {
                            assert(now.last() == old_kept[len - 2]);
                        }
                        assert(tried_before(cand_key(now.last()), cand_key(gone)));
                        assert forall|j: int|
                            0 <= j < i + 1 && eligible(es[j], max_entry as int) && (forall|q: int|
                                0 <= q < now.len() ==> #[trigger] now[q].index != j) implies now.len()
                            == keep && now.len() > 0 && tried_before(
                            cand_key(now.last()),
                            entry_key(es, j),
                        ) by {
                            if j == gone.index {
                                assert(cand_key(gone) == entry_key(es, j));
                            } else if j == i {
                                assert(now[p as int].index == j);
                            } else {
                                assert forall|q: int| 0 <= q < old_kept.len() implies #[trigger] old_kept[q].index != j by {
                                    if q < p {
                                        assert(now[q] == old_kept[q]);
                                    } else if q < len - 1 {
                                        assert(now[q + 1] == old_kept[q]);
                                    }
                                }
                                lemma_before_trans(cand_key(now.last()), cand_key(gone), entry_key(es, j));
                            }
                        }
                        assert forall|a: int, b: int| 0 <= a < b < now.len() implies tried_before(cand_key(now[a]), cand_key(now[b])) by {
                            assert(now[a] == ins[a] && now[b] == ins[b]);
                        }
                    }
                } else {
                    proof {
                        assert forall|j: int|
                            0 <= j < i + 1 && eligible(es[j], max_entry as int) && (forall|q: int|
                                0 <= q < ins.len() ==> #[trigger] ins[q].index != j) implies false by {
                            if j < i {
                                assert forall|q: int| 0 <= q < old_kept.len() implies #[trigger] old_kept[q].index != j by {
                                    if q < p {
                                        assert(ins[q] == old_kept[q]);
                                    } else {
                                        assert(ins[q + 1] == old_kept[q]);
                                    }
                                }
                            } else {
                                assert(ins[p as int].index == j);
                            }
                        }
                    }
                }
            } else {
                proof {
                    lemma_before_total(cand_key(old_kept[len - 1]), ki);
                }
            }
        }
        assert(selects(kept@, es, es.len() as int, keep as int, max_entry as int));
        let next = CandidateSelection { kept, keep, max_entry, count: count + 1, seen: Ghost(es) };
        *self = next;
    }
}

/// The image entries to try, in the order to try them: of the entries that
/// are files, not empty, at most `MaxEntryMB` large and named like images,
/// the first `MaxCandidates` in natural name order (ties by position).
/// Entries are looked at once each and at most `MaxCandidates` are held.
pub fn select_zip_candidates(entries: &Vec<ZipEntryInfo>, cfg: &Settings) -> (r: Vec<ZipCandidate>)
    requires
        cfg.wf(),
    ensures
        selects(
            r@,
            entry_views(entries@),
            entries@.len() as int,
            cfg.zip_max_candidates as int,
            max_entry_bytes(cfg),
        ),
{
    let mut sel = CandidateSelection::new(cfg);
    let mut i: usize = 0;
    while i < entries.len()
        invariant
            i <= entries.len(),
            sel.entries() == entry_views(entries@).take(i as int),
            sel.room() == cfg.zip_max_candidates,
            sel.entry_limit() == max_entry_bytes(cfg),
            sel.holds_selection(),
        decreases entries.len() - i,
    {
        sel.offer(&entries[i]);
        assert(entry_views(entries@).take(i + 1) =~= entry_views(entries@).take(i as int).push(
            entry_view(entries@[i as int]),
        ));
        i += 1;
    }
    assert(entry_views(entries@).take(i as int) =~= entry_views(entries@));
    sel.into_candidates()
}

/// Whether the entry at archive position `index` is passed over: its bytes
/// were read but are more than `max_entry` bytes, or do not decode.
pub open spec fn candidate_passed<T, R: Fn(usize) -> Option<Vec<u8>>, D: Fn(Vec<u8>) -> Option<T>>(
    read: R,
    decode: D,
    index: usize,
    max_entry: u64,
) -> bool {
    exists|b: Vec<u8>|
        #[trigger] read.ensures((index,), Some(b)) && (b@.len() > max_entry || decode.ensures(
            (b,),
            None,
        ))
}

/// Whether the first `k` candidates of `cands` were all passed over.
pub open spec fn passed_first<T, R: Fn(usize) -> Option<Vec<u8>>, D: Fn(Vec<u8>) -> Option<T>>(
    cands: Seq<ZipCandidate>,
    read: R,
    decode: D,
    k: int,
    max_entry: u64,
) -> bool {
    forall|j: int| 0 <= j < k ==> candidate_passed(read, decode, #[trigger] cands[j].index, max_entry)
}

/// Tries the candidates in order: `read` gives the bytes of the entry at an
/// archive position (`None` when the archive cannot be read, which ends the
/// attempt), an entry of more than `max_entry` bytes is passed over, and the
/// first thumbnail that `decode` makes of the bytes is returned.
pub fn decode_first_candidate<T, R: Fn(usize) -> Option<Vec<u8>>, D: Fn(Vec<u8>) -> Option<T>>(
    cands: &Vec<ZipCandidate>,
    max_entry: u64,
    read: R,
    decode: D,
) -> (r: Option<T>)
    requires
        forall|i: usize| read.requires((i,)),
        forall|b: Vec<u8>| decode.requires((b,)),
    ensures
        r is Some ==> exists|k: int|
            #![trigger passed_first(cands@, read, decode, k, max_entry)]
            0 <= k < cands@.len() && passed_first(cands@, read, decode, k, max_entry) && exists|
                b: Vec<u8>,
            |
                #[trigger] read.ensures((cands@[k].index,), Some(b)) && b@.len() <= max_entry
                    && decode.ensures((b,), r),
        r is None ==> exists|k: int|
            #![trigger passed_first(cands@, read, decode, k, max_entry)]
            0 <= k <= cands@.len() && passed_first(cands@, read, decode, k, max_entry) && (k
                < cands@.len() ==> read.ensures((cands@[k].index,), None)),
{
    let mut k: usize = 0;
    while k < cands.len()
        invariant
            k <= cands.len(),
            forall|i: usize| read.requires((i,)),
            forall|b: Vec<u8>| decode.requires((b,)),
            passed_first(cands@, read, decode, k as int, max_entry),
        decreases cands.len() - k,
    {
        let index = cands[k].index;
        let bytes = match read(index) {
            Some(b) => b,
            None => {
                assert(cands@[k as int].index == index);
                assert(passed_first(cands@, read, decode, k as int, max_entry));
                return None;
            },
        };
        let ghost read_bytes = bytes;
        if bytes.len() as u64 > max_entry {
            assert(candidate_passed(read, decode, index, max_entry));
        } else {
            let out = decode(bytes);
            if out.is_some() {
                assert(cands@[k as int].index == index);
                assert(read.ensures((cands@[k as int].index,), Some(read_bytes)));
                assert(passed_first(cands@, read, decode, k as int, max_entry));
                return out;
            }
            assert(candidate_passed(read, decode, index, max_entry));
        }
        assert(cands@[k as int].index == index);
        k += 1;
    }
    assert(passed_first(cands@, read, decode, k as int, max_entry));
    None
}

} // verus!
