use vstd::multiset::Multiset;
use vstd::prelude::*;

use crate::errors::Error;
use crate::sorted::{
    compare_bytes, copy_bytes, insert_new, lemma_lex_lt_le, lex_lt, pairs_map, sorted_keys, view_list,
    view_pairs,
};

verus! {

/// The outcome of checking one path.
#[derive(Debug, Clone, Copy, PartialEq, Eq, Structural)]
pub enum EntryStatus {
    /// The digest matches.
    Intact,
    /// The digest differs from the catalog's.
    VerificationError,
    /// The catalog lists the path but no file is there.
    Missing,
    /// A file is there that the catalog does not list.
    Unknown,
}

pub open spec fn short_name_of(s: EntryStatus) -> Seq<char> {
    match s {
        EntryStatus::Intact => "OK"@,
        EntryStatus::VerificationError => "FAIL"@,
        EntryStatus::Missing => "MISS"@,
        EntryStatus::Unknown => "UNKN"@,
    }
}

pub open spec fn tag_of(s: EntryStatus) -> Option<Seq<char>> {
    match s {
        EntryStatus::Intact => None,
        EntryStatus::VerificationError => Some("fail"@),
        EntryStatus::Missing => Some("missing"@),
        EntryStatus::Unknown => Some("unknown"@),
    }
}

impl EntryStatus {
    /// The four-letter marker of the plain report.
    pub fn short_name(&self) -> (r: &'static str)
        ensures
            r@ == short_name_of(*self),
    {
        match self {
            EntryStatus::Intact => "OK",
            EntryStatus::VerificationError => "FAIL",
            EntryStatus::Missing => "MISS",
            EntryStatus::Unknown => "UNKN",
        }
    }

    /// The status word of the structured report; none for `Intact`.
    pub fn tag(&self) -> (r: Option<&'static str>)
        ensures
            match r {
                Some(t) => tag_of(*self) == Some(t@),
                None => tag_of(*self) is None,
            },
    {
        match self {
            EntryStatus::Intact => None,
            EntryStatus::VerificationError => Some("fail"),
            EntryStatus::Missing => Some("missing"),
            EntryStatus::Unknown => Some("unknown"),
        }
    }
}

/// One checked path: its canonical path, the bytes read and the status.
pub struct ReportEntry {
    path: Vec<u8>,
    processed_size: u64,
    status: EntryStatus,
}

impl View for ReportEntry {
    type V = (Seq<u8>, u64, EntryStatus);

    closed spec fn view(&self) -> (Seq<u8>, u64, EntryStatus) {
        (self.path@, self.processed_size, self.status)
    }
}

impl ReportEntry {
    pub fn new(path: Vec<u8>, processed_size: u64, status: EntryStatus) -> (r: Self)
        ensures
            r@ == (path@, processed_size, status),
    {
        ReportEntry { path, processed_size, status }
    }

    pub fn path(&self) -> (r: &[u8])
        ensures
            r@ == self@.0,
    {
        self.path.as_slice()
    }

    /// The canonical path of the entry; the same bytes as `path`.
    pub fn canonical_path(&self) -> (r: &Vec<u8>)
        ensures
            r@ == self@.0,
    {
        &self.path
    }

    pub fn processed_size(&self) -> (r: u64)
        ensures
            r == self@.1,
    {
        self.processed_size
    }

    pub fn status(&self) -> (r: &EntryStatus)
        ensures
            *r == self@.2,
    {
        &self.status
    }
}

pub open spec fn view_entries(v: Seq<ReportEntry>) -> Seq<(Seq<u8>, u64, EntryStatus)> {
    v.map_values(|e: ReportEntry| e@)
}

/// The bytes read over all entries.
pub open spec fn sum_sizes(s: Seq<(Seq<u8>, u64, EntryStatus)>) -> int
    decreases s.len(),
{
    if s.len() == 0 {
        0
    } else {
        sum_sizes(s.drop_last()) + s.last().1
    }
}

pub proof fn lemma_sum_prefix(s: Seq<(Seq<u8>, u64, EntryStatus)>, i: int)
    requires
        0 <= i <= s.len(),
    ensures
        0 <= sum_sizes(s.subrange(0, i)) <= sum_sizes(s),
    decreases s.len() - i,
{
    if i < s.len() {
        lemma_sum_prefix(s, i + 1);
        assert(s.subrange(0, i + 1).drop_last() =~= s.subrange(0, i));
    } else {
        assert(s.subrange(0, i) =~= s);
    }
    lemma_sum_nonneg(s.subrange(0, i));
}

proof fn lemma_sum_nonneg(s: Seq<(Seq<u8>, u64, EntryStatus)>)
    ensures
        sum_sizes(s) >= 0,
    decreases s.len(),
{
    if s.len() > 0 {
        lemma_sum_nonneg(s.drop_last());
    }
}

pub open spec fn has_status(s: Seq<(Seq<u8>, u64, EntryStatus)>, st: EntryStatus) -> bool {
    exists|i: int| 0 <= i < s.len() && (#[trigger] s[i]).2 == st
}

/// The overall outcome of a report: a mismatch outranks a missing file,
/// which outranks an unknown one.
pub open spec fn report_outcome(s: Seq<(Seq<u8>, u64, EntryStatus)>) -> Result<(), Error> {
    if has_status(s, EntryStatus::VerificationError) {
        Err(Error::VerificationFailed)
    } else if has_status(s, EntryStatus::Missing) {
        Err(Error::EntriesMissing)
    } else if has_status(s, EntryStatus::Unknown) {
        Err(Error::UnknownEntriesPresent)
    } else {
        Ok(())
    }
}

/// How many entries have status `st`.
pub open spec fn count_status(s: Seq<(Seq<u8>, u64, EntryStatus)>, st: EntryStatus) -> nat
    decreases s.len(),
{
    if s.len() == 0 {
        0
    } else {
        count_status(s.drop_last(), st) + if s.last().2 == st {
            1nat
        } else {
            0nat
        }
    }
}

pub proof fn lemma_count_bound(s: Seq<(Seq<u8>, u64, EntryStatus)>, st: EntryStatus)
    ensures
        count_status(s, st) <= s.len(),
    decreases s.len(),
{
    if s.len() > 0 {
        lemma_count_bound(s.drop_last(), st);
    }
}

pub open spec fn has_path(s: Seq<(Seq<u8>, u64, EntryStatus)>, p: Seq<u8>) -> bool {
    exists|i: int| 0 <= i < s.len() && (#[trigger] s[i]).0 == p
}

/// A live path that a report lists as unknown: not covered by an entry it
/// already had, and neither the manifest nor the root.
pub open spec fn is_unknown_path(
    old: Seq<(Seq<u8>, u64, EntryStatus)>,
    all: Seq<Seq<u8>>,
    signature_file: Seq<u8>,
    root: Seq<u8>,
    p: Seq<u8>,
) -> bool {
    &&& all.contains(p)
    &&& p != signature_file
    &&& p != root
    &&& !has_path(old, p)
}

/// Entries in path order; entries with equal paths keep no particular order.
pub open spec fn path_sorted(s: Seq<(Seq<u8>, u64, EntryStatus)>) -> bool {
    forall|i: int, j: int| 0 <= i < j < s.len() ==> !lex_lt(#[trigger] s[j].0, #[trigger] s[i].0)
}

proof fn lemma_insert_in_order(s: Seq<(Seq<u8>, u64, EntryStatus)>, p: int, e: (Seq<u8>, u64, EntryStatus))
    requires
        path_sorted(s),
        0 <= p <= s.len(),
        forall|i: int| 0 <= i < p ==> !lex_lt(e.0, #[trigger] s[i].0),
        forall|i: int| p <= i < s.len() ==> lex_lt(e.0, #[trigger] s[i].0),
    ensures
        path_sorted(s.insert(p, e)),
{
    let t = s.insert(p, e);
    assert forall|i: int, j: int| 0 <= i < j < t.len() implies !lex_lt(#[trigger] t[j].0, #[trigger] t[i].0) by {
        if j < p {
            assert(t[i] == s[i] && t[j] == s[j]);
        } else if j == p {
            assert(t[i] == s[i]);
        } else if i == p {
            assert(t[j] == s[j - 1]);
            crate::sorted::lemma_lex_irreflexive(e.0);
            if lex_lt(s[j - 1].0, e.0) {
                crate::sorted::lemma_lex_transitive(e.0, s[j - 1].0, e.0);
            }
        } else if i < p {
            assert(t[i] == s[i] && t[j] == s[j - 1]);
            if lex_lt(s[j - 1].0, s[i].0) {
                lemma_lex_lt_le(e.0, s[j - 1].0, s[i].0);
            }
        } else {
            assert(t[i] == s[i - 1] && t[j] == s[j - 1]);
        }
    }
}

/// The position after every entry whose path does not sort after `k`.
fn upper_bound(v: &Vec<ReportEntry>, k: &[u8]) -> (p: usize)
    requires
        path_sorted(view_entries(v@)),
    ensures
        p <= v@.len(),
        forall|i: int| 0 <= i < p ==> !lex_lt(k@, #[trigger] view_entries(v@)[i].0),
        forall|i: int| p <= i < v@.len() ==> lex_lt(k@, #[trigger] view_entries(v@)[i].0),
{
    let ghost s = view_entries(v@);
    let mut lo: usize = 0;
    let mut hi: usize = v.len();
    while lo < hi
        invariant
            s == view_entries(v@),
            path_sorted(s),
            lo <= hi <= s.len(),
            forall|i: int| 0 <= i < lo ==> !lex_lt(k@, #[trigger] s[i].0),
            forall|i: int| hi <= i < s.len() ==> lex_lt(k@, #[trigger] s[i].0),
        decreases hi - lo,
    {
        let mid = lo + (hi - lo) / 2;
        proof {
            assert(s[mid as int] == v@[mid as int]@);
        }
        if compare_bytes(k, v[mid].path.as_slice()) < 0 {
            proof {
                assert forall|i: int| mid <= i < s.len() implies lex_lt(k@, #[trigger] s[i].0) by {
                    if i > mid {
                        lemma_lex_lt_le(k@, s[mid as int].0, s[i].0);
                    }
                }
            }
            hi = mid;
        } else {
            proof {
                assert forall|i: int| 0 <= i < mid + 1 implies !lex_lt(k@, #[trigger] s[i].0) by {
                    if i < mid && lex_lt(k@, s[i].0) {
                        lemma_lex_lt_le(k@, s[i].0, s[mid as int].0);
                    }
                }
            }
            lo = mid + 1;
        }
    }
    lo
}

pub open spec fn distinct_paths(s: Seq<(Seq<u8>, u64, EntryStatus)>) -> bool {
    forall|i: int, j: int| 0 <= i < s.len() && 0 <= j < s.len() && i != j ==> (#[trigger] s[i]).0 != (
    #[trigger] s[j]).0
}

/// The report does not depend on the order in which results arrive: two
/// path-ordered sequences of the same entries, no path twice, are equal.
/// With `from_entries`, any two arrival orders of one set of results give
/// the same report.
pub proof fn lemma_report_independent_of_arrival(
    a: Seq<(Seq<u8>, u64, EntryStatus)>,
    b: Seq<(Seq<u8>, u64, EntryStatus)>,
)
    requires
        path_sorted(a),
        path_sorted(b),
        distinct_paths(a),
        a.to_multiset() == b.to_multiset(),
    ensures
        a == b,
    decreases a.len(),
{
    broadcast use vstd::seq_lib::to_multiset_remove, vstd::seq_lib::to_multiset_len;

    a.to_multiset_ensures();
    b.to_multiset_ensures();
    if a.len() == 0 {
        assert(b.len() == 0);
        assert(a =~= b);
    } else {
        assert(b.len() == a.len());
        assert(a.contains(a[0]));
        assert(a.to_multiset().count(a[0]) > 0);
        assert(b.to_multiset().count(a[0]) > 0);
        assert(b.contains(a[0]));
        let j = choose|j: int| 0 <= j < b.len() && b[j] == a[0];
        assert(b.contains(b[0]));
        assert(b.to_multiset().count(b[0]) > 0);
        assert(a.to_multiset().count(b[0]) > 0);
        assert(a.contains(b[0]));
        let i = choose|i: int| 0 <= i < a.len() && a[i] == b[0];
        crate::sorted::lemma_lex_irreflexive(a[0].0);
        if i != 0 {
            assert(!lex_lt(a[i].0, a[0].0));
            if j != 0 {
                assert(!lex_lt(b[j].0, b[0].0));
            }
            if a[0].0 != b[0].0 {
                crate::sorted::lemma_lex_total(a[0].0, b[0].0);
            }
            assert(a[i].0 == a[0].0);
            assert(false);
        }
        assert(a[0] == b[0]);
        let a1 = a.remove(0);
        let b1 = b.remove(0);
        assert(a1.to_multiset() == b1.to_multiset());
        assert forall|x: int, y: int| 0 <= x < y < a1.len() implies !lex_lt(#[trigger] a1[y].0, #[trigger] a1[x].0) by {
            assert(a1[x] == a[x + 1] && a1[y] == a[y + 1]);
        }
        assert forall|x: int, y: int| 0 <= x < y < b1.len() implies !lex_lt(#[trigger] b1[y].0, #[trigger] b1[x].0) by {
            assert(b1[x] == b[x + 1] && b1[y] == b[y + 1]);
        }
        assert forall|x: int, y: int| 0 <= x < a1.len() && 0 <= y < a1.len() && x != y implies (#[trigger] a1[x]).0
            != (#[trigger] a1[y]).0 by {
            assert(a1[x] == a[x + 1] && a1[y] == a[y + 1]);
        }
        lemma_report_independent_of_arrival(a1, b1);
        assert(a =~= seq![a[0]] + a1);
        assert(b =~= seq![b[0]] + b1);
    }
}

/// The same entries, in path order.
fn sort_by_path(entries: Vec<ReportEntry>) -> (r: Vec<ReportEntry>)
    ensures
        path_sorted(view_entries(r@)),
        view_entries(r@).to_multiset() == view_entries(entries@).to_multiset(),
{
    let ghost s = view_entries(entries@);
    let mut entries = entries;
    let mut sorted: Vec<ReportEntry> = Vec::new();
    proof {
        broadcast use vstd::seq_lib::to_multiset_build, vstd::seq_lib::to_multiset_insert;
        assert(view_entries(sorted@) =~= Seq::<(Seq<u8>, u64, EntryStatus)>::empty());
        vstd::seq_lib::to_multiset_len(view_entries(sorted@));
        vstd::multiset::lemma_multiset_empty_len(view_entries(sorted@).to_multiset());
        assert(view_entries(sorted@).to_multiset() =~= Multiset::empty());
        assert(view_entries(entries@).to_multiset().add(Multiset::empty()) =~= view_entries(entries@).to_multiset());
    }
    while entries.len() > 0
        invariant
            path_sorted(view_entries(sorted@)),
            view_entries(entries@).to_multiset().add(view_entries(sorted@).to_multiset())
                == s.to_multiset(),
        decreases entries@.len(),
    {
        let ghost before_e = view_entries(entries@);
        let ghost before_s = view_entries(sorted@);
        let e = entries.pop().unwrap();
        let p = upper_bound(&sorted, e.path.as_slice());
        let ghost ev = e@;
        proof {
            lemma_insert_in_order(before_s, p as int, ev);
        }
        sorted.insert(p, e);
        proof {
            broadcast use vstd::seq_lib::to_multiset_build, vstd::seq_lib::to_multiset_insert;
            assert(view_entries(sorted@) =~= before_s.insert(p as int, ev));
            assert(before_e =~= view_entries(entries@).push(ev));
            assert(view_entries(entries@).to_multiset().add(view_entries(sorted@).to_multiset())
                =~= before_e.to_multiset().add(before_s.to_multiset()));
        }
    }
    proof {
        assert(view_entries(entries@) =~= Seq::<(Seq<u8>, u64, EntryStatus)>::empty());
        vstd::seq_lib::to_multiset_len(view_entries(entries@));
        vstd::multiset::lemma_multiset_empty_len(view_entries(entries@).to_multiset());
        assert(view_entries(entries@).to_multiset() =~= Multiset::empty());
        assert(view_entries(sorted@).to_multiset() =~= Multiset::empty().add(view_entries(sorted@).to_multiset()));
    }
    sorted
}

/// The entries that `update_unknown` appends are exactly one
/// `(p, 0, Unknown)` for each unknown path `p`.
proof fn lemma_added_counts(
    old: Seq<(Seq<u8>, u64, EntryStatus)>,
    added: Seq<(Seq<u8>, u64, EntryStatus)>,
    all: Seq<Seq<u8>>,
    signature_file: Seq<u8>,
    root: Seq<u8>,
)
    requires
        forall|j: int|
            0 <= j < added.len() ==> {
                &&& (#[trigger] added[j]).2 == EntryStatus::Unknown
                &&& added[j].1 == 0
                &&& is_unknown_path(old, all, signature_file, root, added[j].0)
            },
        forall|j: int, l: int| 0 <= j < l < added.len() ==> (#[trigger] added[j]).0 != (#[trigger] added[l]).0,
        forall|p: Seq<u8>| #[trigger] is_unknown_path(old, all, signature_file, root, p) ==> has_path(added, p),
    ensures
        forall|e: (Seq<u8>, u64, EntryStatus)|
            #[trigger] (old + added).to_multiset().count(e) == old.to_multiset().count(e) + if e.2
                == EntryStatus::Unknown && e.1 == 0 && is_unknown_path(old, all, signature_file, root, e.0) {
                1nat
            } else {
                0nat
            },
{
    vstd::seq_lib::lemma_multiset_commutative(old, added);
    assert(added.no_duplicates()) by {
        assert forall|i: int, j: int| 0 <= i < added.len() && 0 <= j < added.len() && i != j implies added[i]
            != added[j] by {
            if i < j {
                assert(added[i].0 != added[j].0);
            } else {
                assert(added[j].0 != added[i].0);
            }
        }
    }
    added.lemma_multiset_has_no_duplicates();
    added.to_multiset_ensures();
    assert forall|e: (Seq<u8>, u64, EntryStatus)| #[trigger] added.to_multiset().count(e) == if e.2
        == EntryStatus::Unknown && e.1 == 0 && is_unknown_path(old, all, signature_file, root, e.0) {
        1nat
    } else {
        0nat
    } by {
        if e.2 == EntryStatus::Unknown && e.1 == 0 && is_unknown_path(old, all, signature_file, root, e.0) {
            let j = choose|j: int| 0 <= j < added.len() && (#[trigger] added[j]).0 == e.0;
            assert(added[j] == e);
            assert(added.contains(e));
        } else if added.contains(e) {
            let j = choose|j: int| 0 <= j < added.len() && added[j] == e;
            assert(added[j] == e);
        }
    }
}

/// Counts of the statuses in a report.
#[derive(Debug, Clone, Copy, PartialEq, Eq, Structural)]
pub struct Tally {
    pub ok: usize,
    pub failed: usize,
    pub missing: usize,
    pub unknown: usize,
}

/// The entries of a verification pass, with the bytes read over all of them.
pub struct VerificationReport {
    total_size: u64,
    entries: Vec<ReportEntry>,
}

impl View for VerificationReport {
    type V = Seq<(Seq<u8>, u64, EntryStatus)>;

    closed spec fn view(&self) -> Seq<(Seq<u8>, u64, EntryStatus)> {
        view_entries(self.entries@)
    }
}

impl VerificationReport {
    pub closed spec fn total(&self) -> u64 {
        self.total_size
    }

    /// Collects the entries of a pass, which arrive in any order, in path order.
    pub fn from_entries(entries: Vec<ReportEntry>) -> (r: Self)
        requires
            sum_sizes(view_entries(entries@)) <= u64::MAX,
        ensures
            path_sorted(r@),
            r@.to_multiset() == view_entries(entries@).to_multiset(),
            r.total() == sum_sizes(view_entries(entries@)),
    {
        let mut total: u64 = 0;
        let mut i: usize = 0;
        let ghost s = view_entries(entries@);
        proof {
            assert(s.subrange(0, 0) =~= Seq::<(Seq<u8>, u64, EntryStatus)>::empty());
        }
        while i < entries.len()
            invariant
                s == view_entries(entries@),
                sum_sizes(s) <= u64::MAX,
                i <= entries@.len(),
                total == sum_sizes(s.subrange(0, i as int)),
            decreases entries@.len() - i,
        {
            proof {
                lemma_sum_prefix(s, i + 1);
                assert(s.subrange(0, i + 1).drop_last() =~= s.subrange(0, i as int));
            }
            total = total + entries[i].processed_size;
            i = i + 1;
        }
        proof {
            assert(s.subrange(0, i as int) =~= s);
        }
        VerificationReport { total_size: total, entries: sort_by_path(entries) }
    }

    pub fn entries(&self) -> (r: &[ReportEntry])
        ensures
            view_entries(r@) == self@,
    {
        self.entries.as_slice()
    }

    pub fn len(&self) -> (r: usize)
        ensures
            r == self@.len(),
    {
        self.entries.len()
    }

    pub fn total_size(&self) -> (r: u64)
        ensures
            r == self.total(),
    {
        self.total_size
    }

    /// Adds, as unknown with nothing read, each live path that no entry
    /// covers, leaving out the manifest and the root, and keeps the report
    /// in path order.
    pub fn update_unknown(&mut self, all_paths: Vec<Vec<u8>>, signature_file: &[u8], root: &[u8])
        ensures
            final(self).total() == old(self).total(),
            path_sorted(final(self)@),
            forall|e: (Seq<u8>, u64, EntryStatus)|
                #[trigger] final(self)@.to_multiset().count(e) == old(self)@.to_multiset().count(e) + if e.2
                    == EntryStatus::Unknown && e.1 == 0 && is_unknown_path(
                    old(self)@,
                    view_list(all_paths@),
                    signature_file@,
                    root@,
                    e.0,
                ) {
                    1nat
                } else {
                    0nat
                },
    {
        let ghost old_s = self@;
        let ghost all = view_list(all_paths@);
        let ghost n0 = self@.len();
        let ghost t0 = self.total_size;
        let mut seen: Vec<(Vec<u8>, Vec<u8>)> = Vec::new();
        let mut i: usize = 0;
        proof {
            assert(pairs_map(view_pairs(seen@)) =~= Map::<Seq<u8>, Seq<u8>>::empty());
        }
        while i < self.entries.len()
            invariant
                self@ == old_s,
                self.total_size == old(self).total_size,
                i <= old_s.len(),
                sorted_keys(view_pairs(seen@)),
                forall|q: Seq<u8>|
                    #[trigger] pairs_map(view_pairs(seen@)).contains_key(q) <==> exists|j: int|
                        0 <= j < i && (#[trigger] old_s[j]).0 == q,
            decreases old_s.len() - i,
        {
            let p = copy_bytes(self.entries[i].path.as_slice());
            proof {
                assert(old_s[i as int].0 == p@);
            }
            insert_new(&mut seen, p, Vec::new());
            i = i + 1;
        }
        proof {
            assert forall|q: Seq<u8>| #[trigger]
                pairs_map(view_pairs(seen@)).contains_key(q) <==> has_path(old_s, q) by {
                if has_path(old_s, q) {
                    let j = choose|j: int| 0 <= j < old_s.len() && (#[trigger] old_s[j]).0 == q;
                    assert(old_s[j].0 == q);
                }
            }
        }
        let mut k: usize = 0;
        while k < all_paths.len()
            invariant
                all == view_list(all_paths@),
                k <= all.len(),
                self@.len() >= n0,
                n0 == old_s.len(),
                self@.subrange(0, n0 as int) == old_s,
                self.total_size == t0,
                t0 == old(self).total_size,
                sorted_keys(view_pairs(seen@)),
                forall|q: Seq<u8>|
                    #[trigger] pairs_map(view_pairs(seen@)).contains_key(q) <==> (has_path(old_s, q)
                        || has_path(self@.skip(n0 as int), q)),
                forall|j: int|
                    n0 <= j < self@.len() ==> {
                        &&& (#[trigger] self@[j]).2 == EntryStatus::Unknown
                        &&& self@[j].1 == 0
                        &&& is_unknown_path(old_s, all, signature_file@, root@, self@[j].0)
                    },
                forall|j: int, l: int|
                    n0 <= j < l < self@.len() ==> (#[trigger] self@[j]).0 != (#[trigger] self@[l]).0,
                forall|m: int|
                    0 <= m < k && is_unknown_path(old_s, all, signature_file@, root@, #[trigger] all[m])
                        ==> has_path(self@.skip(n0 as int), all[m]),
            decreases all.len() - k,
        {
            let p = all_paths[k].as_slice();
            proof {
                assert(all[k as int] == p@);
            }
            if !crate::sorted::bytes_equal(p, signature_file) && !crate::sorted::bytes_equal(p, root) {
                let key = copy_bytes(p);
                let ghost before = self@;
                let ghost seen_before = pairs_map(view_pairs(seen@));
                if insert_new(&mut seen, key, Vec::new()) {
                    let e = ReportEntry { path: copy_bytes(p), processed_size: 0, status: EntryStatus::Unknown };
                    self.entries.push(e);
                    proof {
                        assert(self@ =~= before.push((p@, 0u64, EntryStatus::Unknown)));
                        assert(self@.subrange(0, n0 as int) =~= before.subrange(0, n0 as int));
                        assert(self@.skip(n0 as int) =~= before.skip(n0 as int).push((p@, 0u64, EntryStatus::Unknown)));
                        assert(all.contains(p@));
                        assert(!has_path(before.skip(n0 as int), p@));
                        assert forall|q: Seq<u8>| #[trigger] pairs_map(view_pairs(seen@)).contains_key(q)
                            <==> (has_path(old_s, q) || has_path(self@.skip(n0 as int), q)) by {
                            let t = self@.skip(n0 as int);
                            if has_path(t, q) && q != p@ {
                                let j = choose|j: int| 0 <= j < t.len() && (#[trigger] t[j]).0 == q;
                                assert(before.skip(n0 as int)[j] == t[j]);
                            }
                            if has_path(before.skip(n0 as int), q) {
                                let j = choose|j: int| 0 <= j < before.skip(n0 as int).len()
                                    && (#[trigger] before.skip(n0 as int)[j]).0 == q;
                                assert(t[j] == before.skip(n0 as int)[j]);
                            }
                            assert(t[t.len() - 1].0 == p@);
                        }
                        assert forall|j: int, l: int| n0 <= j < l < self@.len() implies
                            (#[trigger] self@[j]).0 != (#[trigger] self@[l]).0 by {
                            if l == self@.len() - 1 {
                                assert(before.skip(n0 as int)[j - n0] == before[j]);
                            }
                        }
                        assert forall|m: int| 0 <= m < k + 1 && is_unknown_path(old_s, all,
                            signature_file@, root@, #[trigger] all[m]) implies has_path(
                            self@.skip(n0 as int),
                            all[m],
                        ) by {
                            let t = self@.skip(n0 as int);
                            if m < k {
                                let j = choose|j: int| 0 <= j < before.skip(n0 as int).len()
                                    && (#[trigger] before.skip(n0 as int)[j]).0 == all[m];
                                assert(t[j] == before.skip(n0 as int)[j]);
                            } else {
                                assert(t[t.len() - 1].0 == p@);
                            }
                        }
                    }
                } else {
                    proof {
                        assert forall|m: int| 0 <= m < k + 1 && is_unknown_path(old_s, all,
                            signature_file@, root@, #[trigger] all[m]) implies has_path(
                            self@.skip(n0 as int),
                            all[m],
                        ) by {
                            if m == k {
                                assert(seen_before.contains_key(p@));
                            }
                        }
                    }
                }
            }
            k = k + 1;
        }
        proof {
            let added = self@.skip(n0 as int);
            assert forall|j: int| 0 <= j < added.len() implies {
                &&& (#[trigger] added[j]).2 == EntryStatus::Unknown
                &&& added[j].1 == 0
                &&& is_unknown_path(old_s, all, signature_file@, root@, added[j].0)
            } by {
                assert(added[j] == self@[n0 + j]);
            }
            assert forall|j: int, l: int| 0 <= j < l < added.len() implies (#[trigger] added[j]).0
                != (#[trigger] added[l]).0 by {
                assert(added[j] == self@[n0 + j] && added[l] == self@[n0 + l]);
            }
            assert forall|p: Seq<u8>| #[trigger] is_unknown_path(old_s, all, signature_file@, root@, p)
                implies has_path(added, p) by {
                let m = choose|m: int| 0 <= m < all.len() && all[m] == p;
                assert(is_unknown_path(old_s, all, signature_file@, root@, all[m]));
            }
            lemma_added_counts(old_s, added, all, signature_file@, root@);
            assert(self@ =~= old_s + added);
        }
        let mut appended: Vec<ReportEntry> = Vec::new();
        std::mem::swap(&mut self.entries, &mut appended);
        self.entries = sort_by_path(appended);
    }

    /// The overall outcome of the pass.
    pub fn result(&self) -> (r: Result<(), Error>)
        ensures
            r == report_outcome(self@),
    {
        let mut has_unknown = false;
        let mut has_missing = false;
        let mut i: usize = 0;
        while i < self.entries.len()
            invariant
                i <= self@.len(),
                forall|j: int| 0 <= j < i ==> (#[trigger] self@[j]).2 != EntryStatus::VerificationError,
                has_missing <==> exists|j: int| 0 <= j < i && (#[trigger] self@[j]).2 == EntryStatus::Missing,
                has_unknown <==> exists|j: int| 0 <= j < i && (#[trigger] self@[j]).2 == EntryStatus::Unknown,
            decreases self@.len() - i,
        {
            proof {
                assert(self@[i as int] == self.entries@[i as int]@);
            }
            match self.entries[i].status {
                EntryStatus::VerificationError => {
                    return Err(Error::VerificationFailed);
                },
                EntryStatus::Missing => {
                    has_missing = true;
                },
                EntryStatus::Unknown => {
                    has_unknown = true;
                },
                EntryStatus::Intact => {},
            }
            i = i + 1;
        }
        if has_missing {
            Err(Error::EntriesMissing)
        } else if has_unknown {
            Err(Error::UnknownEntriesPresent)
        } else {
            Ok(())
        }
    }

    /// The number of entries of each status.
    pub fn tally(&self) -> (r: Tally)
        ensures
            r.ok == count_status(self@, EntryStatus::Intact),
            r.failed == count_status(self@, EntryStatus::VerificationError),
            r.missing == count_status(self@, EntryStatus::Missing),
            r.unknown == count_status(self@, EntryStatus::Unknown),
    {
        let mut t = Tally { ok: 0, failed: 0, missing: 0, unknown: 0 };
        let mut i: usize = 0;
        let ghost s = self@;
        while i < self.entries.len()
            invariant
                s == self@,
                i <= s.len(),
                t.ok == count_status(s.subrange(0, i as int), EntryStatus::Intact),
                t.failed == count_status(s.subrange(0, i as int), EntryStatus::VerificationError),
                t.missing == count_status(s.subrange(0, i as int), EntryStatus::Missing),
                t.unknown == count_status(s.subrange(0, i as int), EntryStatus::Unknown),
            decreases s.len() - i,
        {
            let ghost pre = s.subrange(0, i as int);
            let ghost next = s.subrange(0, i + 1);
            proof {
                assert(next.drop_last() =~= pre);
                assert(next.last() == self.entries@[i as int]@);
                lemma_count_bound(pre, EntryStatus::Intact);
                lemma_count_bound(pre, EntryStatus::VerificationError);
                lemma_count_bound(pre, EntryStatus::Missing);
                lemma_count_bound(pre, EntryStatus::Unknown);
            }
            match self.entries[i].status {
                EntryStatus::Intact => {
                    t.ok = t.ok + 1;
                },
                EntryStatus::VerificationError => {
                    t.failed = t.failed + 1;
                },
                EntryStatus::Missing => {
                    t.missing = t.missing + 1;
                },
                EntryStatus::Unknown => {
                    t.unknown = t.unknown + 1;
                },
            }
            i = i + 1;
        }
        proof {
            assert(s.subrange(0, i as int) =~= s);
        }
        t
    }
}

} // verus!
