use vstd::prelude::*;

verus! {

/// Byte-wise lexicographic order: the order of Rust's `[u8]` and `str`.
pub open spec fn lex_lt(a: Seq<u8>, b: Seq<u8>) -> bool
    decreases a.len(),
{
    if a.len() == 0 {
        b.len() > 0
    } else if b.len() == 0 {
        false
    } else if a[0] != b[0] {
        a[0] < b[0]
    } else {
        lex_lt(a.drop_first(), b.drop_first())
    }
}

pub proof fn lemma_lex_irreflexive(a: Seq<u8>)
    ensures
        !lex_lt(a, a),
    decreases a.len(),
{
    if a.len() > 0 {
        lemma_lex_irreflexive(a.drop_first());
    }
}

pub proof fn lemma_lex_transitive(a: Seq<u8>, b: Seq<u8>, c: Seq<u8>)
    requires
        lex_lt(a, b),
        lex_lt(b, c),
    ensures
        lex_lt(a, c),
    decreases a.len(),
{
    if a.len() > 0 && b.len() > 0 && c.len() > 0 && a[0] == b[0] && b[0] == c[0] {
        lemma_lex_transitive(a.drop_first(), b.drop_first(), c.drop_first());
    }
}

pub proof fn lemma_lex_total(a: Seq<u8>, b: Seq<u8>)
    requires
        a != b,
    ensures
        lex_lt(a, b) || lex_lt(b, a),
    decreases a.len(),
{
    if a.len() > 0 && b.len() > 0 && a[0] == b[0] {
        if a.drop_first() == b.drop_first() {
            assert(a =~= seq![a[0]] + a.drop_first());
            assert(b =~= seq![b[0]] + b.drop_first());
        }
        lemma_lex_total(a.drop_first(), b.drop_first());
    } else if a.len() == 0 && b.len() == 0 {
        assert(a =~= b);
    }
}

/// `a < b <= c` gives `a < c`.
pub proof fn lemma_lex_lt_le(a: Seq<u8>, b: Seq<u8>, c: Seq<u8>)
    requires
        lex_lt(a, b),
        !lex_lt(c, b),
    ensures
        lex_lt(a, c),
{
    if b != c {
        lemma_lex_total(b, c);
        lemma_lex_transitive(a, b, c);
    }
}

/// Compares two byte strings: negative, zero or positive as `a` sorts before,
/// equal to or after `b`.
pub fn compare_bytes(a: &[u8], b: &[u8]) -> (r: i8)
    ensures
        r < 0 <==> lex_lt(a@, b@),
        r == 0 <==> a@ == b@,
        r > 0 <==> lex_lt(b@, a@),
{
    let mut i: usize = 0;
    proof {
        assert(a@.skip(0) =~= a@);
        assert(b@.skip(0) =~= b@);
    }
    while i < a.len() && i < b.len()
        invariant
            i <= a@.len(),
            i <= b@.len(),
            a@.subrange(0, i as int) == b@.subrange(0, i as int),
            lex_lt(a@, b@) == lex_lt(a@.skip(i as int), b@.skip(i as int)),
            lex_lt(b@, a@) == lex_lt(b@.skip(i as int), a@.skip(i as int)),
        decreases a@.len() - i,
    {
        if a[i] != b[i] {
            proof {
                lemma_lex_irreflexive(a@);
                if a@ == b@ {
                    assert(a@[i as int] == b@[i as int]);
                }
            }
            if a[i] < b[i] {
                return -1;
            } else {
                return 1;
            }
        }
        proof {
            assert(a@.skip(i as int).drop_first() =~= a@.skip(i + 1));
            assert(b@.skip(i as int).drop_first() =~= b@.skip(i + 1));
            assert(a@.subrange(0, i + 1) =~= a@.subrange(0, i as int).push(a@[i as int]));
            assert(b@.subrange(0, i + 1) =~= b@.subrange(0, i as int).push(b@[i as int]));
        }
        i = i + 1;
    }
    proof {
        lemma_lex_irreflexive(a@);
        if i == a.len() {
            assert(a@.subrange(0, i as int) =~= a@);
        }
        if i == b.len() {
            assert(b@.subrange(0, i as int) =~= b@);
        }
    }
    if a.len() < b.len() {
        proof {
            if a@ == b@ {
                assert(false);
            }
        }
        -1
    } else if a.len() > b.len() {
        proof {
            if a@ == b@ {
                assert(false);
            }
        }
        1
    } else {
        proof {
            assert(a@ =~= b@);
        }
        0
    }
}

/// Byte-wise equality.
pub fn bytes_equal(a: &[u8], b: &[u8]) -> (r: bool)
    ensures
        r == (a@ == b@),
{
    compare_bytes(a, b) == 0
}

/// Copies a byte slice into a vector of its own.
pub fn copy_bytes(a: &[u8]) -> (r: Vec<u8>)
    ensures
        r@ == a@,
{
    let mut r: Vec<u8> = Vec::new();
    let mut i: usize = 0;
    while i < a.len()
        invariant
            i <= a@.len(),
            r@ == a@.subrange(0, i as int),
        decreases a@.len() - i,
    {
        r.push(a[i]);
        proof {
            assert(a@.subrange(0, i + 1) =~= a@.subrange(0, i as int).push(a@[i as int]));
        }
        i = i + 1;
    }
    proof {
        assert(a@.subrange(0, i as int) =~= a@);
    }
    r
}

/// Appends the bytes of `b` to `v`.
pub fn append_bytes(v: &mut Vec<u8>, b: &[u8])
    ensures
        final(v)@ == old(v)@ + b@,
{
    let mut i: usize = 0;
    while i < b.len()
        invariant
            i <= b@.len(),
            v@ == old(v)@ + b@.subrange(0, i as int),
        decreases b@.len() - i,
    {
        v.push(b[i]);
        proof {
            assert(b@.subrange(0, i + 1) =~= b@.subrange(0, i as int).push(b@[i as int]));
        }
        i = i + 1;
    }
    proof {
        assert(b@.subrange(0, i as int) =~= b@);
    }
}

/// A sequence of (key, value) pairs whose keys strictly increase.
pub open spec fn sorted_keys(s: Seq<(Seq<u8>, Seq<u8>)>) -> bool {
    forall|i: int, j: int| 0 <= i < j < s.len() ==> lex_lt(#[trigger] s[i].0, #[trigger] s[j].0)
}

pub open spec fn has_key(s: Seq<(Seq<u8>, Seq<u8>)>, k: Seq<u8>) -> bool {
    exists|i: int| 0 <= i < s.len() && (#[trigger] s[i]).0 == k
}

/// The map from key to value that a sequence of pairs holds.
pub open spec fn pairs_map(s: Seq<(Seq<u8>, Seq<u8>)>) -> Map<Seq<u8>, Seq<u8>> {
    Map::new(
        |k: Seq<u8>| has_key(s, k),
        |k: Seq<u8>| s[choose|i: int| 0 <= i < s.len() && (#[trigger] s[i]).0 == k].1,
    )
}

pub proof fn lemma_sorted_unique(s: Seq<(Seq<u8>, Seq<u8>)>, i: int, j: int)
    requires
        sorted_keys(s),
        0 <= i < s.len(),
        0 <= j < s.len(),
        s[i].0 == s[j].0,
    ensures
        i == j,
{
    if i < j {
        lemma_lex_irreflexive(s[i].0);
        assert(lex_lt(s[i].0, s[j].0));
    } else if j < i {
        lemma_lex_irreflexive(s[i].0);
        assert(lex_lt(s[j].0, s[i].0));
    }
}

/// In a sorted sequence, the map holds each pair's value under its key.
pub proof fn lemma_pairs_map_index(s: Seq<(Seq<u8>, Seq<u8>)>, i: int)
    requires
        sorted_keys(s),
        0 <= i < s.len(),
    ensures
        pairs_map(s).contains_key(s[i].0),
        pairs_map(s)[s[i].0] == s[i].1,
{
    assert(has_key(s, s[i].0));
    let j = choose|j: int| 0 <= j < s.len() && (#[trigger] s[j]).0 == s[i].0;
    lemma_sorted_unique(s, i, j);
}

/// A key is in the map exactly where some pair has it.
pub proof fn lemma_pairs_map_key(s: Seq<(Seq<u8>, Seq<u8>)>, k: Seq<u8>)
    requires
        sorted_keys(s),
    ensures
        pairs_map(s).contains_key(k) <==> has_key(s, k),
        has_key(s, k) ==> exists|i: int|
            0 <= i < s.len() && (#[trigger] s[i]).0 == k && pairs_map(s)[k] == s[i].1,
{
    if has_key(s, k) {
        let i = choose|i: int| 0 <= i < s.len() && (#[trigger] s[i]).0 == k;
        lemma_pairs_map_index(s, i);
    }
}

/// A list of byte vectors as a list of sequences.
pub open spec fn view_list(v: Seq<Vec<u8>>) -> Seq<Seq<u8>> {
    v.map_values(|b: Vec<u8>| b@)
}

/// The pairs of byte vectors as pairs of sequences.
pub open spec fn view_pairs(v: Seq<(Vec<u8>, Vec<u8>)>) -> Seq<(Seq<u8>, Seq<u8>)> {
    v.map_values(|e: (Vec<u8>, Vec<u8>)| (e.0@, e.1@))
}

/// The first position whose key does not sort before `k`, by binary search.
pub fn lower_bound(v: &Vec<(Vec<u8>, Vec<u8>)>, k: &[u8]) -> (p: usize)
    requires
        sorted_keys(view_pairs(v@)),
    ensures
        p <= v@.len(),
        forall|i: int| 0 <= i < p ==> lex_lt(#[trigger] view_pairs(v@)[i].0, k@),
        p < v@.len() ==> !lex_lt(view_pairs(v@)[p as int].0, k@),
        p < v@.len() && view_pairs(v@)[p as int].0 != k@ ==> lex_lt(k@, view_pairs(v@)[p as int].0),
{
    let ghost s = view_pairs(v@);
    let mut lo: usize = 0;
    let mut hi: usize = v.len();
    while lo < hi
        invariant
            s == view_pairs(v@),
            sorted_keys(s),
            lo <= hi <= s.len(),
            forall|i: int| 0 <= i < lo ==> lex_lt(#[trigger] s[i].0, k@),
            forall|i: int| hi <= i < s.len() ==> !lex_lt(#[trigger] s[i].0, k@),
        decreases hi - lo,
    {
        let mid = lo + (hi - lo) / 2;
        let c = compare_bytes(v[mid].0.as_slice(), k);
        proof {
            assert(s[mid as int].0 == v@[mid as int].0@);
        }
        if c < 0 {
            proof {
                assert forall|i: int| 0 <= i < mid + 1 implies lex_lt(#[trigger] s[i].0, k@) by {
                    if i < mid {
                        lemma_lex_transitive(s[i].0, s[mid as int].0, k@);
                    }
                }
            }
            lo = mid + 1;
        } else {
            proof {
                assert forall|i: int| mid <= i < s.len() implies !lex_lt(#[trigger] s[i].0, k@) by {
                    if i > mid && lex_lt(s[i].0, k@) {
                        lemma_lex_transitive(s[mid as int].0, s[i].0, k@);
                    }
                }
            }
            hi = mid;
        }
    }
    proof {
        if lo < s.len() && s[lo as int].0 != k@ {
            lemma_lex_total(s[lo as int].0, k@);
        }
    }
    lo
}

pub proof fn lemma_insert_at(s: Seq<(Seq<u8>, Seq<u8>)>, p: int, k: Seq<u8>, d: Seq<u8>)
    requires
        sorted_keys(s),
        0 <= p <= s.len(),
        forall|i: int| 0 <= i < p ==> lex_lt(#[trigger] s[i].0, k),
        p < s.len() ==> lex_lt(k, s[p].0),
    ensures
        sorted_keys(s.insert(p, (k, d))),
        !pairs_map(s).contains_key(k),
        pairs_map(s.insert(p, (k, d))) == pairs_map(s).insert(k, d),
{
    let t = s.insert(p, (k, d));
    assert forall|i: int, j: int| 0 <= i < j < t.len() implies lex_lt(#[trigger] t[i].0, #[trigger] t[j].0) by {
        if j < p {
        } else if i < p && j == p {
        } else if i < p {
            if j - 1 > p {
                lemma_lex_transitive(k, s[p].0, s[j - 1].0);
            }
            lemma_lex_transitive(t[i].0, k, t[j].0);
        } else if i == p {
            if j - 1 > p {
                lemma_lex_transitive(k, s[p].0, s[j - 1].0);
            }
        } else {
        }
    }
    lemma_pairs_map_key(s, k);
    if has_key(s, k) {
        let i = choose|i: int| 0 <= i < s.len() && (#[trigger] s[i]).0 == k;
        lemma_lex_irreflexive(k);
        if i > p {
            lemma_lex_transitive(k, s[p].0, s[i].0);
        }
    }
    assert forall|q: Seq<u8>| #[trigger] pairs_map(t).contains_key(q) == pairs_map(s).insert(k, d).contains_key(q)
        && (pairs_map(t).contains_key(q) ==> pairs_map(t)[q] == pairs_map(s).insert(k, d)[q]) by {
        lemma_pairs_map_key(s, q);
        lemma_pairs_map_key(t, q);
        if has_key(t, q) {
            let i = choose|i: int| 0 <= i < t.len() && (#[trigger] t[i]).0 == q;
            lemma_pairs_map_index(t, i);
            if i < p {
                assert(s[i] == t[i]);
                lemma_pairs_map_index(s, i);
            } else if i > p {
                assert(s[i - 1] == t[i]);
                lemma_pairs_map_index(s, i - 1);
            }
        }
        if has_key(s, q) {
            let i = choose|i: int| 0 <= i < s.len() && (#[trigger] s[i]).0 == q;
            if i < p {
                assert(t[i] == s[i]);
            } else {
                assert(t[i + 1] == s[i]);
            }
        }
        if q == k {
            assert(t[p].0 == k);
        }
    }
    assert(pairs_map(t) =~= pairs_map(s).insert(k, d));
}

proof fn lemma_remove_at(s: Seq<(Seq<u8>, Seq<u8>)>, p: int)
    requires
        sorted_keys(s),
        0 <= p < s.len(),
    ensures
        sorted_keys(s.remove(p)),
        pairs_map(s.remove(p)) == pairs_map(s).remove(s[p].0),
{
    let t = s.remove(p);
    let k = s[p].0;
    assert forall|i: int, j: int| 0 <= i < j < t.len() implies lex_lt(#[trigger] t[i].0, #[trigger] t[j].0) by {
        if j < p {
        } else if i < p {
            assert(t[j] == s[j + 1]);
        } else {
            assert(t[i] == s[i + 1]);
            assert(t[j] == s[j + 1]);
        }
    }
    assert forall|q: Seq<u8>| #[trigger] pairs_map(t).contains_key(q) == pairs_map(s).remove(k).contains_key(q)
        && (pairs_map(t).contains_key(q) ==> pairs_map(t)[q] == pairs_map(s).remove(k)[q]) by {
        lemma_pairs_map_key(s, q);
        lemma_pairs_map_key(t, q);
        if has_key(t, q) {
            let i = choose|i: int| 0 <= i < t.len() && (#[trigger] t[i]).0 == q;
            lemma_pairs_map_index(t, i);
            if i < p {
                assert(s[i] == t[i]);
                lemma_pairs_map_index(s, i);
                if q == k {
                    lemma_sorted_unique(s, i, p);
                }
            } else {
                assert(s[i + 1] == t[i]);
                lemma_pairs_map_index(s, i + 1);
                if q == k {
                    lemma_sorted_unique(s, i + 1, p);
                }
            }
        }
        if has_key(s, q) && q != k {
            let i = choose|i: int| 0 <= i < s.len() && (#[trigger] s[i]).0 == q;
            if i < p {
                assert(t[i] == s[i]);
            } else {
                assert(i != p);
                assert(t[i - 1] == s[i]);
            }
        }
    }
    assert(pairs_map(t) =~= pairs_map(s).remove(k));
}

proof fn lemma_absent_at_bound(s: Seq<(Seq<u8>, Seq<u8>)>, p: int, k: Seq<u8>)
    requires
        sorted_keys(s),
        0 <= p <= s.len(),
        forall|i: int| 0 <= i < p ==> lex_lt(#[trigger] s[i].0, k),
        p < s.len() ==> lex_lt(k, s[p].0),
    ensures
        !pairs_map(s).contains_key(k),
{
    lemma_pairs_map_key(s, k);
    if has_key(s, k) {
        let i = choose|i: int| 0 <= i < s.len() && (#[trigger] s[i]).0 == k;
        lemma_lex_irreflexive(k);
        if i > p {
            lemma_lex_transitive(k, s[p].0, s[i].0);
        }
    }
}

/// Whether some pair has key `k`.
pub fn contains_key(v: &Vec<(Vec<u8>, Vec<u8>)>, k: &[u8]) -> (r: bool)
    requires
        sorted_keys(view_pairs(v@)),
    ensures
        r == pairs_map(view_pairs(v@)).contains_key(k@),
{
    let p = lower_bound(v, k);
    if p < v.len() && bytes_equal(v[p].0.as_slice(), k) {
        proof {
            lemma_pairs_map_index(view_pairs(v@), p as int);
        }
        true
    } else {
        proof {
            lemma_absent_at_bound(view_pairs(v@), p as int, k@);
        }
        false
    }
}

/// Adds the pair unless its key is already there; returns whether it was added.
pub fn insert_new(v: &mut Vec<(Vec<u8>, Vec<u8>)>, k: Vec<u8>, d: Vec<u8>) -> (added: bool)
    requires
        sorted_keys(view_pairs(old(v)@)),
    ensures
        sorted_keys(view_pairs(final(v)@)),
        added == !pairs_map(view_pairs(old(v)@)).contains_key(k@),
        added ==> pairs_map(view_pairs(final(v)@)) == pairs_map(view_pairs(old(v)@)).insert(k@, d@),
        !added ==> final(v)@ == old(v)@,
{
    let p = lower_bound(v, k.as_slice());
    if p < v.len() && bytes_equal(v[p].0.as_slice(), k.as_slice()) {
        proof {
            lemma_pairs_map_index(view_pairs(v@), p as int);
        }
        return false;
    }
    proof {
        lemma_insert_at(view_pairs(v@), p as int, k@, d@);
    }
    let ghost kv = k@;
    let ghost dv = d@;
    v.insert(p, (k, d));
    proof {
        assert(view_pairs(v@) =~= view_pairs(old(v)@).insert(p as int, (kv, dv)));
    }
    true
}

/// Sets the value under `k`, adding the key if it is not there.
pub fn upsert(v: &mut Vec<(Vec<u8>, Vec<u8>)>, k: Vec<u8>, d: Vec<u8>)
    requires
        sorted_keys(view_pairs(old(v)@)),
    ensures
        sorted_keys(view_pairs(final(v)@)),
        pairs_map(view_pairs(final(v)@)) == pairs_map(view_pairs(old(v)@)).insert(k@, d@),
{
    let p = lower_bound(v, k.as_slice());
    if p < v.len() && bytes_equal(v[p].0.as_slice(), k.as_slice()) {
        let ghost s0 = view_pairs(v@);
        proof {
            lemma_remove_at(s0, p as int);
        }
        v.remove(p);
        proof {
            assert(view_pairs(v@) =~= s0.remove(p as int));
            let s1 = s0.remove(p as int);
            assert forall|i: int| 0 <= i < p implies lex_lt(#[trigger] s1[i].0, k@) by {
                assert(s1[i] == s0[i]);
            }
            if p < s1.len() {
                assert(s1[p as int] == s0[p + 1]);
                assert(lex_lt(s0[p as int].0, s0[p + 1].0));
            }
            lemma_insert_at(s1, p as int, k@, d@);
            assert(pairs_map(s0).remove(k@).insert(k@, d@) =~= pairs_map(s0).insert(k@, d@));
        }
        let ghost kv = k@;
        let ghost dv = d@;
        let ghost s1 = view_pairs(v@);
        v.insert(p, (k, d));
        proof {
            assert(view_pairs(v@) =~= s1.insert(p as int, (kv, dv)));
        }
    } else {
        proof {
            lemma_absent_at_bound(view_pairs(v@), p as int, k@);
        }
        insert_new(v, k, d);
    }
}

/// Removes the pair under `k`, if there is one.
pub fn remove_key(v: &mut Vec<(Vec<u8>, Vec<u8>)>, k: &[u8])
    requires
        sorted_keys(view_pairs(old(v)@)),
    ensures
        sorted_keys(view_pairs(final(v)@)),
        pairs_map(view_pairs(final(v)@)) == pairs_map(view_pairs(old(v)@)).remove(k@),
{
    let p = lower_bound(v, k);
    if p < v.len() && bytes_equal(v[p].0.as_slice(), k) {
        let ghost s0 = view_pairs(v@);
        proof {
            lemma_remove_at(s0, p as int);
        }
        v.remove(p);
        proof {
            assert(view_pairs(v@) =~= s0.remove(p as int));
        }
    } else {
        proof {
            let s = view_pairs(v@);
            lemma_absent_at_bound(s, p as int, k@);
            assert(pairs_map(s).remove(k@) =~= pairs_map(s));
        }
    }
}

} // verus!
