//! The manifest file: one line `<lowercase-hex-digest> *<relative-path>` per entry.
use vstd::prelude::*;
use vstd::slice::slice_subrange;

use crate::errors::{Error, ParseReason};
use crate::hexcode::{decode_hex, encode_hex, hex_decode, hex_encode, hex_valid, lemma_hex_round_trip};
use crate::sorted::{append_bytes, copy_bytes, insert_new, lemma_insert_at, lex_lt, pairs_map, sorted_keys, view_pairs};

verus! {

pub open spec fn strip_cr(l: Seq<u8>) -> Seq<u8> {
    if l.len() > 0 && l.last() == 13u8 {
        l.drop_last()
    } else {
        l
    }
}

/// The lines of `t` from a scan position `i` inside a line that began at
/// `start`: each ends at a newline, which goes, with a carriage return right
/// before it; a last line without a newline is kept as it is.
pub open spec fn lines_from(t: Seq<u8>, start: int, i: int) -> Seq<Seq<u8>>
    decreases t.len() - i,
{
    if i >= t.len() {
        if start < t.len() {
            seq![t.subrange(start, t.len() as int)]
        } else {
            Seq::empty()
        }
    } else if t[i] == 10u8 {
        seq![strip_cr(t.subrange(start, i))] + lines_from(t, i + 1, i + 1)
    } else {
        lines_from(t, start, i + 1)
    }
}

pub open spec fn manifest_lines(t: Seq<u8>) -> Seq<Seq<u8>> {
    lines_from(t, 0, 0)
}

/// The first position at or after `k` where ` *` begins.
pub open spec fn find_separator(l: Seq<u8>, k: int) -> Option<int>
    decreases l.len() - k,
{
    if k < 0 || k + 1 >= l.len() {
        None
    } else if l[k] == 32u8 && l[k + 1] == 42u8 {
        Some(k)
    } else {
        find_separator(l, k + 1)
    }
}

/// One line read as (path, digest).
pub open spec fn parse_line(l: Seq<u8>) -> Result<(Seq<u8>, Seq<u8>), ParseReason> {
    match find_separator(l, 0) {
        None => Err(ParseReason::MissingSeparator),
        Some(k) => {
            let h = l.subrange(0, k);
            if hex_valid(h) {
                Ok((l.subrange(k + 2, l.len() as int), hex_decode(h)))
            } else {
                Err(ParseReason::InvalidHex)
            }
        },
    }
}

/// Where reading a manifest stops.
pub enum ManifestFault {
    Line(int, ParseReason),
    Duplicate(Seq<u8>),
}

/// Reads lines from number `n` (counted from 0) on, into `acc`.
pub open spec fn parse_from(lines: Seq<Seq<u8>>, n: int, acc: Map<Seq<u8>, Seq<u8>>) -> Result<
    Map<Seq<u8>, Seq<u8>>,
    ManifestFault,
>
    decreases lines.len() - n,
{
    if n < 0 || n >= lines.len() {
        Ok(acc)
    } else {
        match parse_line(lines[n]) {
            Err(r) => Err(ManifestFault::Line(n + 1, r)),
            Ok(e) => if acc.contains_key(e.0) {
                Err(ManifestFault::Duplicate(e.0))
            } else {
                parse_from(lines, n + 1, acc.insert(e.0, e.1))
            },
        }
    }
}

/// What a manifest text holds: the map from path to digest, or the first fault.
pub open spec fn manifest_outcome(t: Seq<u8>) -> Result<Map<Seq<u8>, Seq<u8>>, ManifestFault> {
    parse_from(manifest_lines(t), 0, Map::empty())
}

pub open spec fn fault_is(f: ManifestFault, e: Error) -> bool {
    match f {
        ManifestFault::Line(n, r) => e matches Error::ParseError { line, reason } && line == n
            && reason == r,
        ManifestFault::Duplicate(p) => e matches Error::DuplicateEntry { path } && path@ == p,
    }
}

pub open spec fn render_line(e: (Seq<u8>, Seq<u8>)) -> Seq<u8> {
    hex_encode(e.1) + seq![32u8, 42u8] + e.0 + seq![10u8]
}

/// The text of a manifest that lists the pairs in order.
pub open spec fn render(s: Seq<(Seq<u8>, Seq<u8>)>) -> Seq<u8>
    decreases s.len(),
{
    if s.len() == 0 {
        Seq::empty()
    } else {
        render(s.drop_last()) + render_line(s.last())
    }
}

/// A line without its newline.
pub open spec fn line_content(e: (Seq<u8>, Seq<u8>)) -> Seq<u8> {
    hex_encode(e.1) + seq![32u8, 42u8] + e.0
}

/// A path that a manifest line can hold: no newline, and no carriage
/// return at its end.
pub open spec fn line_safe(p: Seq<u8>) -> bool {
    &&& forall|i: int| 0 <= i < p.len() ==> #[trigger] p[i] != 10u8
    &&& !(p.len() > 0 && p.last() == 13u8)
}

pub open spec fn keys_line_safe(s: Seq<(Seq<u8>, Seq<u8>)>) -> bool {
    forall|i: int| 0 <= i < s.len() ==> line_safe(#[trigger] s[i].0)
}

proof fn lemma_lines_shift(x: Seq<u8>, y: Seq<u8>, a: int, b: int)
    requires
        0 <= a <= b <= y.len(),
    ensures
        lines_from(x + y, x.len() + a, x.len() + b) == lines_from(y, a, b),
    decreases y.len() - b,
{
    let t = x + y;
    if b < y.len() {
        assert(t[x.len() + b] == y[b]);
        if y[b] == 10u8 {
            lemma_lines_shift(x, y, b + 1, b + 1);
            assert(t.subrange(x.len() + a, x.len() + b) =~= y.subrange(a, b));
        } else {
            lemma_lines_shift(x, y, a, b + 1);
        }
    } else {
        assert(t.subrange(x.len() + a, t.len() as int) =~= y.subrange(a, y.len() as int));
    }
}

proof fn lemma_lines_concat_from(x: Seq<u8>, y: Seq<u8>, s: int, i: int)
    requires
        x.len() == 0 || x.last() == 10u8,
        0 <= s <= i <= x.len(),
        i < x.len() || s == x.len(),
    ensures
        lines_from(x + y, s, i) == lines_from(x, s, i) + lines_from(y, 0, 0),
    decreases x.len() - i,
{
    let t = x + y;
    if i < x.len() {
        assert(t[i] == x[i]);
        if x[i] == 10u8 {
            lemma_lines_concat_from(x, y, i + 1, i + 1);
            assert(t.subrange(s, i) =~= x.subrange(s, i));
            assert(seq![strip_cr(x.subrange(s, i))] + lines_from(x, i + 1, i + 1) + lines_from(y, 0, 0)
                =~= seq![strip_cr(x.subrange(s, i))] + (lines_from(x, i + 1, i + 1) + lines_from(y, 0, 0)));
        } else {
            lemma_lines_concat_from(x, y, s, i + 1);
        }
    } else {
        lemma_lines_shift(x, y, 0, 0);
        assert(lines_from(x, s, i) =~= Seq::<Seq<u8>>::empty());
        assert(Seq::<Seq<u8>>::empty() + lines_from(y, 0, 0) =~= lines_from(y, 0, 0));
    }
}

proof fn lemma_scan_line(t: Seq<u8>, s: int, j: int, e: int)
    requires
        0 <= s <= j <= e < t.len(),
        t[e] == 10u8,
        forall|k: int| j <= k < e ==> #[trigger] t[k] != 10u8,
    ensures
        lines_from(t, s, j) == seq![strip_cr(t.subrange(s, e))] + lines_from(t, e + 1, e + 1),
    decreases e - j,
{
    if j < e {
        lemma_scan_line(t, s, j + 1, e);
    }
}

proof fn lemma_line_facts(e: (Seq<u8>, Seq<u8>))
    requires
        line_safe(e.0),
    ensures
        forall|k: int| 0 <= k < line_content(e).len() ==> #[trigger] line_content(e)[k] != 10u8,
        strip_cr(line_content(e)) == line_content(e),
        render_line(e) == line_content(e).push(10u8),
        parse_line(line_content(e)) == Ok::<_, ParseReason>(e),
{
    let h = hex_encode(e.1);
    let c = line_content(e);
    lemma_hex_round_trip(e.1);
    assert forall|k: int| 0 <= k < c.len() implies #[trigger] c[k] != 10u8 by {
        if k < h.len() {
            assert(c[k] == h[k]);
        } else if k >= h.len() + 2 {
            assert(c[k] == e.0[k - h.len() - 2]);
        }
    }
    if e.0.len() > 0 {
        assert(c.last() == e.0.last());
    } else {
        assert(c.last() == 42u8);
    }
    assert(render_line(e) =~= c.push(10u8));
    lemma_find_separator_after_hex(c, h.len() as int, 0);
    assert(c.subrange(0, h.len() as int) =~= h);
    assert(c.subrange(h.len() + 2int, c.len() as int) =~= e.0);
}

proof fn lemma_find_separator_after_hex(c: Seq<u8>, n: int, k: int)
    requires
        0 <= k <= n,
        n + 1 < c.len(),
        c[n] == 32u8,
        c[n + 1] == 42u8,
        forall|i: int| 0 <= i < n ==> #[trigger] c[i] != 32u8,
    ensures
        find_separator(c, k) == Some(n),
    decreases n - k,
{
    if k < n {
        lemma_find_separator_after_hex(c, n, k + 1);
    }
}

proof fn lemma_render_ends(s: Seq<(Seq<u8>, Seq<u8>)>)
    ensures
        render(s).len() == 0 || render(s).last() == 10u8,
{
    if s.len() > 0 {
        let r = render(s.drop_last()) + render_line(s.last());
        assert(r.last() == 10u8);
    }
}

/// The lines of a rendered manifest are its entries' lines, in order.
proof fn lemma_render_lines(s: Seq<(Seq<u8>, Seq<u8>)>)
    requires
        keys_line_safe(s),
    ensures
        manifest_lines(render(s)) == s.map_values(|e: (Seq<u8>, Seq<u8>)| line_content(e)),
    decreases s.len(),
{
    if s.len() == 0 {
        assert(manifest_lines(render(s)) =~= Seq::<Seq<u8>>::empty());
        assert(s.map_values(|e: (Seq<u8>, Seq<u8>)| line_content(e)) =~= Seq::<Seq<u8>>::empty());
    } else {
        let init = s.drop_last();
        let e = s.last();
        assert forall|i: int| 0 <= i < init.len() implies line_safe(#[trigger] init[i].0) by {
            assert(init[i] == s[i]);
        }
        lemma_render_lines(init);
        lemma_render_ends(init);
        let x = render(init);
        let c = line_content(e);
        lemma_line_facts(e);
        let l = c.push(10u8);
        lemma_lines_concat_from(x, l, 0, 0);
        lemma_scan_line(l, 0, 0, c.len() as int);
        assert(l.subrange(0, c.len() as int) =~= c);
        assert(lines_from(l, 0, 0) =~= seq![c]);
        assert(s.map_values(|e: (Seq<u8>, Seq<u8>)| line_content(e)) =~= init.map_values(
            |e: (Seq<u8>, Seq<u8>)| line_content(e),
        ).push(c));
    }
}

proof fn lemma_parse_rendered(s: Seq<(Seq<u8>, Seq<u8>)>, n: int)
    requires
        sorted_keys(s),
        keys_line_safe(s),
        0 <= n <= s.len(),
    ensures
        parse_from(
            s.map_values(|e: (Seq<u8>, Seq<u8>)| line_content(e)),
            n,
            pairs_map(s.subrange(0, n)),
        ) == Ok::<_, ManifestFault>(pairs_map(s)),
    decreases s.len() - n,
{
    let lines = s.map_values(|e: (Seq<u8>, Seq<u8>)| line_content(e));
    if n == s.len() {
        assert(s.subrange(0, n) =~= s);
    } else {
        let pre = s.subrange(0, n);
        lemma_line_facts(s[n]);
        assert(lines[n] == line_content(s[n]));
        assert forall|i: int, j: int| 0 <= i < j < pre.len() implies lex_lt(#[trigger] pre[i].0, #[trigger] pre[j].0) by {
            assert(pre[i] == s[i] && pre[j] == s[j]);
        }
        assert forall|i: int| 0 <= i < n implies lex_lt(#[trigger] pre[i].0, s[n].0) by {
            assert(pre[i] == s[i]);
        }
        lemma_insert_at(pre, n, s[n].0, s[n].1);
        assert(pre.insert(n, (s[n].0, s[n].1)) =~= s.subrange(0, n + 1));
        lemma_parse_rendered(s, n + 1);
    }
}

/// Writing entries in the manifest format and reading the text back gives
/// the same map from path to digest, for any sorted entries whose paths
/// hold no newline and do not end in a carriage return.
pub proof fn lemma_round_trip(s: Seq<(Seq<u8>, Seq<u8>)>)
    requires
        sorted_keys(s),
        keys_line_safe(s),
    ensures
        manifest_outcome(render(s)) == Ok::<_, ManifestFault>(pairs_map(s)),
{
    lemma_render_lines(s);
    lemma_parse_rendered(s, 0);
    assert(pairs_map(s.subrange(0, 0)) =~= Map::<Seq<u8>, Seq<u8>>::empty());
}

fn find_separator_exec(l: &[u8]) -> (r: Option<usize>)
    ensures
        match r {
            Some(k) => find_separator(l@, 0) == Some(k as int) && k + 1 < l@.len(),
            None => find_separator(l@, 0) is None,
        },
{
    let mut k: usize = 0;
    while l.len() > 1 && k < l.len() - 1
        invariant
            find_separator(l@, 0) == find_separator(l@, k as int),
        decreases l@.len() - k,
    {
        if l[k] == 32u8 && l[k + 1] == 42u8 {
            return Some(k);
        }
        k = k + 1;
    }
    None
}

fn parse_line_exec(l: &[u8]) -> (r: Result<(Vec<u8>, Vec<u8>), ParseReason>)
    ensures
        match r {
            Ok(e) => parse_line(l@) == Ok::<_, ParseReason>((e.0@, e.1@)),
            Err(reason) => parse_line(l@) == Err::<(Seq<u8>, Seq<u8>), _>(reason),
        },
{
    match find_separator_exec(l) {
        None => Err(ParseReason::MissingSeparator),
        Some(k) => {
            let h = slice_subrange(l, 0, k);
            match decode_hex(h) {
                None => Err(ParseReason::InvalidHex),
                Some(d) => {
                    let n: usize = l.len();
                    assert(k + 1 < n);
                    let p = copy_bytes(slice_subrange(l, k + 2, n));
                    Ok((p, d))
                },
            }
        },
    }
}

/// Reads one line into `entries`, failing as the manifest format says.
fn take_line(
    entries: &mut Vec<(Vec<u8>, Vec<u8>)>,
    l: &[u8],
    line_no: usize,
    Ghost(lines): Ghost<Seq<Seq<u8>>>,
) -> (r: Result<(), Error>)
    requires
        sorted_keys(view_pairs(old(entries)@)),
        1 <= line_no <= lines.len(),
        lines[line_no - 1] == l@,
    ensures
        sorted_keys(view_pairs(final(entries)@)),
        match r {
            Ok(()) => parse_from(lines, line_no - 1, pairs_map(view_pairs(old(entries)@)))
                == parse_from(lines, line_no as int, pairs_map(view_pairs(final(entries)@))),
            Err(e) => parse_from(lines, line_no - 1, pairs_map(view_pairs(old(entries)@))) matches Err(
                f,
            ) && fault_is(f, e),
        },
{
    match parse_line_exec(l) {
        Err(reason) => Err(Error::ParseError { line: line_no, reason }),
        Ok(e) => {
            let (p, d) = e;
            let ghost pv = p@;
            let path = copy_bytes(p.as_slice());
            if insert_new(entries, p, d) {
                Ok(())
            } else {
                assert(path@ == pv);
                Err(Error::DuplicateEntry { path })
            }
        },
    }
}

/// Reads a manifest text into its entries, sorted by path.
pub fn parse_manifest(text: &[u8]) -> (r: Result<Vec<(Vec<u8>, Vec<u8>)>, Error>)
    ensures
        match r {
            Ok(v) => sorted_keys(view_pairs(v@)) && manifest_outcome(text@) == Ok::<
                _,
                ManifestFault,
            >(pairs_map(view_pairs(v@))),
            Err(e) => manifest_outcome(text@) matches Err(f) && fault_is(f, e),
        },
{
    let ghost all = manifest_lines(text@);
    let mut entries: Vec<(Vec<u8>, Vec<u8>)> = Vec::new();
    let mut start: usize = 0;
    let mut i: usize = 0;
    let mut line_no: usize = 0;
    proof {
        assert(all.skip(0) =~= all);
        assert(pairs_map(view_pairs(entries@)) =~= Map::<Seq<u8>, Seq<u8>>::empty());
    }
    while i < text.len()
        invariant
            start <= i <= text@.len(),
            line_no <= start,
            all == manifest_lines(text@),
            line_no <= all.len(),
            all.skip(line_no as int) == lines_from(text@, start as int, i as int),
            sorted_keys(view_pairs(entries@)),
            manifest_outcome(text@) == parse_from(all, line_no as int, pairs_map(view_pairs(entries@))),
        decreases text@.len() - i,
    {
        if text[i] == 10u8 {
            let end: usize = if i > start && text[i - 1] == 13u8 {
                i - 1
            } else {
                i
            };
            let l = slice_subrange(text, start, end);
            proof {
                assert(lines_from(text@, start as int, i as int).len() >= 1);
                let raw = text@.subrange(start as int, i as int);
                if end < i {
                    assert(raw.drop_last() =~= text@.subrange(start as int, end as int));
                } else {
                    assert(raw =~= text@.subrange(start as int, end as int));
                }
                assert(strip_cr(raw) == l@);
                assert(all.skip(line_no as int)[0] == all[line_no as int]);
                assert(all.skip(line_no + 1) =~= all.skip(line_no as int).skip(1));
                assert(lines_from(text@, start as int, i as int).skip(1) =~= lines_from(
                    text@,
                    i + 1,
                    i + 1,
                ));
            }
            line_no = line_no + 1;
            match take_line(&mut entries, l, line_no, Ghost(all)) {
                Ok(()) => {},
                Err(e) => {
                    return Err(e);
                },
            }
            start = i + 1;
        }
        i = i + 1;
    }
    if start < text.len() {
        let l = slice_subrange(text, start, text.len());
        proof {
            assert(lines_from(text@, start as int, i as int).len() == 1);
            assert(all.skip(line_no as int)[0] == all[line_no as int]);
            assert(all.skip(line_no + 1) =~= all.skip(line_no as int).skip(1));
        }
        line_no = line_no + 1;
        match take_line(&mut entries, l, line_no, Ghost(all)) {
            Ok(()) => {},
            Err(e) => {
                return Err(e);
            },
        }
        proof {
            assert(all.skip(line_no as int).len() == 0);
        }
    }
    Ok(entries)
}

/// Writes the entries, in order, in the manifest format.
pub fn render_manifest(v: &Vec<(Vec<u8>, Vec<u8>)>) -> (r: Vec<u8>)
    ensures
        r@ == render(view_pairs(v@)),
{
    let mut out: Vec<u8> = Vec::new();
    let mut i: usize = 0;
    proof {
        assert(view_pairs(v@).subrange(0, 0) =~= Seq::<(Seq<u8>, Seq<u8>)>::empty());
    }
    while i < v.len()
        invariant
            i <= v@.len(),
            out@ == render(view_pairs(v@).subrange(0, i as int)),
        decreases v@.len() - i,
    {
        let encoded = encode_hex(v[i].1.as_slice());
        append_bytes(&mut out, encoded.as_slice());
        out.push(32u8);
        out.push(42u8);
        append_bytes(&mut out, v[i].0.as_slice());
        out.push(10u8);
        proof {
            let s = view_pairs(v@).subrange(0, i + 1);
            assert(s.drop_last() =~= view_pairs(v@).subrange(0, i as int));
            assert(s.last() == (v@[i as int].0@, v@[i as int].1@));
            assert(out@ =~= render(s.drop_last()) + render_line(s.last()));
        }
        i = i + 1;
    }
    proof {
        assert(view_pairs(v@).subrange(0, i as int) =~= view_pairs(v@));
    }
    out
}

} // verus!
