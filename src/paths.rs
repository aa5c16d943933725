//! Paths as byte strings with `/` as the separator. The library holds
//! canonical paths: absolute, resolved, with no `.` or `..` segment and no
//! trailing separator.
use vstd::prelude::*;
use vstd::slice::slice_subrange;

use crate::sorted::{append_bytes, copy_bytes};

verus! {

/// The last position below `n` that holds `c`.
pub open spec fn last_index_before(s: Seq<u8>, c: u8, n: int) -> Option<int>
    decreases n,
{
    if n <= 0 {
        None
    } else if s[n - 1] == c {
        Some(n - 1)
    } else {
        last_index_before(s, c, n - 1)
    }
}

pub open spec fn last_index(s: Seq<u8>, c: u8) -> Option<int> {
    last_index_before(s, c, s.len() as int)
}

/// Finds the last position that holds `c`.
pub fn find_last(s: &[u8], c: u8) -> (r: Option<usize>)
    ensures
        match r {
            Some(k) => last_index(s@, c) == Some(k as int) && k < s@.len() && s@[k as int] == c,
            None => last_index(s@, c) is None,
        },
{
    let mut n: usize = s.len();
    while n > 0
        invariant
            n <= s@.len(),
            last_index(s@, c) == last_index_before(s@, c, n as int),
        decreases n,
    {
        if s[n - 1] == c {
            return Some(n - 1);
        }
        n = n - 1;
    }
    None
}

/// The last segment of a path, unless the path ends in none (`/`, the empty
/// path, `.` or `..`).
pub open spec fn file_name_of(p: Seq<u8>) -> Option<Seq<u8>> {
    let name = match last_index(p, 47u8) {
        Some(k) => p.subrange(k + 1, p.len() as int),
        None => p,
    };
    if name.len() == 0 || name == seq![46u8] || name == seq![46u8, 46u8] {
        None
    } else {
        Some(name)
    }
}

pub fn file_name(p: &[u8]) -> (r: Option<Vec<u8>>)
    ensures
        match r {
            Some(v) => file_name_of(p@) == Some(v@),
            None => file_name_of(p@) is None,
        },
{
    let name = match find_last(p, 47u8) {
        Some(k) => {
            let n: usize = p.len();
            slice_subrange(p, k + 1, n)
        },
        None => p,
    };
    let dot = name.len() == 1 && name[0] == 46u8;
    let dotdot = name.len() == 2 && name[0] == 46u8 && name[1] == 46u8;
    proof {
        assert(dot <==> name@ =~= seq![46u8]);
        assert(dotdot <==> name@ =~= seq![46u8, 46u8]);
    }
    if name.len() == 0 || dot || dotdot {
        None
    } else {
        Some(copy_bytes(name))
    }
}

/// The directory that holds a path: what stands before its last separator,
/// `/` for a child of the root, the empty path for a bare name, and nothing
/// for the root itself.
pub open spec fn parent_of(p: Seq<u8>) -> Option<Seq<u8>> {
    match last_index(p, 47u8) {
        None => if p.len() == 0 {
            None
        } else {
            Some(Seq::empty())
        },
        Some(k) => if k == 0 {
            if p.len() == 1 {
                None
            } else {
                Some(seq![47u8])
            }
        } else {
            Some(p.subrange(0, k))
        },
    }
}

pub fn parent(p: &[u8]) -> (r: Option<Vec<u8>>)
    ensures
        match r {
            Some(v) => parent_of(p@) == Some(v@),
            None => parent_of(p@) is None,
        },
{
    match find_last(p, 47u8) {
        None => if p.len() == 0 {
            None
        } else {
            Some(Vec::new())
        },
        Some(k) => if k == 0 {
            if p.len() == 1 {
                None
            } else {
                let mut v: Vec<u8> = Vec::new();
                v.push(47u8);
                proof {
                    assert(v@ =~= seq![47u8]);
                }
                Some(v)
            }
        } else {
            Some(copy_bytes(slice_subrange(p, 0, k)))
        },
    }
}

/// `base` joined with `p` as `Path::join` does: an absolute `p` replaces
/// `base`, and one separator stands between them.
pub open spec fn join_of(base: Seq<u8>, p: Seq<u8>) -> Seq<u8> {
    if p.len() > 0 && p[0] == 47u8 {
        p
    } else if base.len() == 0 || base.last() == 47u8 {
        base + p
    } else {
        base + seq![47u8] + p
    }
}

pub fn join(base: &[u8], p: &[u8]) -> (r: Vec<u8>)
    ensures
        r@ == join_of(base@, p@),
{
    if p.len() > 0 && p[0] == 47u8 {
        copy_bytes(p)
    } else {
        let mut r = copy_bytes(base);
        if !(base.len() == 0 || base[base.len() - 1] == 47u8) {
            r.push(47u8);
        }
        append_bytes(&mut r, p);
        r
    }
}

pub open spec fn ascii_lower(c: u8) -> u8 {
    if 65 <= c <= 90 {
        (c + 32) as u8
    } else {
        c
    }
}

/// Equality of byte strings with ASCII letters compared without case.
pub open spec fn eq_ignore_ascii_case(a: Seq<u8>, b: Seq<u8>) -> bool {
    a.len() == b.len() && forall|i: int|
        0 <= i < a.len() ==> ascii_lower(#[trigger] a[i]) == ascii_lower(b[i])
}

pub fn bytes_eq_ignore_ascii_case(a: &[u8], b: &[u8]) -> (r: bool)
    ensures
        r == eq_ignore_ascii_case(a@, b@),
{
    if a.len() != b.len() {
        return false;
    }
    let mut i: usize = 0;
    while i < a.len()
        invariant
            a@.len() == b@.len(),
            i <= a@.len(),
            forall|j: int| 0 <= j < i ==> ascii_lower(#[trigger] a@[j]) == ascii_lower(b@[j]),
        decreases a@.len() - i,
    {
        let x = if 65 <= a[i] && a[i] <= 90 {
            a[i] + 32
        } else {
            a[i]
        };
        let y = if 65 <= b[i] && b[i] <= 90 {
            b[i] + 32
        } else {
            b[i]
        };
        if x != y {
            return false;
        }
        i = i + 1;
    }
    true
}

} // verus!
