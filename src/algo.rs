use vstd::prelude::*;

use crate::paths::{
    bytes_eq_ignore_ascii_case, eq_ignore_ascii_case, file_name, file_name_of, find_last,
    last_index,
};
use crate::sorted::{append_bytes, bytes_equal, copy_bytes, view_list};
use vstd::slice::slice_subrange;

verus! {

/// The digest functions a catalog can be made with.
#[derive(Debug, Clone, Copy, PartialEq, Eq, Structural)]
pub enum Algorithm {
    Blake3,
    Md5,
    Sha1,
    Sha256,
    Sha512,
}

/// The lowercase name of an algorithm, as ASCII bytes.
pub open spec fn algorithm_name(a: Algorithm) -> Seq<u8> {
    match a {
        Algorithm::Blake3 => seq![98u8, 108u8, 97u8, 107u8, 101u8, 51u8],
        Algorithm::Md5 => seq![109u8, 100u8, 53u8],
        Algorithm::Sha1 => seq![115u8, 104u8, 97u8, 49u8],
        Algorithm::Sha256 => seq![115u8, 104u8, 97u8, 50u8, 53u8, 54u8],
        Algorithm::Sha512 => seq![115u8, 104u8, 97u8, 53u8, 49u8, 50u8],
    }
}

/// The order in which algorithms are listed and tried.
pub open spec fn algorithm_order() -> Seq<Algorithm> {
    seq![Algorithm::Blake3, Algorithm::Md5, Algorithm::Sha1, Algorithm::Sha256, Algorithm::Sha512]
}

/// What follows the last `.` of a file name; a name without a `.` has no
/// extension.
pub open spec fn extension_of(name: Seq<u8>) -> Option<Seq<u8>> {
    match last_index(name, 46u8) {
        Some(k) => Some(name.subrange(k + 1, name.len() as int)),
        None => None,
    }
}

/// The first algorithm of `order` whose name is `e`, ignoring ASCII case.
pub open spec fn first_named(order: Seq<Algorithm>, e: Seq<u8>) -> Option<Algorithm>
    decreases order.len(),
{
    if order.len() == 0 {
        None
    } else if eq_ignore_ascii_case(e, algorithm_name(order[0])) {
        Some(order[0])
    } else {
        first_named(order.drop_first(), e)
    }
}

/// `<base>.<algorithm name>`.
pub open spec fn candidate_name(base: Seq<u8>, a: Algorithm) -> Seq<u8> {
    base + seq![46u8] + algorithm_name(a)
}

/// The first algorithm of `order` whose candidate name is among `names`.
pub open spec fn first_present(order: Seq<Algorithm>, base: Seq<u8>, names: Seq<Seq<u8>>) -> Option<
    Algorithm,
>
    decreases order.len(),
{
    if order.len() == 0 {
        None
    } else if names.contains(candidate_name(base, order[0])) {
        Some(order[0])
    } else {
        first_present(order.drop_first(), base, names)
    }
}

/// Whether `x` is one of the byte strings of `list`.
pub fn list_contains(list: &Vec<Vec<u8>>, x: &[u8]) -> (r: bool)
    ensures
        r == view_list(list@).contains(x@),
{
    let mut i: usize = 0;
    while i < list.len()
        invariant
            i <= list@.len(),
            forall|j: int| 0 <= j < i ==> view_list(list@)[j] != x@,
        decreases list@.len() - i,
    {
        if bytes_equal(list[i].as_slice(), x) {
            proof {
                assert(view_list(list@)[i as int] == x@);
            }
            return true;
        }
        i = i + 1;
    }
    false
}

impl Algorithm {
    /// The lowercase name, which is also the manifest's file extension.
    pub fn name(&self) -> (r: Vec<u8>)
        ensures
            r@ == algorithm_name(*self),
    {
        let r: Vec<u8> = match self {
            Algorithm::Blake3 => vec![98u8, 108u8, 97u8, 107u8, 101u8, 51u8],
            Algorithm::Md5 => vec![109u8, 100u8, 53u8],
            Algorithm::Sha1 => vec![115u8, 104u8, 97u8, 49u8],
            Algorithm::Sha256 => vec![115u8, 104u8, 97u8, 50u8, 53u8, 54u8],
            Algorithm::Sha512 => vec![115u8, 104u8, 97u8, 53u8, 49u8, 50u8],
        };
        proof {
            assert(r@ =~= algorithm_name(*self));
        }
        r
    }

    /// Every algorithm, in listing order.
    pub fn all() -> (r: Vec<Algorithm>)
        ensures
            r@ == algorithm_order(),
    {
        let r = vec![
            Algorithm::Blake3,
            Algorithm::Md5,
            Algorithm::Sha1,
            Algorithm::Sha256,
            Algorithm::Sha512,
        ];
        proof {
            assert(r@ =~= algorithm_order());
        }
        r
    }

    /// The algorithm whose name is a manifest file's extension; none where
    /// the file name has no extension.
    pub fn try_deduce_from_file(file_path: &[u8]) -> (r: Option<Algorithm>)
        ensures
            r == match file_name_of(file_path@) {
                None => None,
                Some(n) => match extension_of(n) {
                    None => None,
                    Some(e) => first_named(algorithm_order(), e),
                },
            },
    {
        let name = match file_name(file_path) {
            None => {
                return None;
            },
            Some(n) => n,
        };
        let ext = match find_last(name.as_slice(), 46u8) {
            Some(k) => {
                let n: usize = name.len();
                slice_subrange(name.as_slice(), k + 1, n)
            },
            None => {
                return None;
            },
        };
        let order = Algorithm::all();
        let mut i: usize = 0;
        proof {
            assert(order@.skip(0) =~= order@);
        }
        while i < order.len()
            invariant
                i <= order@.len(),
                extension_of(name@) == Some(ext@),
                order@ == algorithm_order(),
                file_name_of(file_path@) == Some(name@),
                first_named(order@, ext@) == first_named(order@.skip(i as int), ext@),
            decreases order@.len() - i,
        {
            let candidate = order[i].name();
            proof {
                assert(order@.skip(i as int)[0] == order@[i as int]);
            }
            if bytes_eq_ignore_ascii_case(ext, candidate.as_slice()) {
                return Some(order[i]);
            }
            proof {
                assert(order@.skip(i as int).drop_first() =~= order@.skip(i + 1));
            }
            i = i + 1;
        }
        None
    }

    /// The algorithm whose default manifest `<root name>.<algorithm>` is
    /// among the names of the files in the root directory.
    pub fn try_deduce_from_path(root: &[u8], present: &Vec<Vec<u8>>) -> (r: Option<Algorithm>)
        ensures
            r == match file_name_of(root@) {
                None => None,
                Some(n) => first_present(algorithm_order(), n, view_list(present@)),
            },
    {
        let base = match file_name(root) {
            None => {
                return None;
            },
            Some(n) => n,
        };
        let order = Algorithm::all();
        let mut i: usize = 0;
        proof {
            assert(order@.skip(0) =~= order@);
        }
        while i < order.len()
            invariant
                i <= order@.len(),
                order@ == algorithm_order(),
                file_name_of(root@) == Some(base@),
                first_present(order@, base@, view_list(present@)) == first_present(
                    order@.skip(i as int),
                    base@,
                    view_list(present@),
                ),
            decreases order@.len() - i,
        {
            let mut candidate = copy_bytes(base.as_slice());
            candidate.push(46u8);
            let ext = order[i].name();
            append_bytes(&mut candidate, ext.as_slice());
            proof {
                assert(order@.skip(i as int)[0] == order@[i as int]);
                assert(candidate@ =~= candidate_name(base@, order@[i as int]));
            }
            if list_contains(present, candidate.as_slice()) {
                return Some(order[i]);
            }
            proof {
                assert(order@.skip(i as int).drop_first() =~= order@.skip(i + 1));
            }
            i = i + 1;
        }
        None
    }
}

} // verus!
