//! Turning a verification report into the set of entries to refresh. The
//! operator's answers arrive one at a time: `next_prompt` says which entry
//! to ask about, `decide` takes the answer.
use vstd::prelude::*;

use crate::algo::list_contains;
use crate::paths::{parent, parent_of};
use crate::report::{EntryStatus, VerificationReport};
use crate::sorted::{copy_bytes, view_list};

verus! {

/// An answer about one entry of the report.
#[derive(Debug, Clone, Copy, PartialEq, Eq, Structural)]
pub enum UpdateAction {
    /// Leave the entry as it is.
    Skip,
    /// Refresh this entry.
    Update,
    /// Refresh this entry and every other discrepancy in its directory.
    UpdateSubdirectory,
    /// Refresh this entry and every discrepancy still to come.
    UpdateAll,
}

/// Whether two report entries have the same parent directory.
pub open spec fn same_parent(a: Seq<u8>, b: Seq<u8>) -> bool {
    parent_of(a) == parent_of(b)
}

/// A discrepancy: an entry whose status is not `Intact`.
pub open spec fn pending(s: Seq<(Seq<u8>, u64, EntryStatus)>, j: int) -> bool {
    s[j].2 != EntryStatus::Intact
}

/// Whether an answer already given covers entry `j` without asking.
pub open spec fn covered(update_all: bool, decided: Seq<Seq<u8>>, p: Seq<u8>) -> bool {
    update_all || (parent_of(p) matches Some(d) && decided.contains(d))
}

/// Whether some marked entry of the report has path `p`.
pub open spec fn is_marked_path(marks: Seq<bool>, s: Seq<(Seq<u8>, u64, EntryStatus)>, p: Seq<u8>) -> bool {
    exists|k: int| 0 <= k < s.len() && marks[k] && (#[trigger] s[k]).0 == p
}

/// The progress of the operator through a report.
pub struct Reconciler {
    next: usize,
    update_all: bool,
    decided_dirs: Vec<Vec<u8>>,
    marked: Vec<bool>,
}

impl Reconciler {
    /// The entry to visit next.
    pub closed spec fn position(&self) -> nat {
        self.next as nat
    }

    /// Whether every remaining discrepancy is refreshed without asking.
    pub closed spec fn all_chosen(&self) -> bool {
        self.update_all
    }

    /// The directories whose discrepancies are refreshed without asking.
    pub closed spec fn decided(&self) -> Seq<Seq<u8>> {
        view_list(self.decided_dirs@)
    }

    /// For each report entry, whether it is to be refreshed.
    pub closed spec fn marks(&self) -> Seq<bool> {
        self.marked@
    }

    /// The reconciler belongs to a report of `n` entries.
    pub open spec fn fits(&self, n: nat) -> bool {
        self.marks().len() == n && self.position() <= n
    }

    /// A reconciler that has asked nothing and chosen nothing.
    pub fn new(report: &VerificationReport) -> (r: Self)
        ensures
            r.fits(report@.len()),
            r.position() == 0,
            !r.all_chosen(),
            r.decided() == Seq::<Seq<u8>>::empty(),
            forall|j: int| 0 <= j < report@.len() ==> !#[trigger] r.marks()[j],
    {
        let mut marked: Vec<bool> = Vec::new();
        let mut i: usize = 0;
        while i < report.len()
            invariant
                i <= report@.len(),
                marked@.len() == i,
                forall|j: int| 0 <= j < i ==> !#[trigger] marked@[j],
            decreases report@.len() - i,
        {
            marked.push(false);
            i = i + 1;
        }
        let r = Reconciler { next: 0, update_all: false, decided_dirs: Vec::new(), marked };
        proof {
            assert(r.decided() =~= Seq::<Seq<u8>>::empty());
        }
        r
    }

    /// Without asking: every discrepancy is refreshed.
    pub fn confirm_all(report: &VerificationReport) -> (r: Self)
        ensures
            r.fits(report@.len()),
            r.position() == report@.len(),
            forall|j: int| 0 <= j < report@.len() ==> #[trigger] r.marks()[j] == pending(report@, j),
    {
        let entries = report.entries();
        let mut marked: Vec<bool> = Vec::new();
        let mut i: usize = 0;
        while i < entries.len()
            invariant
                crate::report::view_entries(entries@) == report@,
                i <= report@.len(),
                marked@.len() == i,
                forall|j: int| 0 <= j < i ==> #[trigger] marked@[j] == pending(report@, j),
            decreases report@.len() - i,
        {
            let st = entries[i].status();
            proof {
                assert(report@[i as int] == entries@[i as int]@);
            }
            marked.push(*st != EntryStatus::Intact);
            i = i + 1;
        }
        Reconciler { next: entries.len(), update_all: false, decided_dirs: Vec::new(), marked }
    }

    /// Moves past the entries that need no question, marking those an
    /// earlier answer covers, and returns the entry to ask about, if any.
    pub fn next_prompt(&mut self, report: &VerificationReport) -> (r: Option<usize>)
        requires
            old(self).fits(report@.len()),
        ensures
            final(self).fits(report@.len()),
            final(self).all_chosen() == old(self).all_chosen(),
            final(self).decided() == old(self).decided(),
            old(self).position() <= final(self).position(),
            match r {
                Some(i) => i == final(self).position() && i < report@.len() && pending(report@, i as int)
                    && !covered(old(self).all_chosen(), old(self).decided(), report@[i as int].0),
                None => final(self).position() == report@.len(),
            },
            forall|j: int|
                old(self).position() <= j < final(self).position() && #[trigger] pending(report@, j)
                    ==> covered(old(self).all_chosen(), old(self).decided(), report@[j].0),
            forall|j: int|
                0 <= j < report@.len() ==> #[trigger] final(self).marks()[j] == if old(self).position()
                    <= j < final(self).position() && pending(report@, j) {
                    old(self).marks()[j] || covered(
                        old(self).all_chosen(),
                        old(self).decided(),
                        report@[j].0,
                    )
                } else {
                    old(self).marks()[j]
                },
    {
        let entries = report.entries();
        let ghost start = self.next;
        let ghost m0 = self.marked@;
        while self.next < entries.len()
            invariant
                crate::report::view_entries(entries@) == report@,
                self.fits(report@.len()),
                self.update_all == old(self).update_all,
                self.decided_dirs@ == old(self).decided_dirs@,
                start == old(self).next,
                m0 == old(self).marked@,
                start <= self.next,
                forall|j: int|
                    start <= j < self.next && #[trigger] pending(report@, j) ==> covered(
                        self.update_all,
                        view_list(self.decided_dirs@),
                        report@[j].0,
                    ),
                forall|j: int|
                    0 <= j < report@.len() ==> #[trigger] self.marked@[j] == if start <= j < self.next
                        && pending(report@, j) {
                        m0[j] || covered(self.update_all, view_list(self.decided_dirs@), report@[j].0)
                    } else {
                        m0[j]
                    },
            decreases report@.len() - self.next,
        {
            let i = self.next;
            proof {
                assert(report@[i as int] == entries@[i as int]@);
            }
            if *entries[i].status() != EntryStatus::Intact {
                let mut auto = self.update_all;
                if !auto {
                    match parent(entries[i].path()) {
                        Some(d) => {
                            auto = list_contains(&self.decided_dirs, d.as_slice());
                        },
                        None => {},
                    }
                }
                proof {
                    assert(auto == covered(self.update_all, view_list(self.decided_dirs@), report@[i as int].0));
                }
                if !auto {
                    return Some(i);
                }
                self.marked.set(i, true);
            }
            self.next = i + 1;
        }
        None
    }

    /// Takes the operator's answer about the entry `next_prompt` returned.
    pub fn decide(&mut self, report: &VerificationReport, action: UpdateAction)
        requires
            old(self).fits(report@.len()),
            old(self).position() < report@.len(),
        ensures
            final(self).fits(report@.len()),
            final(self).position() == old(self).position() + 1,
            final(self).all_chosen() == (old(self).all_chosen() || action == UpdateAction::UpdateAll),
            final(self).decided() == if action == UpdateAction::UpdateSubdirectory && parent_of(
                report@[old(self).position() as int].0,
            ) is Some {
                old(self).decided().push(parent_of(report@[old(self).position() as int].0)->0)
            } else {
                old(self).decided()
            },
            forall|j: int|
                0 <= j < report@.len() ==> #[trigger] final(self).marks()[j] == (old(self).marks()[j]
                    || (action != UpdateAction::Skip && j == old(self).position()) || (action
                    == UpdateAction::UpdateSubdirectory && pending(report@, j) && same_parent(
                    report@[j].0,
                    report@[old(self).position() as int].0,
                ))),
    {
        let entries = report.entries();
        let n: usize = entries.len();
        let i = self.next;
        proof {
            assert(report@[i as int] == entries@[i as int]@);
            assert(i < n);
        }
        match action {
            UpdateAction::Skip => {},
            UpdateAction::Update => {
                self.marked.set(i, true);
            },
            UpdateAction::UpdateAll => {
                self.marked.set(i, true);
                self.update_all = true;
            },
            UpdateAction::UpdateSubdirectory => {
                self.marked.set(i, true);
                let dir = parent(entries[i].path());
                let ghost m1 = self.marked@;
                let mut j: usize = 0;
                while j < entries.len()
                    invariant
                        crate::report::view_entries(entries@) == report@,
                        self.marked@.len() == report@.len(),
                        self.decided_dirs@ == old(self).decided_dirs@,
                        self.update_all == old(self).update_all,
                        self.next == i,
                        j <= report@.len(),
                        i < report@.len(),
                        match dir {
                            Some(d) => parent_of(report@[i as int].0) == Some(d@),
                            None => parent_of(report@[i as int].0) is None,
                        },
                        forall|k: int|
                            0 <= k < report@.len() ==> #[trigger] self.marked@[k] == (m1[k] || (k < j
                                && pending(report@, k) && same_parent(report@[k].0, report@[i as int].0))),
                    decreases report@.len() - j,
                {
                    proof {
                        assert(report@[j as int] == entries@[j as int]@);
                    }
                    if *entries[j].status() != EntryStatus::Intact {
                        let other = parent(entries[j].path());
                        let same = match (&dir, &other) {
                            (Some(a), Some(b)) => crate::sorted::bytes_equal(a.as_slice(), b.as_slice()),
                            (None, None) => true,
                            _ => false,
                        };
                        proof {
                            assert(same == same_parent(report@[j as int].0, report@[i as int].0));
                        }
                        if same {
                            self.marked.set(j, true);
                        }
                    }
                    j = j + 1;
                }
                match dir {
                    Some(d) => {
                        self.decided_dirs.push(d);
                    },
                    None => {},
                }
            },
        }
        self.next = i + 1;
        proof {
            assert(self.decided() =~= if action == UpdateAction::UpdateSubdirectory && parent_of(
                report@[i as int].0,
            ) is Some {
                old(self).decided().push(parent_of(report@[i as int].0)->0)
            } else {
                old(self).decided()
            });
        }
    }

    /// The paths to refresh: those of the marked entries, in report order,
    /// each once.
    pub fn updates(&self, report: &VerificationReport) -> (r: Vec<Vec<u8>>)
        requires
            self.fits(report@.len()),
        ensures
            view_list(r@) == marked_paths(report@, self.marks(), report@.len() as int),
            view_list(r@).no_duplicates(),
            forall|p: Seq<u8>|
                #[trigger] view_list(r@).contains(p) <==> is_marked_path(self.marks(), report@, p),
    {
        let entries = report.entries();
        let mut out: Vec<Vec<u8>> = Vec::new();
        let mut i: usize = 0;
        proof {
            assert(view_list(out@) =~= Seq::<Seq<u8>>::empty());
        }
        while i < entries.len()
            invariant
                crate::report::view_entries(entries@) == report@,
                self.fits(report@.len()),
                i <= report@.len(),
                view_list(out@) == marked_paths(report@, self.marks(), i as int),
            decreases report@.len() - i,
        {
            proof {
                assert(report@[i as int] == entries@[i as int]@);
            }
            if self.marked[i] && !list_contains(&out, entries[i].path()) {
                let p = copy_bytes(entries[i].path());
                let ghost before = out@;
                out.push(p);
                proof {
                    assert(view_list(out@) =~= view_list(before).push(p@));
                }
            }
            i = i + 1;
        }
        proof {
            lemma_marked_paths(report@, self.marks(), report@.len() as int);
        }
        out
    }
}

/// The paths of the marked entries among the first `n`, in report order,
/// each kept at its first occurrence.
pub open spec fn marked_paths(s: Seq<(Seq<u8>, u64, EntryStatus)>, marks: Seq<bool>, n: int) -> Seq<
    Seq<u8>,
>
    decreases n,
{
    if n <= 0 {
        Seq::empty()
    } else {
        let prev = marked_paths(s, marks, n - 1);
        if marks[n - 1] && !prev.contains(s[n - 1].0) {
            prev.push(s[n - 1].0)
        } else {
            prev
        }
    }
}

/// The marked paths hold no path twice, and hold exactly the paths of
/// the marked entries.
pub proof fn lemma_marked_paths(s: Seq<(Seq<u8>, u64, EntryStatus)>, marks: Seq<bool>, n: int)
    requires
        0 <= n <= s.len(),
        marks.len() == s.len(),
    ensures
        marked_paths(s, marks, n).no_duplicates(),
        forall|p: Seq<u8>|
            #[trigger] marked_paths(s, marks, n).contains(p) <==> exists|k: int|
                0 <= k < n && marks[k] && (#[trigger] s[k]).0 == p,
    decreases n,
{
    if n > 0 {
        lemma_marked_paths(s, marks, n - 1);
        let prev = marked_paths(s, marks, n - 1);
        let cur = marked_paths(s, marks, n);
        assert forall|p: Seq<u8>| #[trigger] cur.contains(p) <==> exists|k: int|
            0 <= k < n && marks[k] && (#[trigger] s[k]).0 == p by {
            if cur.contains(p) {
                let w = choose|w: int| 0 <= w < cur.len() && cur[w] == p;
                if w < prev.len() {
                    assert(prev[w] == cur[w]);
                    assert(prev.contains(p));
                } else {
                    assert(marks[n - 1] && s[n - 1].0 == p);
                }
            }
            if exists|k: int| 0 <= k < n && marks[k] && (#[trigger] s[k]).0 == p {
                let k = choose|k: int| 0 <= k < n && marks[k] && (#[trigger] s[k]).0 == p;
                if k < n - 1 {
                    assert(prev.contains(p));
                    let w = choose|w: int| 0 <= w < prev.len() && prev[w] == p;
                    if cur != prev {
                        assert(cur[w] == prev[w]);
                    }
                    assert(cur.contains(p));
                } else if !prev.contains(p) {
                    assert(cur[cur.len() - 1] == p);
                }
            }
        }
    }
}

} // verus!
