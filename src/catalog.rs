use vstd::prelude::*;

use crate::algo::{algorithm_name, algorithm_order, first_named, first_present, extension_of, Algorithm};
use crate::errors::Error;
use crate::manifest::{
    fault_is, keys_line_safe, lemma_round_trip, manifest_outcome, parse_manifest, render, render_manifest,
    ManifestFault,
};
use crate::paths::{file_name, file_name_of, join, join_of};
use crate::report::{EntryStatus, ReportEntry};
use crate::sorted::{
    append_bytes, bytes_equal, copy_bytes, insert_new, pairs_map, remove_key, sorted_keys, upsert,
    view_list, view_pairs, has_key,
};

verus! {

/// What `pathdiff::diff_paths` gives for a path and a base.
pub uninterp spec fn relative_path_of(path: Seq<u8>, base: Seq<u8>) -> Option<Seq<u8>>;

/// Relies on pathdiff::diff_paths: the path that leads from `base` to
/// `path`, or none; the result depends on the two paths alone.
#[verifier::external_body]
fn diff_paths(path: &[u8], base: &[u8]) -> (r: Option<Vec<u8>>)
    ensures
        match r {
            Some(v) => relative_path_of(path@, base@) == Some(v@),
            None => relative_path_of(path@, base@) is None,
        },
{
    let path = String::from_utf8_lossy(path);
    let base = String::from_utf8_lossy(base);
    pathdiff::diff_paths(&*path, &*base).map(|p| p.to_string_lossy().into_owned().into_bytes())
}

/// `signatures`, the name used where the root has no name of its own.
pub open spec fn fallback_name() -> Seq<u8> {
    seq![115u8, 105u8, 103u8, 110u8, 97u8, 116u8, 117u8, 114u8, 101u8, 115u8]
}

/// `<root name>.<algorithm>`.
pub open spec fn signature_filename_of(root: Seq<u8>, algo: Algorithm) -> Seq<u8> {
    let base = match file_name_of(root) {
        Some(n) => n,
        None => fallback_name(),
    };
    base + seq![46u8] + algorithm_name(algo)
}

/// The default manifest location: `<root>/<root name>.<algorithm>`.
pub open spec fn default_signature_path(root: Seq<u8>, algo: Algorithm) -> Seq<u8> {
    join_of(root, signature_filename_of(root, algo))
}

/// A directory to catalog: its canonical root and, optionally, a manifest
/// file named in place of the default one.
pub struct Directory {
    path: Vec<u8>,
    catalog_path: Option<Vec<u8>>,
}

impl View for Directory {
    type V = (Seq<u8>, Option<Seq<u8>>);

    closed spec fn view(&self) -> (Seq<u8>, Option<Seq<u8>>) {
        (
            self.path@,
            match self.catalog_path {
                Some(p) => Some(p@),
                None => None,
            },
        )
    }
}

/// Where the manifest of a directory is read from, and with which algorithm.
pub open spec fn resolution(
    dir: (Seq<u8>, Option<Seq<u8>>),
    algo: Option<Algorithm>,
    listing: Seq<Seq<u8>>,
) -> Result<(Algorithm, Seq<u8>), Error> {
    match dir.1 {
        Some(f) => {
            let a = match algo {
                Some(a) => Some(a),
                None => match file_name_of(f) {
                    None => None,
                    Some(n) => match extension_of(n) {
                        None => None,
                        Some(e) => first_named(algorithm_order(), e),
                    },
                },
            };
            match a {
                Some(a) => Ok((a, f)),
                None => Err(Error::AmbiguousAlgorithm),
            }
        },
        None => {
            let a = match algo {
                Some(a) => Some(a),
                None => match file_name_of(dir.0) {
                    None => None,
                    Some(n) => first_present(algorithm_order(), n, listing),
                },
            };
            match a {
                Some(a) => Ok((a, default_signature_path(dir.0, a))),
                None => Err(Error::AmbiguousOrMissingManifest),
            }
        },
    }
}

impl Directory {
    /// A directory whose manifest has the default name; `path` is canonical.
    pub fn new(path: Vec<u8>) -> (r: Self)
        ensures
            r@ == (path@, None::<Seq<u8>>),
    {
        Directory { path, catalog_path: None }
    }

    /// A directory with a manifest file of its own; a relative file name is
    /// taken from the root.
    pub fn with_catalog_file(path: Vec<u8>, catalog_file: &[u8]) -> (r: Self)
        ensures
            r@ == (path@, Some(join_of(path@, catalog_file@))),
    {
        let file = join(path.as_slice(), catalog_file);
        Directory { path, catalog_path: Some(file) }
    }

    pub fn path(&self) -> (r: &[u8])
        ensures
            r@ == self@.0,
    {
        self.path.as_slice()
    }

    pub fn signature_filename(&self, algo: Algorithm) -> (r: Vec<u8>)
        ensures
            r@ == signature_filename_of(self@.0, algo),
    {
        let mut r = match file_name(self.path.as_slice()) {
            Some(n) => n,
            None => {
                let v = vec![115u8, 105u8, 103u8, 110u8, 97u8, 116u8, 117u8, 114u8, 101u8, 115u8];
                proof {
                    assert(v@ =~= fallback_name());
                }
                v
            },
        };
        r.push(46u8);
        let name = algo.name();
        append_bytes(&mut r, name.as_slice());
        r
    }

    /// The default manifest location for `algo`.
    pub fn signature_file_path(&self, algo: Algorithm) -> (r: Vec<u8>)
        ensures
            r@ == default_signature_path(self@.0, algo),
    {
        let name = self.signature_filename(algo);
        join(self.path.as_slice(), name.as_slice())
    }

    pub fn catalog_metadata(&self, algo: Algorithm) -> (r: CatalogMetadata)
        ensures
            r@ == (algo, default_signature_path(self@.0, algo)),
    {
        CatalogMetadata { algo, signature_file_path: self.signature_file_path(algo) }
    }

    pub fn catalog_metadata_with_file(&self, algo: Algorithm, file_path: Vec<u8>) -> (r: CatalogMetadata)
        ensures
            r@ == (algo, file_path@),
    {
        CatalogMetadata { algo, signature_file_path: file_path }
    }

    /// A catalog with no entries, writing to the named or the default manifest.
    pub fn empty_catalog(self, algo: Algorithm) -> (r: Catalog)
        ensures
            r.wf(),
            r@ == Map::<Seq<u8>, Seq<u8>>::empty(),
            r.root() == self@.0,
            r.algo() == algo,
            r.signature_file() == match self@.1 {
                Some(f) => f,
                None => default_signature_path(self@.0, algo),
            },
    {
        let metadata = match &self.catalog_path {
            Some(f) => self.catalog_metadata_with_file(algo, copy_bytes(f.as_slice())),
            None => self.catalog_metadata(algo),
        };
        let r = Catalog { directory: self, entries: Vec::new(), metadata };
        proof {
            assert(pairs_map(view_pairs(r.entries@)) =~= Map::<Seq<u8>, Seq<u8>>::empty());
        }
        r
    }

    /// Which manifest to read and with which algorithm: a named file takes
    /// its algorithm from `algo` or its extension; otherwise the algorithm is
    /// `algo` or the first whose default manifest is among `root_listing`,
    /// the names of the files in the root.
    pub fn resolve_manifest(&self, algo: Option<Algorithm>, root_listing: &Vec<Vec<u8>>) -> (r: Result<
        (Algorithm, Vec<u8>),
        Error,
    >)
        ensures
            match r {
                Ok((a, f)) => resolution(self@, algo, view_list(root_listing@)) == Ok::<
                    _,
                    Error,
                >((a, f@)),
                Err(e) => resolution(self@, algo, view_list(root_listing@)) == Err::<
                    (Algorithm, Seq<u8>),
                    _,
                >(e),
            },
    {
        match &self.catalog_path {
            Some(f) => {
                let a = match algo {
                    Some(a) => Some(a),
                    None => Algorithm::try_deduce_from_file(f.as_slice()),
                };
                match a {
                    Some(a) => Ok((a, copy_bytes(f.as_slice()))),
                    None => Err(Error::AmbiguousAlgorithm),
                }
            },
            None => {
                let a = match algo {
                    Some(a) => Some(a),
                    None => Algorithm::try_deduce_from_path(self.path.as_slice(), root_listing),
                };
                match a {
                    Some(a) => Ok((a, self.signature_file_path(a))),
                    None => Err(Error::AmbiguousOrMissingManifest),
                }
            },
        }
    }

    /// The catalog that a manifest text holds.
    pub fn load(self, algo: Algorithm, signature_file: Vec<u8>, text: &[u8]) -> (r: Result<
        Catalog,
        Error,
    >)
        ensures
            match r {
                Ok(c) => {
                    &&& c.wf()
                    &&& manifest_outcome(text@) == Ok::<_, ManifestFault>(c@)
                    &&& c.root() == self@.0
                    &&& c.algo() == algo
                    &&& c.signature_file() == signature_file@
                },
                Err(e) => manifest_outcome(text@) matches Err(f) && fault_is(f, e),
            },
    {
        match parse_manifest(text) {
            Ok(entries) => {
                let metadata = self.catalog_metadata_with_file(algo, signature_file);
                Ok(Catalog { directory: self, entries, metadata })
            },
            Err(e) => Err(e),
        }
    }
}

/// The algorithm and manifest location of a catalog.
pub struct CatalogMetadata {
    algo: Algorithm,
    signature_file_path: Vec<u8>,
}

impl View for CatalogMetadata {
    type V = (Algorithm, Seq<u8>);

    closed spec fn view(&self) -> (Algorithm, Seq<u8>) {
        (self.algo, self.signature_file_path@)
    }
}

impl CatalogMetadata {
    pub fn signature_file_path(&self) -> (r: &[u8])
        ensures
            r@ == self@.1,
    {
        self.signature_file_path.as_slice()
    }

    pub fn algo(&self) -> (r: Algorithm)
        ensures
            r == self@.0,
    {
        self.algo
    }
}

/// What deciding on one discovered path gives during populate.
pub enum Selection {
    /// The path is the manifest itself or the root, or its entry is already known.
    Skip,
    /// The path is new, under this relative path.
    Hash(Seq<u8>),
    /// The path cannot be made relative to the root.
    NotRelative,
}

/// The decision for a discovered path, given the entries known before the pass.
pub open spec fn selection_of(
    known: Map<Seq<u8>, Seq<u8>>,
    root: Seq<u8>,
    signature_file: Seq<u8>,
    p: Seq<u8>,
) -> Selection {
    if p == signature_file || p == root {
        Selection::Skip
    } else {
        match relative_path_of(p, root) {
            None => Selection::NotRelative,
            Some(rel) => if known.contains_key(rel) {
                Selection::Skip
            } else {
                Selection::Hash(rel)
            },
        }
    }
}

/// The entries after a pass that hashed `results`, in the order given:
/// a path already present keeps its digest.
pub open spec fn populated(m: Map<Seq<u8>, Seq<u8>>, results: Seq<(Seq<u8>, Seq<u8>)>) -> Map<
    Seq<u8>,
    Seq<u8>,
>
    decreases results.len(),
{
    if results.len() == 0 {
        m
    } else {
        let before = populated(m, results.drop_last());
        if before.contains_key(results.last().0) {
            before
        } else {
            before.insert(results.last().0, results.last().1)
        }
    }
}

pub open spec fn view_updates(v: Seq<(Vec<u8>, Option<Vec<u8>>)>) -> Seq<(Seq<u8>, Option<Seq<u8>>)> {
    v.map_values(
        |e: (Vec<u8>, Option<Vec<u8>>)|
            (
                e.0@,
                match e.1 {
                    Some(d) => Some(d@),
                    None => None,
                },
            ),
    )
}

/// The entries after applying refreshes in order: a listed path takes the
/// new digest, or leaves when there is none; other paths are ignored.
pub open spec fn reconciled(m: Map<Seq<u8>, Seq<u8>>, updates: Seq<(Seq<u8>, Option<Seq<u8>>)>) -> Map<
    Seq<u8>,
    Seq<u8>,
>
    decreases updates.len(),
{
    if updates.len() == 0 {
        m
    } else {
        let before = reconciled(m, updates.drop_last());
        let (p, d) = updates.last();
        if !before.contains_key(p) {
            before
        } else {
            match d {
                Some(d) => before.insert(p, d),
                None => before.remove(p),
            }
        }
    }
}

/// Reconciling never adds a path; a path with no refresh keeps its entry;
/// a listed path refreshed once takes the new digest, or is dropped where
/// its file is gone.
pub proof fn lemma_reconcile_outcome(m: Map<Seq<u8>, Seq<u8>>, updates: Seq<(Seq<u8>, Option<Seq<u8>>)>)
    ensures
        forall|k: Seq<u8>| #[trigger] reconciled(m, updates).contains_key(k) ==> m.contains_key(k),
        forall|k: Seq<u8>|
            (forall|i: int| 0 <= i < updates.len() ==> (#[trigger] updates[i]).0 != k) ==> (
            #[trigger] reconciled(m, updates).contains_key(k) == m.contains_key(k) && (m.contains_key(k)
                ==> reconciled(m, updates)[k] == m[k])),
        forall|i: int|
            0 <= i < updates.len() && m.contains_key(#[trigger] updates[i].0) && (forall|j: int|
                0 <= j < updates.len() && j != i ==> updates[j].0 != updates[i].0) ==> match updates[i].1 {
                Some(d) => reconciled(m, updates).contains_key(updates[i].0) && reconciled(
                    m,
                    updates,
                )[updates[i].0] == d,
                None => !reconciled(m, updates).contains_key(updates[i].0),
            },
    decreases updates.len(),
{
    if updates.len() > 0 {
        let init = updates.drop_last();
        lemma_reconcile_outcome(m, init);
        let n = updates.len() - 1;
        let before = reconciled(m, init);
        assert(updates.last() == updates[n]);
        assert forall|k: Seq<u8>|
            (forall|i: int| 0 <= i < updates.len() ==> (#[trigger] updates[i]).0 != k) implies (
            #[trigger] reconciled(m, updates).contains_key(k) == m.contains_key(k) && (m.contains_key(k)
                ==> reconciled(m, updates)[k] == m[k])) by {
            assert forall|i: int| 0 <= i < init.len() implies (#[trigger] init[i]).0 != k by {
                assert(init[i] == updates[i]);
            }
            assert(updates[n].0 != k);
            assert(before.contains_key(k) == m.contains_key(k));
        }
        assert forall|i: int|
            0 <= i < updates.len() && m.contains_key(#[trigger] updates[i].0) && (forall|j: int|
                0 <= j < updates.len() && j != i ==> updates[j].0 != updates[i].0) implies match updates[i].1 {
                Some(d) => reconciled(m, updates).contains_key(updates[i].0) && reconciled(
                    m,
                    updates,
                )[updates[i].0] == d,
                None => !reconciled(m, updates).contains_key(updates[i].0),
            } by {
            let k = updates[i].0;
            if i == n {
                assert forall|j: int| 0 <= j < init.len() implies (#[trigger] init[j]).0 != k by {
                    assert(init[j] == updates[j]);
                }
                assert(before.contains_key(k) == m.contains_key(k));
            } else {
                assert(init[i] == updates[i]);
                assert forall|j: int| 0 <= j < init.len() && j != i implies init[j].0 != init[i].0 by {
                    assert(init[j] == updates[j]);
                }
                assert(updates[n].0 != k);
                assert(m.contains_key(init[i].0));
                assert(match init[i].1 {
                    Some(d) => before.contains_key(k) && before[k] == d,
                    None => !before.contains_key(k),
                });
            }
        }
    }
}

/// The known paths only grow under populate, and every hashed path is known after it.
pub proof fn lemma_populated_keys(m: Map<Seq<u8>, Seq<u8>>, results: Seq<(Seq<u8>, Seq<u8>)>)
    ensures
        forall|k: Seq<u8>| #[trigger] m.contains_key(k) ==> populated(m, results).contains_key(k),
        forall|j: int| 0 <= j < results.len() ==> populated(m, results).contains_key(#[trigger] results[j].0),
    decreases results.len(),
{
    if results.len() > 0 {
        let init = results.drop_last();
        lemma_populated_keys(m, init);
        assert forall|j: int| 0 <= j < results.len() implies populated(m, results).contains_key(
            #[trigger] results[j].0,
        ) by {
            if j < init.len() {
                assert(init[j] == results[j]);
            }
        }
    }
}

/// Populating twice over an unchanged tree adds nothing the second time:
/// once the paths the first pass selected are hashed, none of the same
/// discovered paths is selected again.
pub proof fn lemma_populate_idempotent(
    m: Map<Seq<u8>, Seq<u8>>,
    root: Seq<u8>,
    signature_file: Seq<u8>,
    paths: Seq<Seq<u8>>,
    results: Seq<(Seq<u8>, Seq<u8>)>,
)
    requires
        forall|i: int|
            0 <= i < paths.len() ==> (selection_of(m, root, signature_file, #[trigger] paths[i]) matches Selection::Hash(
                rel,
            ) ==> exists|j: int| 0 <= j < results.len() && (#[trigger] results[j]).0 == rel),
    ensures
        forall|i: int|
            0 <= i < paths.len() ==> !(selection_of(
                populated(m, results),
                root,
                signature_file,
                #[trigger] paths[i],
            ) is Hash),
{
    lemma_populated_keys(m, results);
    assert forall|i: int| 0 <= i < paths.len() implies !(selection_of(
        populated(m, results),
        root,
        signature_file,
        #[trigger] paths[i],
    ) is Hash) by {
        let p = paths[i];
        if p != signature_file && p != root {
            if let Some(rel) = relative_path_of(p, root) {
                if !m.contains_key(rel) {
                    assert(selection_of(m, root, signature_file, p) == Selection::Hash(rel));
                    let j = choose|j: int| 0 <= j < results.len() && (#[trigger] results[j]).0 == rel;
                    assert(populated(m, results).contains_key(results[j].0));
                } else {
                    assert(populated(m, results).contains_key(rel));
                }
            }
        }
    }
}

/// Neither the manifest file nor the root becomes an entry through
/// populate, and a verification pass reports neither as unknown.
pub proof fn lemma_manifest_excluded(
    m: Map<Seq<u8>, Seq<u8>>,
    root: Seq<u8>,
    signature_file: Seq<u8>,
    old_report: Seq<(Seq<u8>, u64, EntryStatus)>,
    live_paths: Seq<Seq<u8>>,
)
    ensures
        selection_of(m, root, signature_file, signature_file) is Skip,
        selection_of(m, root, signature_file, root) is Skip,
        !crate::report::is_unknown_path(old_report, live_paths, signature_file, root, signature_file),
        !crate::report::is_unknown_path(old_report, live_paths, signature_file, root, root),
{
}

/// A catalog: the entries of one directory tree, keyed by relative path,
/// with the algorithm and manifest location they belong to.
pub struct Catalog {
    directory: Directory,
    entries: Vec<(Vec<u8>, Vec<u8>)>,
    metadata: CatalogMetadata,
}

impl View for Catalog {
    type V = Map<Seq<u8>, Seq<u8>>;

    closed spec fn view(&self) -> Map<Seq<u8>, Seq<u8>> {
        pairs_map(view_pairs(self.entries@))
    }
}

impl Catalog {
    /// The entries in path order.
    pub closed spec fn pairs(&self) -> Seq<(Seq<u8>, Seq<u8>)> {
        view_pairs(self.entries@)
    }

    /// Entries are kept sorted by path, with no path twice.
    pub closed spec fn wf(&self) -> bool {
        sorted_keys(view_pairs(self.entries@))
    }

    pub closed spec fn root(&self) -> Seq<u8> {
        self.directory@.0
    }

    pub closed spec fn signature_file(&self) -> Seq<u8> {
        self.metadata@.1
    }

    pub closed spec fn algo(&self) -> Algorithm {
        self.metadata@.0
    }

    /// The map of a catalog is that of its entries in path order.
    pub proof fn lemma_pairs(&self)
        requires
            self.wf(),
        ensures
            sorted_keys(self.pairs()),
            self@ == pairs_map(self.pairs()),
    {
    }

    /// What `write_signature_file` produces, `Directory::load` reads back
    /// as the same map from path to digest, for a catalog whose paths hold
    /// no newline and do not end in a carriage return.
    pub proof fn lemma_write_then_load(&self)
        requires
            self.wf(),
            keys_line_safe(self.pairs()),
        ensures
            manifest_outcome(render(self.pairs())) == Ok::<_, ManifestFault>(self@),
    {
        lemma_round_trip(self.pairs());
    }

    /// The number of entries.
    pub fn len(&self) -> (r: usize)
        requires
            self.wf(),
        ensures
            r == self.pairs().len(),
            r == self@.len(),
    {
        proof {
            let s = view_pairs(self.entries@);
            let keys = s.map_values(|e: (Seq<u8>, Seq<u8>)| e.0);
            assert(keys.no_duplicates()) by {
                assert forall|i: int, j: int| 0 <= i < keys.len() && 0 <= j < keys.len() && i != j
                    implies keys[i] != keys[j] by {
                    assert(keys[i] == s[i].0 && keys[j] == s[j].0);
                    if keys[i] == keys[j] {
                        crate::sorted::lemma_sorted_unique(s, i, j);
                    }
                }
            }
            keys.unique_seq_to_set();
            assert forall|k: Seq<u8>| #[trigger] pairs_map(s).dom().contains(k) <==> keys.to_set().contains(k) by {
                if has_key(s, k) {
                    let i = choose|i: int| 0 <= i < s.len() && (#[trigger] s[i]).0 == k;
                    assert(keys[i] == k);
                }
                if keys.to_set().contains(k) {
                    let i = choose|i: int| 0 <= i < keys.len() && keys[i] == k;
                    assert(s[i].0 == k);
                }
            }
            assert(pairs_map(s).dom() =~= keys.to_set());
        }
        self.entries.len()
    }

    pub fn metadata(&self) -> (r: &CatalogMetadata)
        ensures
            r@ == (self.algo(), self.signature_file()),
    {
        &self.metadata
    }

    pub fn directory(&self) -> (r: &Directory)
        ensures
            r@.0 == self.root(),
    {
        &self.directory
    }

    /// Sets the digest of a relative path, adding the entry if it is new.
    pub fn update_entry(&mut self, relative_path: &[u8], hash: Vec<u8>)
        requires
            old(self).wf(),
        ensures
            final(self).wf(),
            final(self)@ == old(self)@.insert(relative_path@, hash@),
            final(self).root() == old(self).root(),
            final(self).signature_file() == old(self).signature_file(),
            final(self).algo() == old(self).algo(),
    {
        upsert(&mut self.entries, copy_bytes(relative_path), hash);
    }

    /// Drops the entry of a relative path, if there is one.
    pub fn remove_entry(&mut self, relative_path: &[u8])
        requires
            old(self).wf(),
        ensures
            final(self).wf(),
            final(self)@ == old(self)@.remove(relative_path@),
            final(self).root() == old(self).root(),
            final(self).signature_file() == old(self).signature_file(),
            final(self).algo() == old(self).algo(),
    {
        remove_key(&mut self.entries, relative_path);
    }

    /// The path of a file relative to the root, as entries are keyed.
    pub fn relative_path(&self, path: &[u8]) -> (r: Result<Vec<u8>, Error>)
        ensures
            match r {
                Ok(v) => relative_path_of(path@, self.root()) == Some(v@),
                Err(e) => relative_path_of(path@, self.root()) is None && (e matches Error::NotRelative {
                    path: p,
                } && p@ == path@),
            },
    {
        match diff_paths(path, self.directory.path.as_slice()) {
            Some(v) => Ok(v),
            None => Err(Error::NotRelative { path: copy_bytes(path) }),
        }
    }

    /// Decides on one path found by the directory walk: the manifest, the
    /// root itself and paths already known are skipped, a new path is returned relative to
    /// the root for hashing.
    pub fn select_for_hashing(&self, path: &[u8]) -> (r: Result<Option<Vec<u8>>, Error>)
        requires
            self.wf(),
        ensures
            match r {
                Ok(None) => selection_of(self@, self.root(), self.signature_file(), path@) is Skip,
                Ok(Some(rel)) => selection_of(self@, self.root(), self.signature_file(), path@)
                    == Selection::Hash(rel@),
                Err(e) => selection_of(self@, self.root(), self.signature_file(), path@) is NotRelative
                    && (e matches Error::NotRelative { path: p } && p@ == path@),
            },
    {
        if bytes_equal(path, self.metadata.signature_file_path.as_slice()) || bytes_equal(
            path,
            self.directory.path.as_slice(),
        ) {
            return Ok(None);
        }
        let rel = self.relative_path(path)?;
        if crate::sorted::contains_key(&self.entries, rel.as_slice()) {
            Ok(None)
        } else {
            Ok(Some(rel))
        }
    }

    /// A copy of the catalog, for deciding on paths while the catalog itself
    /// waits for the results of a pass.
    pub fn snapshot(&self) -> (r: Catalog)
        requires
            self.wf(),
        ensures
            r.wf(),
            r@ == self@,
            r.pairs() == self.pairs(),
            r.root() == self.root(),
            r.signature_file() == self.signature_file(),
            r.algo() == self.algo(),
    {
        let mut entries: Vec<(Vec<u8>, Vec<u8>)> = Vec::new();
        let mut i: usize = 0;
        while i < self.entries.len()
            invariant
                i <= self.entries@.len(),
                view_pairs(entries@) == view_pairs(self.entries@).subrange(0, i as int),
            decreases self.entries@.len() - i,
        {
            let k = copy_bytes(self.entries[i].0.as_slice());
            let d = copy_bytes(self.entries[i].1.as_slice());
            let ghost before = entries@;
            let ghost kv = k@;
            let ghost dv = d@;
            entries.push((k, d));
            proof {
                assert(view_pairs(self.entries@)[i as int] == (kv, dv));
                assert(view_pairs(entries@) =~= view_pairs(before).push((kv, dv)));
                assert(view_pairs(entries@) =~= view_pairs(self.entries@).subrange(0, i + 1));
            }
            i = i + 1;
        }
        proof {
            assert(view_pairs(self.entries@).subrange(0, i as int) =~= view_pairs(self.entries@));
        }
        let directory = Directory {
            path: copy_bytes(self.directory.path.as_slice()),
            catalog_path: match &self.directory.catalog_path {
                Some(f) => Some(copy_bytes(f.as_slice())),
                None => None,
            },
        };
        let metadata = CatalogMetadata {
            algo: self.metadata.algo,
            signature_file_path: copy_bytes(self.metadata.signature_file_path.as_slice()),
        };
        Catalog { directory, entries, metadata }
    }

    /// Whether the catalog lists a relative path.
    pub fn contains(&self, relative_path: &[u8]) -> (r: bool)
        requires
            self.wf(),
        ensures
            r == self@.contains_key(relative_path@),
    {
        crate::sorted::contains_key(&self.entries, relative_path)
    }

    /// Applies the refreshes of a reconciliation, in order: a listed path
    /// takes its new digest, or leaves where its file is gone; a path the
    /// catalog does not list is not added.
    pub fn reconcile(&mut self, updates: Vec<(Vec<u8>, Option<Vec<u8>>)>)
        requires
            old(self).wf(),
        ensures
            final(self).wf(),
            final(self)@ == reconciled(old(self)@, view_updates(updates@)),
            final(self).root() == old(self).root(),
            final(self).signature_file() == old(self).signature_file(),
            final(self).algo() == old(self).algo(),
    {
        let ghost u = view_updates(updates@);
        let ghost m0 = self@;
        let mut i: usize = 0;
        proof {
            assert(u.subrange(0, 0) =~= Seq::<(Seq<u8>, Option<Seq<u8>>)>::empty());
        }
        while i < updates.len()
            invariant
                u == view_updates(updates@),
                i <= updates@.len(),
                self.wf(),
                self@ == reconciled(m0, u.subrange(0, i as int)),
                self.root() == old(self).root(),
                self.signature_file() == old(self).signature_file(),
                self.algo() == old(self).algo(),
            decreases updates@.len() - i,
        {
            proof {
                assert(u.subrange(0, i + 1).drop_last() =~= u.subrange(0, i as int));
                assert(u.subrange(0, i + 1).last() == u[i as int]);
            }
            let p = updates[i].0.as_slice();
            if self.contains(p) {
                match &updates[i].1 {
                    Some(d) => {
                        self.update_entry(p, copy_bytes(d.as_slice()));
                    },
                    None => {
                        self.remove_entry(p);
                    },
                }
            }
            i = i + 1;
        }
        proof {
            assert(u.subrange(0, i as int) =~= u);
        }
    }

    /// Adds the entries that a hashing pass produced; a path already present
    /// keeps the digest it had.
    pub fn populate(&mut self, results: Vec<(Vec<u8>, Vec<u8>)>)
        requires
            old(self).wf(),
        ensures
            final(self).wf(),
            final(self)@ == populated(old(self)@, view_pairs(results@)),
            final(self).root() == old(self).root(),
            final(self).signature_file() == old(self).signature_file(),
            final(self).algo() == old(self).algo(),
    {
        let ghost r = view_pairs(results@);
        let ghost m0 = self@;
        let mut i: usize = 0;
        proof {
            assert(r.subrange(0, 0) =~= Seq::<(Seq<u8>, Seq<u8>)>::empty());
        }
        while i < results.len()
            invariant
                r == view_pairs(results@),
                i <= results@.len(),
                sorted_keys(view_pairs(self.entries@)),
                self@ == populated(m0, r.subrange(0, i as int)),
                self.directory@ == old(self).directory@,
                self.metadata@ == old(self).metadata@,
            decreases results@.len() - i,
        {
            let k = copy_bytes(results[i].0.as_slice());
            let d = copy_bytes(results[i].1.as_slice());
            proof {
                assert(r.subrange(0, i + 1).drop_last() =~= r.subrange(0, i as int));
                assert(r.subrange(0, i + 1).last() == r[i as int]);
            }
            insert_new(&mut self.entries, k, d);
            i = i + 1;
        }
        proof {
            assert(r.subrange(0, i as int) =~= r);
        }
    }

    /// The manifest text of the catalog, entries in path order; it fails if
    /// the target exists and overwriting was not allowed.
    pub fn write_signature_file(&self, allow_existing: bool, target_exists: bool) -> (r: Result<
        Vec<u8>,
        Error,
    >)
        requires
            self.wf(),
        ensures
            match r {
                Ok(text) => (allow_existing || !target_exists) && text@ == render(self.pairs()),
                Err(e) => !allow_existing && target_exists && (e matches Error::AlreadyExists {
                    path,
                } && path@ == self.signature_file()),
            },
    {
        if target_exists && !allow_existing {
            return Err(
                Error::AlreadyExists { path: copy_bytes(self.metadata.signature_file_path.as_slice()) },
            );
        }
        Ok(render_manifest(&self.entries))
    }

    /// The entries with absolute paths, in path order, for verification.
    pub fn entries(&self) -> (r: Vec<Entry>)
        requires
            self.wf(),
        ensures
            r@.len() == self.pairs().len(),
            forall|i: int|
                0 <= i < r@.len() ==> (#[trigger] r@[i])@ == (
                    join_of(self.root(), self.pairs()[i].0),
                    self.pairs()[i].1,
                ),
    {
        let mut out: Vec<Entry> = Vec::new();
        let mut i: usize = 0;
        while i < self.entries.len()
            invariant
                i <= self.entries@.len(),
                out@.len() == i,
                forall|j: int|
                    0 <= j < i ==> (#[trigger] out@[j])@ == (
                        join_of(self.root(), view_pairs(self.entries@)[j].0),
                        view_pairs(self.entries@)[j].1,
                    ),
            decreases self.entries@.len() - i,
        {
            let path = join(self.directory.path.as_slice(), self.entries[i].0.as_slice());
            let hash = copy_bytes(self.entries[i].1.as_slice());
            out.push(Entry { hash, path });
            i = i + 1;
        }
        out
    }
}

/// How reading one file through its hasher ended.
pub enum HashOutcome {
    /// The whole file was read: its size and digest.
    Hashed { size: u64, digest: Vec<u8> },
    /// There is no file at the path.
    NotFound,
    /// The file could not be opened or read for another reason.
    Failed,
}

/// A catalog entry with its absolute path, to be checked against the file.
pub struct Entry {
    hash: Vec<u8>,
    path: Vec<u8>,
}

impl View for Entry {
    type V = (Seq<u8>, Seq<u8>);

    closed spec fn view(&self) -> (Seq<u8>, Seq<u8>) {
        (self.path@, self.hash@)
    }
}

impl Entry {
    pub fn path(&self) -> (r: &[u8])
        ensures
            r@ == self@.0,
    {
        self.path.as_slice()
    }

    pub fn digest(&self) -> (r: &[u8])
        ensures
            r@ == self@.1,
    {
        self.hash.as_slice()
    }

    /// Classifies the entry by how hashing its file ended: a missing file is
    /// `Missing`, another read failure is an error, and a digest is `Intact`
    /// or a `VerificationError` as it equals the stored one or not.
    pub fn verify(&self, outcome: HashOutcome) -> (r: Result<ReportEntry, Error>)
        ensures
            match outcome {
                HashOutcome::NotFound => r matches Ok(e) && e@ == (self@.0, 0u64, EntryStatus::Missing),
                HashOutcome::Failed => r matches Err(e) && e matches Error::IOError { path } && path@
                    == self@.0,
                HashOutcome::Hashed { size, digest } => r matches Ok(e) && e@ == (
                    self@.0,
                    size,
                    if digest@ == self@.1 {
                        EntryStatus::Intact
                    } else {
                        EntryStatus::VerificationError
                    },
                ),
            },
    {
        match outcome {
            HashOutcome::NotFound => Ok(ReportEntry::new(copy_bytes(self.path.as_slice()), 0, EntryStatus::Missing)),
            HashOutcome::Failed => Err(Error::IOError { path: copy_bytes(self.path.as_slice()) }),
            HashOutcome::Hashed { size, digest } => {
                let status = if bytes_equal(digest.as_slice(), self.hash.as_slice()) {
                    EntryStatus::Intact
                } else {
                    EntryStatus::VerificationError
                };
                Ok(ReportEntry::new(copy_bytes(self.path.as_slice()), size, status))
            },
        }
    }
}

} // verus!
