use ratify::algo::Algorithm;
use ratify::catalog::{Catalog, Directory, HashOutcome};
use ratify::errors::{Error, ParseReason};
use ratify::hashing::FileHasher;
use ratify::manifest::{parse_manifest, render_manifest};
use ratify::pipeline::{throughput, ResultCount};
use ratify::reconcile::{Reconciler, UpdateAction};
use ratify::report::{EntryStatus, ReportEntry, Tally, VerificationReport};

fn hex(b: &[u8]) -> String {
    b.iter().map(|x| format!("{:02x}", x)).collect()
}

fn sample_catalog() -> Catalog {
    let dir = Directory::new(b"/data".to_vec());
    let text = b"0a *a.txt\n0b *b.txt\n0c *sub/c.txt\n";
    dir.load(Algorithm::Sha256, b"/data/data.sha256".to_vec(), text).unwrap()
}

#[test]
fn duplicate_path_rejected() {
    let dir = Directory::new(b"/data".to_vec());
    let r = dir.load(Algorithm::Sha256, b"/data/data.sha256".to_vec(), b"00 *a/b\n01 *a/b\n");
    assert_eq!(r.err(), Some(Error::DuplicateEntry { path: b"a/b".to_vec() }));
}

#[test]
fn malformed_lines_give_their_number() {
    assert_eq!(
        parse_manifest(b"0a *x\nnoseparator\n").err(),
        Some(Error::ParseError { line: 2, reason: ParseReason::MissingSeparator })
    );
    assert_eq!(
        parse_manifest(b"zz *x\n").err(),
        Some(Error::ParseError { line: 1, reason: ParseReason::InvalidHex })
    );
    assert_eq!(
        parse_manifest(b"abc *x\n").err(),
        Some(Error::ParseError { line: 1, reason: ParseReason::InvalidHex })
    );
}

#[test]
fn manifest_lines_accept_crlf_and_a_last_line_without_newline() {
    let v = parse_manifest(b"0A *b\r\n01 *a").unwrap();
    assert_eq!(v, vec![(b"a".to_vec(), vec![1u8]), (b"b".to_vec(), vec![10u8])]);
    assert_eq!(parse_manifest(b"").unwrap(), vec![]);
}

#[test]
fn separator_is_the_first_space_star() {
    let v = parse_manifest(b"ff *a *b\n").unwrap();
    assert_eq!(v, vec![(b"a *b".to_vec(), vec![255u8])]);
}

#[test]
fn written_manifest_is_sorted_and_reloads() {
    let mut c = Directory::new(b"/data".to_vec()).empty_catalog(Algorithm::Md5);
    c.update_entry(b"z/last", vec![0xde, 0xad]);
    c.update_entry(b"a", vec![0x01]);
    c.update_entry(b"m id", vec![]);
    assert_eq!(c.len(), 3);
    let text = c.write_signature_file(false, false).unwrap();
    assert_eq!(text, b"01 *a\n *m id\ndead *z/last\n".to_vec());
    let back = Directory::new(b"/data".to_vec())
        .load(Algorithm::Md5, b"/data/data.md5".to_vec(), &text)
        .unwrap();
    assert_eq!(back.write_signature_file(true, true).unwrap(), text);
    assert_eq!(back.len(), 3);
}

#[test]
fn render_of_parsed_entries_round_trips() {
    let v = parse_manifest(b"0102 *x/y\n").unwrap();
    assert_eq!(render_manifest(&v), b"0102 *x/y\n".to_vec());
}

#[test]
fn existing_manifest_is_not_overwritten_unless_allowed() {
    let c = sample_catalog();
    assert_eq!(
        c.write_signature_file(false, true).err(),
        Some(Error::AlreadyExists { path: b"/data/data.sha256".to_vec() })
    );
    assert!(c.write_signature_file(true, true).is_ok());
    assert!(c.write_signature_file(false, false).is_ok());
}

#[test]
fn update_and_remove_entries() {
    let mut c = sample_catalog();
    c.update_entry(b"b.txt", vec![0xff]);
    c.remove_entry(b"a.txt");
    c.remove_entry(b"not-there");
    assert_eq!(c.write_signature_file(true, true).unwrap(), b"ff *b.txt\n0c *sub/c.txt\n".to_vec());
}

fn classify(c: &Catalog) -> VerificationReport {
    let mut out = Vec::new();
    for e in c.entries() {
        let outcome = match e.path() {
            b"/data/a.txt" => HashOutcome::Hashed { size: 5, digest: vec![0x0a] },
            b"/data/b.txt" => HashOutcome::Hashed { size: 7, digest: vec![0xee] },
            _ => HashOutcome::NotFound,
        };
        out.push(e.verify(outcome).unwrap());
    }
    let mut report = VerificationReport::from_entries(out);
    let live = vec![
        b"/data/a.txt".to_vec(),
        b"/data/b.txt".to_vec(),
        b"/data/new.txt".to_vec(),
        b"/data/data.sha256".to_vec(),
        b"/data".to_vec(),
        b"/data/new.txt".to_vec(),
    ];
    report.update_unknown(live, b"/data/data.sha256", b"/data");
    report
}

#[test]
fn classification_is_complete() {
    let c = sample_catalog();
    let report = classify(&c);
    let statuses: Vec<(Vec<u8>, EntryStatus)> =
        report.entries().iter().map(|e| (e.path().to_vec(), *e.status())).collect();
    assert_eq!(
        statuses,
        vec![
            (b"/data/a.txt".to_vec(), EntryStatus::Intact),
            (b"/data/b.txt".to_vec(), EntryStatus::VerificationError),
            (b"/data/new.txt".to_vec(), EntryStatus::Unknown),
            (b"/data/sub/c.txt".to_vec(), EntryStatus::Missing),
        ]
    );
    assert_eq!(report.tally(), Tally { ok: 1, failed: 1, missing: 1, unknown: 1 });
    assert_eq!(report.total_size(), 12);
    assert_eq!(report.result(), Err(Error::VerificationFailed));
}

#[test]
fn manifest_never_appears_as_entry_or_unknown() {
    let c = sample_catalog();
    assert_eq!(c.select_for_hashing(b"/data/data.sha256"), Ok(None));
    assert_eq!(c.select_for_hashing(b"/data"), Ok(None));
    let report = classify(&c);
    assert!(report.entries().iter().all(|e| e.path() != b"/data/data.sha256" && e.path() != b"/data"));
}

#[test]
fn report_outcome_ranks_mismatch_missing_unknown() {
    let missing = VerificationReport::from_entries(vec![
        ReportEntry::new(b"/a".to_vec(), 0, EntryStatus::Unknown),
        ReportEntry::new(b"/b".to_vec(), 0, EntryStatus::Missing),
    ]);
    assert_eq!(missing.result(), Err(Error::EntriesMissing));
    let unknown = VerificationReport::from_entries(vec![
        ReportEntry::new(b"/a".to_vec(), 3, EntryStatus::Intact),
        ReportEntry::new(b"/b".to_vec(), 0, EntryStatus::Unknown),
    ]);
    assert_eq!(unknown.result(), Err(Error::UnknownEntriesPresent));
    let fine = VerificationReport::from_entries(vec![ReportEntry::new(b"/a".to_vec(), 3, EntryStatus::Intact)]);
    assert_eq!(fine.result(), Ok(()));
    assert_eq!(VerificationReport::from_entries(vec![]).result(), Ok(()));
}

#[test]
fn report_lists_entries_in_path_order() {
    let report = VerificationReport::from_entries(vec![
        ReportEntry::new(b"/d/b".to_vec(), 1, EntryStatus::Intact),
        ReportEntry::new(b"/d/a/z".to_vec(), 2, EntryStatus::Missing),
        ReportEntry::new(b"/d/a".to_vec(), 4, EntryStatus::Intact),
    ]);
    let paths: Vec<Vec<u8>> = report.entries().iter().map(|e| e.path().to_vec()).collect();
    assert_eq!(paths, vec![b"/d/a".to_vec(), b"/d/a/z".to_vec(), b"/d/b".to_vec()]);
    assert_eq!(report.total_size(), 7);
    assert_eq!(report.len(), 3);
}

#[test]
fn read_failure_other_than_absence_is_an_error() {
    let c = sample_catalog();
    let e = &c.entries()[0];
    assert_eq!(e.verify(HashOutcome::Failed).err(), Some(Error::IOError { path: b"/data/a.txt".to_vec() }));
}

#[test]
fn reconciliation_under_update_all() {
    let mut c = sample_catalog();
    let report = classify(&c);
    let mut r = Reconciler::new(&report);
    let first = r.next_prompt(&report);
    assert_eq!(first, Some(1));
    r.decide(&report, UpdateAction::UpdateAll);
    assert_eq!(r.next_prompt(&report), None);
    let paths = r.updates(&report);
    assert_eq!(
        paths,
        vec![b"/data/b.txt".to_vec(), b"/data/new.txt".to_vec(), b"/data/sub/c.txt".to_vec()]
    );
    let mut refresh = Vec::new();
    for p in &paths {
        let rel = c.relative_path(p).unwrap();
        let digest = if p.as_slice() == b"/data/sub/c.txt" { None } else { Some(vec![0xee]) };
        refresh.push((rel, digest));
    }
    c.reconcile(refresh);
    assert_eq!(c.write_signature_file(true, true).unwrap(), b"0a *a.txt\nee *b.txt\n".to_vec());
}

#[test]
fn auto_confirm_marks_every_discrepancy() {
    let c = sample_catalog();
    let report = classify(&c);
    let r = Reconciler::confirm_all(&report);
    assert_eq!(r.updates(&report).len(), 3);
}

#[test]
fn directory_choice_applies_to_earlier_entries_too() {
    let report = VerificationReport::from_entries(vec![
        ReportEntry::new(b"/d/x/1".to_vec(), 0, EntryStatus::Missing),
        ReportEntry::new(b"/d/y/2".to_vec(), 0, EntryStatus::Missing),
        ReportEntry::new(b"/d/x/3".to_vec(), 0, EntryStatus::VerificationError),
        ReportEntry::new(b"/d/x/4".to_vec(), 0, EntryStatus::Unknown),
    ]);
    let mut r = Reconciler::new(&report);
    assert_eq!(r.next_prompt(&report), Some(0));
    r.decide(&report, UpdateAction::Skip);
    assert_eq!(r.next_prompt(&report), Some(1));
    r.decide(&report, UpdateAction::UpdateSubdirectory);
    assert_eq!(r.next_prompt(&report), Some(3));
    r.decide(&report, UpdateAction::Skip);
    assert_eq!(r.next_prompt(&report), None);
    assert_eq!(
        r.updates(&report),
        vec![b"/d/x/1".to_vec(), b"/d/x/3".to_vec(), b"/d/x/4".to_vec()]
    );
}

#[test]
fn updates_list_each_path_once() {
    let report = VerificationReport::from_entries(vec![
        ReportEntry::new(b"/d/a".to_vec(), 0, EntryStatus::Missing),
        ReportEntry::new(b"/d/a".to_vec(), 0, EntryStatus::VerificationError),
        ReportEntry::new(b"/d/b".to_vec(), 0, EntryStatus::Intact),
    ]);
    let r = Reconciler::confirm_all(&report);
    assert_eq!(r.updates(&report), vec![b"/d/a".to_vec()]);
}

#[test]
fn unknown_entries_join_in_path_order() {
    let mut report = VerificationReport::from_entries(vec![
        ReportEntry::new(b"/d/m".to_vec(), 3, EntryStatus::Intact),
    ]);
    report.update_unknown(vec![b"/d/z".to_vec(), b"/d/a".to_vec(), b"/d/m".to_vec()], b"/d/d.md5", b"/d");
    let paths: Vec<Vec<u8>> = report.entries().iter().map(|e| e.path().to_vec()).collect();
    assert_eq!(paths, vec![b"/d/a".to_vec(), b"/d/m".to_vec(), b"/d/z".to_vec()]);
    assert_eq!(report.total_size(), 3);
}

#[test]
fn populate_twice_adds_nothing_new() {
    let mut c = Directory::new(b"/data".to_vec()).empty_catalog(Algorithm::Blake3);
    let walk = vec![b"/data/a".to_vec(), b"/data/data.blake3".to_vec(), b"/data/s/b".to_vec()];
    let mut hashed = Vec::new();
    for p in &walk {
        if let Some(rel) = c.select_for_hashing(p).unwrap() {
            hashed.push((rel, vec![1u8]));
        }
    }
    assert_eq!(hashed.len(), 2);
    c.populate(hashed);
    assert_eq!(c.len(), 2);
    for p in &walk {
        assert_eq!(c.select_for_hashing(p).unwrap(), None);
    }
    c.populate(vec![(b"a".to_vec(), vec![9u8]), (b"new".to_vec(), vec![2u8])]);
    assert_eq!(c.write_signature_file(true, true).unwrap(), b"01 *a\n02 *new\n01 *s/b\n".to_vec());
}

#[test]
fn digests_of_abc() {
    let cases = [
        (Algorithm::Blake3, "6437b3ac38465133ffb63b75273a8db548c558465d79db03fd359c6cd5bd9d85"),
        (Algorithm::Md5, "900150983cd24fb0d6963f7d28e17f72"),
        (Algorithm::Sha1, "a9993e364706816aba3e25717850c26c9cd0d89d"),
        (Algorithm::Sha256, "ba7816bf8f01cfea414140de5dae2223b00361a396177a9cb410ff61f20015ad"),
        (
            Algorithm::Sha512,
            "ddaf35a193617abacc417349ae20413112e6fa4e89a97ea20a9eeee64b55d39a2192992a274fc1a836ba3c23a3feebbd454d4423643ce80e2a9ac94fa54ca49f",
        ),
    ];
    for (algo, expected) in cases {
        assert_eq!(hex(&algo.hash_bytes(b"abc")), expected);
        assert_eq!(algo.hash_bytes(b"").len(), expected.len() / 2);
    }
}

#[test]
fn streaming_matches_one_shot() {
    for algo in Algorithm::all() {
        let mut h = FileHasher::new(algo);
        h.update(b"hello ");
        h.update(b"");
        h.update(b"world");
        assert_eq!(h.size(), 11);
        let (size, digest) = h.finalize();
        assert_eq!(size, 11);
        assert_eq!(digest, algo.hash_bytes(b"hello world"));
    }
}

#[test]
fn algorithm_from_manifest_extension() {
    assert_eq!(Algorithm::try_deduce_from_file(b"/x/cat.SHA256"), Some(Algorithm::Sha256));
    assert_eq!(Algorithm::try_deduce_from_file(b"rel/cat.blake3"), Some(Algorithm::Blake3));
    assert_eq!(Algorithm::try_deduce_from_file(b"/x/cat.txt"), None);
    assert_eq!(Algorithm::try_deduce_from_file(b"/"), None);
    assert_eq!(Algorithm::try_deduce_from_file(b"md5"), None);
    assert_eq!(Algorithm::try_deduce_from_file(b"/x/sha1"), None);
    assert_eq!(Algorithm::try_deduce_from_file(b"/x/.md5"), Some(Algorithm::Md5));
}

#[test]
fn algorithm_from_default_manifest_present() {
    let names = vec![b"other".to_vec(), b"data.sha1".to_vec(), b"data.md5".to_vec()];
    assert_eq!(Algorithm::try_deduce_from_path(b"/srv/data", &names), Some(Algorithm::Md5));
    assert_eq!(Algorithm::try_deduce_from_path(b"/srv/data", &vec![]), None);
    assert_eq!(Algorithm::try_deduce_from_path(b"/", &names), None);
}

#[test]
fn default_and_named_manifest_locations() {
    let d = Directory::new(b"/srv/data".to_vec());
    assert_eq!(d.signature_file_path(Algorithm::Sha512), b"/srv/data/data.sha512".to_vec());
    assert_eq!(Directory::new(b"/".to_vec()).signature_file_path(Algorithm::Md5), b"/signatures.md5".to_vec());
    let named = Directory::with_catalog_file(b"/srv/data".to_vec(), b"sums.md5");
    assert_eq!(named.resolve_manifest(None, &vec![]), Ok((Algorithm::Md5, b"/srv/data/sums.md5".to_vec())));
    let abs = Directory::with_catalog_file(b"/srv/data".to_vec(), b"/tmp/sums.txt");
    assert_eq!(abs.resolve_manifest(None, &vec![]), Err(Error::AmbiguousAlgorithm));
    assert_eq!(
        abs.resolve_manifest(Some(Algorithm::Sha1), &vec![]),
        Ok((Algorithm::Sha1, b"/tmp/sums.txt".to_vec()))
    );
    assert_eq!(d.resolve_manifest(None, &vec![]), Err(Error::AmbiguousOrMissingManifest));
    assert_eq!(
        d.resolve_manifest(None, &vec![b"data.sha256".to_vec()]),
        Ok((Algorithm::Sha256, b"/srv/data/data.sha256".to_vec()))
    );
}

#[test]
fn status_names() {
    assert_eq!(EntryStatus::Intact.short_name(), "OK");
    assert_eq!(EntryStatus::VerificationError.short_name(), "FAIL");
    assert_eq!(EntryStatus::Missing.tag(), Some("missing"));
    assert_eq!(EntryStatus::Intact.tag(), None);
    assert_eq!(Algorithm::Sha256.name(), b"sha256".to_vec());
}

#[test]
fn result_count_follows_the_announced_total() {
    let mut c = ResultCount::new();
    assert!(!c.finished());
    c.record_item();
    assert!(c.learn_total(2));
    assert!(!c.learn_total(5));
    assert_eq!(c.total(), Some(2));
    assert!(!c.finished());
    c.record_item();
    assert!(c.finished());
    assert_eq!(c.received(), 2);
}

#[test]
fn throughput_per_whole_second() {
    assert_eq!(throughput(100, 700, 3), 200);
    assert_eq!(throughput(100, 700, 0), 0);
    assert_eq!(throughput(5, 5, 2), 0);
}

#[test]
fn snapshot_and_membership() {
    let c = sample_catalog();
    let s = c.snapshot();
    assert!(s.contains(b"sub/c.txt"));
    assert!(!s.contains(b"sub"));
    assert_eq!(s.len(), c.len());
    assert_eq!(s.metadata().signature_file_path(), b"/data/data.sha256");
    assert_eq!(s.metadata().algo(), Algorithm::Sha256);
    assert_eq!(s.directory().path(), b"/data");
}

#[test]
fn named_manifest_becomes_the_catalog_target() {
    let d = Directory::with_catalog_file(b"/srv/data".to_vec(), b"../sums.md5");
    let c = d.empty_catalog(Algorithm::Md5);
    assert_eq!(c.metadata().signature_file_path(), b"/srv/data/../sums.md5");
    assert_eq!(c.len(), 0);
    assert_eq!(c.write_signature_file(false, false).unwrap(), Vec::<u8>::new());
}

#[test]
fn error_messages() {
    assert_eq!(Error::VerificationFailed.message(), "Failed entries found");
    assert_eq!(Error::EntriesMissing.message(), "Missing entries found");
    assert_eq!(Error::UnknownEntriesPresent.message(), "Unknown entries found");
}
