use rit::classify::{
    classify_backend, classify_fallback, map_flags, status_entries, ChangeKind, RawStatus,
    WorkingTreeEntry, DISPLAY_CAP,
};
use rit::report::{group, split_path};
use rit::rules::RuleSet;

fn b(s: &str) -> Vec<u8> {
    s.as_bytes().to_vec()
}

fn raw(path: &str, n: bool, m: bool, d: bool, rn: bool) -> RawStatus {
    RawStatus { path: b(path), wt_new: n, wt_modified: m, wt_deleted: d, wt_renamed: rn }
}

fn as_pairs(entries: &[WorkingTreeEntry]) -> Vec<(Vec<u8>, ChangeKind)> {
    entries.iter().map(|e| (e.path.clone(), e.kind)).collect()
}

#[test]
fn flag_precedence_new_over_modified_over_deleted_over_renamed() {
    assert_eq!(map_flags(true, true, true, true), ChangeKind::New);
    assert_eq!(map_flags(false, true, true, true), ChangeKind::Modified);
    assert_eq!(map_flags(false, false, true, true), ChangeKind::Deleted);
    assert_eq!(map_flags(false, false, false, true), ChangeKind::Renamed);
    assert_eq!(map_flags(false, false, false, false), ChangeKind::Modified);
}

#[test]
fn backend_entries_keep_order_and_drop_ignored() {
    let rs = RuleSet::from_sources(&None, &None);
    let reports = vec![
        raw("src/lib.rs", false, true, false, false),
        raw("target/debug/out", true, false, false, false),
        raw("README.md", true, false, false, false),
    ];
    let got = classify_backend(&reports, &rs);
    assert_eq!(
        as_pairs(&got),
        vec![(b("src/lib.rs"), ChangeKind::Modified), (b("README.md"), ChangeKind::New)]
    );
    assert!(got.iter().all(|e| !e.ignored));
}

#[test]
fn fallback_runs_only_when_primary_is_empty() {
    let rs = RuleSet::from_sources(&None, &None);
    let scanned = vec![b("other.txt"), b("more.txt")];

    let nonempty = vec![raw("src/main.rs", false, true, false, false)];
    let with_backend = status_entries(&nonempty, &scanned, &rs);
    assert_eq!(as_pairs(&with_backend), vec![(b("src/main.rs"), ChangeKind::Modified)]);

    let none: Vec<RawStatus> = Vec::new();
    let without_backend = status_entries(&none, &scanned, &rs);
    let fallback = classify_fallback(&scanned, &rs);
    assert_eq!(as_pairs(&without_backend), as_pairs(&fallback));
    assert_eq!(
        as_pairs(&without_backend),
        vec![(b("other.txt"), ChangeKind::New), (b("more.txt"), ChangeKind::New)]
    );
}

#[test]
fn backend_with_only_ignored_reports_falls_back() {
    let rs = RuleSet::from_sources(&None, &None);
    let reports = vec![raw("target/stale", true, false, false, false)];
    let scanned = vec![b("kept.txt")];
    let got = status_entries(&reports, &scanned, &rs);
    assert_eq!(as_pairs(&got), vec![(b("kept.txt"), ChangeKind::New)]);
}

#[test]
fn cap_applies_after_filtering_and_never_wastes_slots_on_ignored() {
    let rs = RuleSet::from_sources(&None, &None);
    let mut scanned: Vec<Vec<u8>> = Vec::new();
    for i in 0..5 {
        scanned.push(b(&format!("target/junk{}.o", i)));
    }
    for i in 0..20 {
        scanned.push(b(&format!("file{:02}.txt", i)));
    }
    let got = classify_fallback(&scanned, &rs);
    assert_eq!(got.len(), DISPLAY_CAP);
    assert_eq!(got.len(), 15);
    for (i, e) in got.iter().enumerate() {
        assert_eq!(e.path, b(&format!("file{:02}.txt", i)));
        assert_eq!(e.kind, ChangeKind::New);
        assert!(!e.ignored);
    }
}

#[test]
fn fewer_kept_files_than_the_cap_are_all_returned() {
    let rs = RuleSet::from_sources(&None, &None);
    let scanned = vec![b("a.txt"), b("target/x"), b("b.txt")];
    let got = classify_fallback(&scanned, &rs);
    assert_eq!(as_pairs(&got), vec![(b("a.txt"), ChangeKind::New), (b("b.txt"), ChangeKind::New)]);
}

#[test]
fn split_path_finds_parent_and_name() {
    let (k, n) = split_path(&b("a.txt"));
    assert_eq!((k, n), (b("."), b("a.txt")));
    let (k, n) = split_path(&b("sub/b.txt"));
    assert_eq!((k, n), (b("sub"), b("b.txt")));
    let (k, n) = split_path(&b("a/b/c.txt"));
    assert_eq!((k, n), (b("a/b"), b("c.txt")));
}

#[test]
fn grouping_sorts_keys_and_keeps_insertion_order_within_a_directory() {
    let entries = vec![
        WorkingTreeEntry { path: b("zeta/one.rs"), kind: ChangeKind::Modified, ignored: false },
        WorkingTreeEntry { path: b("top.txt"), kind: ChangeKind::New, ignored: false },
        WorkingTreeEntry { path: b("alpha/b.rs"), kind: ChangeKind::Deleted, ignored: false },
        WorkingTreeEntry { path: b("zeta/two.rs"), kind: ChangeKind::Renamed, ignored: false },
        WorkingTreeEntry { path: b("alpha/a.rs"), kind: ChangeKind::New, ignored: false },
    ];
    let groups = group(&entries);
    let keys: Vec<Vec<u8>> = groups.iter().map(|g| g.key.clone()).collect();
    assert_eq!(keys, vec![b("."), b("alpha"), b("zeta")]);

    let alpha: Vec<(Vec<u8>, ChangeKind)> =
        groups[1].files.iter().map(|f| (f.name.clone(), f.kind)).collect();
    assert_eq!(alpha, vec![(b("b.rs"), ChangeKind::Deleted), (b("a.rs"), ChangeKind::New)]);

    let zeta: Vec<(Vec<u8>, ChangeKind)> =
        groups[2].files.iter().map(|f| (f.name.clone(), f.kind)).collect();
    assert_eq!(zeta, vec![(b("one.rs"), ChangeKind::Modified), (b("two.rs"), ChangeKind::Renamed)]);
}

#[test]
fn grouping_twice_gives_identical_reports() {
    let entries = vec![
        WorkingTreeEntry { path: b("b/x.rs"), kind: ChangeKind::New, ignored: false },
        WorkingTreeEntry { path: b("a/y.rs"), kind: ChangeKind::Modified, ignored: false },
        WorkingTreeEntry { path: b("b/z.rs"), kind: ChangeKind::New, ignored: false },
    ];
    let g1 = group(&entries);
    let g2 = group(&entries);
    assert_eq!(g1.len(), g2.len());
    for (x, y) in g1.iter().zip(g2.iter()) {
        assert_eq!(x.key, y.key);
        assert_eq!(x.files.len(), y.files.len());
        for (f, h) in x.files.iter().zip(y.files.iter()) {
            assert_eq!(f.name, h.name);
            assert_eq!(f.kind, h.kind);
        }
    }
}

#[test]
fn grouping_reconstructs_every_entry_exactly_once() {
    let entries = vec![
        WorkingTreeEntry { path: b("d/a.rs"), kind: ChangeKind::New, ignored: false },
        WorkingTreeEntry { path: b("top.md"), kind: ChangeKind::Modified, ignored: false },
        WorkingTreeEntry { path: b("d/b.rs"), kind: ChangeKind::Deleted, ignored: false },
        WorkingTreeEntry { path: b("e/c.rs"), kind: ChangeKind::New, ignored: false },
    ];
    let tag = |k: ChangeKind| match k {
        ChangeKind::New => 0u8,
        ChangeKind::Modified => 1,
        ChangeKind::Deleted => 2,
        ChangeKind::Renamed => 3,
    };
    let groups = group(&entries);
    let mut rebuilt: Vec<(Vec<u8>, u8)> = Vec::new();
    for g in &groups {
        for f in &g.files {
            let mut path = Vec::new();
            if g.key != b(".") {
                path.extend_from_slice(&g.key);
                path.push(b'/');
            }
            path.extend_from_slice(&f.name);
            rebuilt.push((path, tag(f.kind)));
        }
    }
    let mut expected: Vec<(Vec<u8>, u8)> =
        entries.iter().map(|e| (e.path.clone(), tag(e.kind))).collect();
    rebuilt.sort();
    expected.sort();
    assert_eq!(rebuilt, expected);
}

#[test]
fn ignored_entries_never_reach_the_report() {
    let entries = vec![
        WorkingTreeEntry { path: b("keep.rs"), kind: ChangeKind::New, ignored: false },
        WorkingTreeEntry { path: b("drop.rs"), kind: ChangeKind::New, ignored: true },
    ];
    let groups = group(&entries);
    assert_eq!(groups.len(), 1);
    assert_eq!(groups[0].key, b("."));
    assert_eq!(groups[0].files.len(), 1);
    assert_eq!(groups[0].files[0].name, b("keep.rs"));
}

#[test]
fn absent_sources_and_absent_backend_classify_and_group_the_scan() {
    let rs = RuleSet::from_sources(&None, &None);
    let backend: Vec<RawStatus> = Vec::new();
    let scanned = vec![b("a.txt"), b("sub/b.txt"), b("target/ignored.bin")];
    let classified = status_entries(&backend, &scanned, &rs);
    assert_eq!(
        as_pairs(&classified),
        vec![(b("a.txt"), ChangeKind::New), (b("sub/b.txt"), ChangeKind::New)]
    );
    let groups = group(&classified);
    assert_eq!(groups.len(), 2);
    assert_eq!(groups[0].key, b("."));
    assert_eq!(groups[0].files.len(), 1);
    assert_eq!(groups[0].files[0].name, b("a.txt"));
    assert_eq!(groups[0].files[0].kind, ChangeKind::New);
    assert_eq!(groups[1].key, b("sub"));
    assert_eq!(groups[1].files.len(), 1);
    assert_eq!(groups[1].files[0].name, b("b.txt"));
    assert_eq!(groups[1].files[0].kind, ChangeKind::New);
}

#[test]
fn tool_specific_log_pattern_excludes_only_log_files() {
    let tool = b("*.log\n");
    let rs = RuleSet::from_sources(&None, &Some(tool));
    let backend: Vec<RawStatus> = Vec::new();
    let scanned = vec![b("server.log"), b("server.txt")];
    let classified = status_entries(&backend, &scanned, &rs);
    assert_eq!(as_pairs(&classified), vec![(b("server.txt"), ChangeKind::New)]);
}
