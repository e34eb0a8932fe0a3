//! The status classifier: backend-reported status flags are mapped to
//! change kinds and filtered through the rule set; when that primary
//! result is empty, the paths a bounded fallback scan discovered are
//! classified as new, filtered, and capped for display.

use vstd::prelude::*;
use crate::rules::{RuleSet, RuleV, ruleset_matches};
use crate::bytes::copy_range;

verus! {

/// Classification of a path's state relative to the last recorded
/// snapshot.
#[derive(Clone, Copy, Debug, PartialEq, Eq, Structural)]
pub enum ChangeKind {
    New,
    Modified,
    Deleted,
    Renamed,
}

/// The display cap of the fallback scan: a display-size bound applied
/// after ignore filtering, never before.
pub const DISPLAY_CAP: usize = 15;

/// One backend-reported path with its raw working-tree status flags.
/// More than one flag may be set; `kind_of_flags` fixes the precedence.
pub struct RawStatus {
    pub path: Vec<u8>,
    pub wt_new: bool,
    pub wt_modified: bool,
    pub wt_deleted: bool,
    pub wt_renamed: bool,
}

/// The mathematical content of one backend report.
pub struct RawStatusV {
    pub path: Seq<u8>,
    pub wt_new: bool,
    pub wt_modified: bool,
    pub wt_deleted: bool,
    pub wt_renamed: bool,
}

impl View for RawStatus {
    type V = RawStatusV;

    open spec fn view(&self) -> RawStatusV {
        RawStatusV {
            path: self.path@,
            wt_new: self.wt_new,
            wt_modified: self.wt_modified,
            wt_deleted: self.wt_deleted,
            wt_renamed: self.wt_renamed,
        }
    }
}

impl DeepView for RawStatus {
    type V = RawStatusV;

    open spec fn deep_view(&self) -> RawStatusV {
        self@
    }
}

/// A classified working-tree path. An entry with `ignored` set never
/// leaves the classifier and never appears in reporter output.
pub struct WorkingTreeEntry {
    pub path: Vec<u8>,
    pub kind: ChangeKind,
    pub ignored: bool,
}

/// The mathematical content of one classified entry.
pub struct EntryV {
    pub path: Seq<u8>,
    pub kind: ChangeKind,
    pub ignored: bool,
}

impl View for WorkingTreeEntry {
    type V = EntryV;

    open spec fn view(&self) -> EntryV {
        EntryV { path: self.path@, kind: self.kind, ignored: self.ignored }
    }
}

impl DeepView for WorkingTreeEntry {
    type V = EntryV;

    open spec fn deep_view(&self) -> EntryV {
        self@
    }
}

/// The change kind chosen when several flags are set on one path:
/// new wins over modified, modified over deleted, deleted over renamed,
/// and a path with no recognized flag defaults to modified.
pub open spec fn kind_of_flags(n: bool, m: bool, d: bool, rn: bool) -> ChangeKind {
    if n {
        ChangeKind::New
    } else if m {
        ChangeKind::Modified
    } else if d {
        ChangeKind::Deleted
    } else if rn {
        ChangeKind::Renamed
    } else {
        ChangeKind::Modified
    }
}

/// Maps one set of backend status flags to a change kind.
pub fn map_flags(n: bool, m: bool, d: bool, rn: bool) -> (r: ChangeKind)
    ensures
        r == kind_of_flags(n, m, d, rn),
{
    if n {
        ChangeKind::New
    } else if m {
        ChangeKind::Modified
    } else if d {
        ChangeKind::Deleted
    } else if rn {
        ChangeKind::Renamed
    } else {
        ChangeKind::Modified
    }
}

/// The primary result: every backend report whose path no rule matches,
/// in report order, with its flags mapped and `ignored` false.
pub open spec fn backend_entries(raw: Seq<RawStatusV>, rules: Seq<RuleV>) -> Seq<EntryV>
    decreases raw.len(),
{
    if raw.len() == 0 {
        seq![]
    } else {
        let rest = backend_entries(raw.drop_last(), rules);
        let x = raw.last();
        if !ruleset_matches(rules, x.path) {
            rest.push(
                EntryV {
                    path: x.path,
                    kind: kind_of_flags(x.wt_new, x.wt_modified, x.wt_deleted, x.wt_renamed),
                    ignored: false,
                },
            )
        } else {
            rest
        }
    }
}

/// Classifies the backend's reports: ignored paths are dropped, the
/// rest keep their order and get the mapped change kind.
pub fn classify_backend(raw: &Vec<RawStatus>, rules: &RuleSet) -> (r: Vec<WorkingTreeEntry>)
    ensures
        r.deep_view() == backend_entries(raw.deep_view(), rules@),
{
    let n = raw.len();
    let mut r: Vec<WorkingTreeEntry> = Vec::new();
    let mut i: usize = 0;
    assert(raw.deep_view().subrange(0, 0) =~= Seq::<RawStatusV>::empty());
    assert(r.deep_view() =~= Seq::<EntryV>::empty());
    while i < n
        invariant
            0 <= i <= n,
            raw@.len() == n,
            raw.deep_view().len() == n,
            r.deep_view() == backend_entries(raw.deep_view().subrange(0, i as int), rules@),
        decreases n - i,
    {
        let ghost prefix = raw.deep_view().subrange(0, i as int);
        let ghost prefix1 = raw.deep_view().subrange(0, i + 1 as int);
        proof {
            assert(prefix1.drop_last() =~= prefix);
            assert(prefix1.last() == raw.deep_view()[i as int]);
            assert(raw.deep_view()[i as int] == raw@[i as int]@);
        }
        let x = &raw[i];
        let ghost old_dv = r.deep_view();
        if !rules.matches(&x.path) {
            let path = copy_range(&x.path, 0, x.path.len());
            assert(path@ =~= x.path@);
            let kind = map_flags(x.wt_new, x.wt_modified, x.wt_deleted, x.wt_renamed);
            let entry = WorkingTreeEntry { path, kind, ignored: false };
            r.push(entry);
            proof {
                assert(r.deep_view() =~= old_dv.push(entry@));
            }
        }
        i += 1;
    }
    assert(raw.deep_view().subrange(0, n as int) =~= raw.deep_view());
    r
}

/// The fallback scan's result before the cap: every discovered path no
/// rule matches, in discovery order, classified as new.
pub open spec fn scan_kept(paths: Seq<Seq<u8>>, rules: Seq<RuleV>) -> Seq<EntryV>
    decreases paths.len(),
{
    if paths.len() == 0 {
        seq![]
    } else {
        let rest = scan_kept(paths.drop_last(), rules);
        let x = paths.last();
        if !ruleset_matches(rules, x) {
            rest.push(EntryV { path: x, kind: ChangeKind::New, ignored: false })
        } else {
            rest
        }
    }
}

/// The fallback scan's classified result: the kept entries, truncated
/// to the display cap after filtering.
pub open spec fn fallback_entries(paths: Seq<Seq<u8>>, rules: Seq<RuleV>) -> Seq<EntryV> {
    let kept = scan_kept(paths, rules);
    if kept.len() <= DISPLAY_CAP as int {
        kept
    } else {
        kept.take(DISPLAY_CAP as int)
    }
}

/// Classifies the paths a fallback scan discovered: ignored paths are
/// dropped, the rest are new, and the result is capped for display.
pub fn classify_fallback(paths: &Vec<Vec<u8>>, rules: &RuleSet) -> (r: Vec<WorkingTreeEntry>)
    ensures
        r.deep_view() == fallback_entries(paths.deep_view(), rules@),
{
    let n = paths.len();
    let mut r: Vec<WorkingTreeEntry> = Vec::new();
    let mut i: usize = 0;
    assert(paths.deep_view().subrange(0, 0) =~= Seq::<Seq<u8>>::empty());
    assert(r.deep_view() =~= Seq::<EntryV>::empty());
    while i < n
        invariant
            0 <= i <= n,
            paths@.len() == n,
            paths.deep_view().len() == n,
            r.deep_view() == scan_kept(paths.deep_view().subrange(0, i as int), rules@),
        decreases n - i,
    {
        let ghost prefix = paths.deep_view().subrange(0, i as int);
        let ghost prefix1 = paths.deep_view().subrange(0, i + 1 as int);
        proof {
            assert(prefix1.drop_last() =~= prefix);
            assert(prefix1.last() == paths.deep_view()[i as int]);
            assert(paths.deep_view()[i as int] =~= paths@[i as int]@);
        }
        let x = &paths[i];
        let ghost old_dv = r.deep_view();
        if !rules.matches(x) {
            let path = copy_range(x, 0, x.len());
            assert(path@ =~= x@);
            let entry = WorkingTreeEntry { path, kind: ChangeKind::New, ignored: false };
            r.push(entry);
            proof {
                assert(r.deep_view() =~= old_dv.push(entry@));
            }
        }
        i += 1;
    }
    assert(paths.deep_view().subrange(0, n as int) =~= paths.deep_view());
    let ghost kept = r.deep_view();
    r.truncate(DISPLAY_CAP);
    proof {
        if kept.len() > DISPLAY_CAP as int {
            assert(r.deep_view() =~= kept.take(DISPLAY_CAP as int));
        } else {
            assert(r.deep_view() =~= kept);
        }
    }
    r
}

/// The classified status: the primary (backend) result when it is
/// non-empty, else the fallback scan's filtered, capped result. The two
/// are never mixed.
pub open spec fn status_entries_spec(
    raw: Seq<RawStatusV>,
    scanned: Seq<Seq<u8>>,
    rules: Seq<RuleV>,
) -> Seq<EntryV> {
    let primary = backend_entries(raw, rules);
    if primary.len() > 0 {
        primary
    } else {
        fallback_entries(scanned, rules)
    }
}

/// Produces the classified working-tree status from the backend's
/// reports and the fallback scan's discoveries.
pub fn status_entries(raw: &Vec<RawStatus>, scanned: &Vec<Vec<u8>>, rules: &RuleSet) -> (r: Vec<
    WorkingTreeEntry,
>)
    ensures
        r.deep_view() == status_entries_spec(raw.deep_view(), scanned.deep_view(), rules@),
{
    let primary = classify_backend(raw, rules);
    if primary.len() > 0 {
        primary
    } else {
        classify_fallback(scanned, rules)
    }
}

/// Every entry the fallback keeps is one of the discovered paths,
/// is not matched by any rule, is classified as new, and is not
/// flagged ignored.
pub proof fn lemma_scan_kept_sound(paths: Seq<Seq<u8>>, rules: Seq<RuleV>)
    ensures
        forall|i: int|
            0 <= i < scan_kept(paths, rules).len() ==> {
                let e = #[trigger] scan_kept(paths, rules)[i];
                &&& paths.contains(e.path)
                &&& !ruleset_matches(rules, e.path)
                &&& e.kind == ChangeKind::New
                &&& e.ignored == false
            },
    decreases paths.len(),
{
    if paths.len() > 0 {
        lemma_scan_kept_sound(paths.drop_last(), rules);
        assert forall|j: int| 0 <= j < paths.drop_last().len() implies paths.contains(
            paths.drop_last()[j],
        ) by {
            assert(paths.drop_last()[j] == paths[j]);
        }
        assert(paths.contains(paths.last()));
    }
}

/// Every backend entry keeps a reported path, is not matched by any
/// rule, and is not flagged ignored.
pub proof fn lemma_backend_entries_sound(raw: Seq<RawStatusV>, rules: Seq<RuleV>)
    ensures
        forall|i: int|
            0 <= i < backend_entries(raw, rules).len() ==> {
                let e = #[trigger] backend_entries(raw, rules)[i];
                &&& exists|j: int|
                    0 <= j < raw.len() && raw[j].path == e.path && e.kind == kind_of_flags(
                        raw[j].wt_new,
                        raw[j].wt_modified,
                        raw[j].wt_deleted,
                        raw[j].wt_renamed,
                    )
                &&& !ruleset_matches(rules, e.path)
                &&& e.ignored == false
            },
    decreases raw.len(),
{
    if raw.len() > 0 {
        lemma_backend_entries_sound(raw.drop_last(), rules);
        assert forall|i: int| 0 <= i < backend_entries(raw, rules).len() implies {
            let e = #[trigger] backend_entries(raw, rules)[i];
            &&& exists|j: int|
                0 <= j < raw.len() && raw[j].path == e.path && e.kind == kind_of_flags(
                    raw[j].wt_new,
                    raw[j].wt_modified,
                    raw[j].wt_deleted,
                    raw[j].wt_renamed,
                )
            &&& !ruleset_matches(rules, e.path)
            &&& e.ignored == false
        } by {
            let e = backend_entries(raw, rules)[i];
            let rest = backend_entries(raw.drop_last(), rules);
            if i < rest.len() {
                assert(e == rest[i]);
                let j = choose|j: int|
                    0 <= j < raw.drop_last().len() && raw.drop_last()[j].path == e.path
                        && e.kind == kind_of_flags(
                        raw.drop_last()[j].wt_new,
                        raw.drop_last()[j].wt_modified,
                        raw.drop_last()[j].wt_deleted,
                        raw.drop_last()[j].wt_renamed,
                    );
                assert(raw.drop_last()[j] == raw[j]);
            } else {
                assert(!ruleset_matches(rules, raw.last().path));
                assert(raw[raw.len() - 1] == raw.last());
            }
        }
    }
}

/// The fallback triggers only on an empty primary result: a backend
/// that reports nothing makes the classified status exactly the
/// fallback scan's filtered, capped output, and a backend whose reports
/// survive filtering makes it exactly the primary result, with the
/// fallback never consulted. (A backend whose every reported path is
/// ignored also yields an empty primary result and so falls back.)
pub proof fn lemma_fallback_only_on_empty(
    raw: Seq<RawStatusV>,
    scanned: Seq<Seq<u8>>,
    rules: Seq<RuleV>,
)
    ensures
        raw.len() == 0 ==> status_entries_spec(raw, scanned, rules) == fallback_entries(
            scanned,
            rules,
        ),
        backend_entries(raw, rules).len() > 0 ==> status_entries_spec(raw, scanned, rules)
            == backend_entries(raw, rules),
{
}

/// Cap correctness: the fallback result is the kept (non-ignored)
/// entries when they fit the display cap, and exactly the first
/// cap-many of them otherwise — discarded (ignored) paths never use up
/// cap slots.
pub proof fn lemma_cap_correct(paths: Seq<Seq<u8>>, rules: Seq<RuleV>)
    ensures
        fallback_entries(paths, rules).len() == if scan_kept(paths, rules).len() <= DISPLAY_CAP as int {
            scan_kept(paths, rules).len() as int
        } else {
            DISPLAY_CAP as int
        },
        forall|i: int|
            0 <= i < fallback_entries(paths, rules).len() ==> #[trigger] fallback_entries(
                paths,
                rules,
            )[i] == scan_kept(paths, rules)[i],
        forall|i: int|
            0 <= i < fallback_entries(paths, rules).len() ==> {
                let e = #[trigger] fallback_entries(paths, rules)[i];
                &&& paths.contains(e.path)
                &&& !ruleset_matches(rules, e.path)
                &&& e.kind == ChangeKind::New
                &&& e.ignored == false
            },
{
    lemma_scan_kept_sound(paths, rules);
}

/// Result guarantee: the classified status never contains an ignored
/// path, and no entry is flagged ignored.
pub proof fn lemma_status_non_ignored(
    raw: Seq<RawStatusV>,
    scanned: Seq<Seq<u8>>,
    rules: Seq<RuleV>,
)
    ensures
        forall|i: int|
            0 <= i < status_entries_spec(raw, scanned, rules).len() ==> {
                let e = #[trigger] status_entries_spec(raw, scanned, rules)[i];
                &&& !ruleset_matches(rules, e.path)
                &&& e.ignored == false
            },
{
    lemma_backend_entries_sound(raw, rules);
    lemma_cap_correct(scanned, rules);
}

} // verus!
