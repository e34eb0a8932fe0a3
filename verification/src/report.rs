//! The hierarchical reporter: classified entries are grouped by parent
//! directory into an ordered mapping — keys in lexicographic order,
//! entries within a directory in input order — ready for rendering.

use vstd::prelude::*;
use vstd::multiset::Multiset;
use crate::bytes::{
    lex_lt, lex_lt_bytes, bytes_eq, copy_range, lemma_lex_total, lemma_lex_asymmetric,
    lemma_lex_transitive,
};
use crate::classify::{ChangeKind, WorkingTreeEntry, EntryV};

verus! {

/// One file in a directory group: the file name (the path's last
/// segment) and its change kind.
pub struct FileEntry {
    pub name: Vec<u8>,
    pub kind: ChangeKind,
}

/// The mathematical content of one grouped file.
pub struct FileEntryV {
    pub name: Seq<u8>,
    pub kind: ChangeKind,
}

impl View for FileEntry {
    type V = FileEntryV;

    open spec fn view(&self) -> FileEntryV {
        FileEntryV { name: self.name@, kind: self.kind }
    }
}

impl DeepView for FileEntry {
    type V = FileEntryV;

    open spec fn deep_view(&self) -> FileEntryV {
        self@
    }
}

/// One directory group: the directory key (the sentinel root key `.`
/// for entries with no parent segment) and its files in input order.
/// The root-key group is rendered without a directory header.
pub struct DirGroup {
    pub key: Vec<u8>,
    pub files: Vec<FileEntry>,
}

/// The mathematical content of one directory group.
pub struct DirGroupV {
    pub key: Seq<u8>,
    pub files: Seq<FileEntryV>,
}

impl View for DirGroup {
    type V = DirGroupV;

    open spec fn view(&self) -> DirGroupV {
        DirGroupV { key: self.key@, files: self.files.deep_view() }
    }
}

impl DeepView for DirGroup {
    type V = DirGroupV;

    open spec fn deep_view(&self) -> DirGroupV {
        self@
    }
}

/// Index of the last slash byte in `p`, or -1 if there is none.
pub open spec fn last_slash(p: Seq<u8>) -> int
    decreases p.len(),
{
    if p.len() == 0 {
        -1
    } else if p[p.len() - 1] == 47 {  // '/'
        p.len() - 1
    } else {
        last_slash(p.drop_last())
    }
}

/// The sentinel root key `.` used for entries with no parent segment.
pub open spec fn root_key() -> Seq<u8> {
    seq![46u8]  // "."
}

/// The grouping key of a path: everything before the last slash, or the
/// sentinel root key when the path has no slash.
pub open spec fn group_key(p: Seq<u8>) -> Seq<u8> {
    if last_slash(p) < 0 {
        root_key()
    } else {
        p.subrange(0, last_slash(p))
    }
}

/// The file name of a path: everything after the last slash, or the
/// whole path when it has no slash.
pub open spec fn file_name(p: Seq<u8>) -> Seq<u8> {
    if last_slash(p) < 0 {
        p
    } else {
        p.subrange(last_slash(p) + 1, p.len() as int)
    }
}

/// If no byte after position `m` is a slash and, unless `m` is -1, byte
/// `m` is one, then `last_slash` is pinned to `m`.
proof fn lemma_last_slash_at(p: Seq<u8>, m: int)
    requires
        -1 <= m < p.len(),
        forall|k: int| m < k < p.len() ==> p[k] != 47,
        m >= 0 ==> p[m] == 47,
    ensures
        last_slash(p) == m,
    decreases p.len(),
{
    if p.len() > 0 && m < p.len() - 1 {
        assert(p[p.len() - 1] != 47);
        assert forall|k: int| m < k < p.drop_last().len() implies p.drop_last()[k] != 47 by {
            assert(p.drop_last()[k] == p[k]);
        }
        if m >= 0 {
            assert(p.drop_last()[m] == p[m]);
        }
        lemma_last_slash_at(p.drop_last(), m);
    }
}

/// Splits a path into its grouping key and file name.
pub fn split_path(p: &Vec<u8>) -> (r: (Vec<u8>, Vec<u8>))
    ensures
        r.0@ == group_key(p@),
        r.1@ == file_name(p@),
{
    let n = p.len();
    let mut j: usize = n;
    while j > 0 && p[j - 1] != 47
        invariant
            0 <= j <= n,
            p@.len() == n,
            forall|k: int| j <= k < n ==> p@[k] != 47,
        decreases j,
    {
        j -= 1;
    }
    if j == 0 {
        proof {
            lemma_last_slash_at(p@, -1);
        }
        let mut key: Vec<u8> = Vec::new();
        key.push(46);  // '.'
        assert(key@ =~= root_key());
        let name = copy_range(p, 0, n);
        assert(name@ =~= p@);
        (key, name)
    } else {
        proof {
            lemma_last_slash_at(p@, j - 1);
        }
        let key = copy_range(p, 0, j - 1);
        let name = copy_range(p, j, n);
        (key, name)
    }
}

/// Where an entry lands in the report: its key, its file name, and its
/// change kind.
pub struct PlacedV {
    pub key: Seq<u8>,
    pub name: Seq<u8>,
    pub kind: ChangeKind,
}

/// The placement of one classified entry.
pub open spec fn entry_placed(e: EntryV) -> PlacedV {
    PlacedV { key: group_key(e.path), name: file_name(e.path), kind: e.kind }
}

/// The placements of the non-ignored entries, in input order.
pub open spec fn placed_of_entries(entries: Seq<EntryV>) -> Seq<PlacedV>
    decreases entries.len(),
{
    if entries.len() == 0 {
        seq![]
    } else {
        let rest = placed_of_entries(entries.drop_last());
        if !entries.last().ignored {
            rest.push(entry_placed(entries.last()))
        } else {
            rest
        }
    }
}

/// The placements one directory group contributes.
pub open spec fn group_placed(g: DirGroupV) -> Seq<PlacedV> {
    g.files.map_values(|f: FileEntryV| PlacedV { key: g.key, name: f.name, kind: f.kind })
}

/// All placements of a report, group by group.
pub open spec fn placed_of_groups(groups: Seq<DirGroupV>) -> Seq<PlacedV>
    decreases groups.len(),
{
    if groups.len() == 0 {
        seq![]
    } else {
        placed_of_groups(groups.drop_last()) + group_placed(groups.last())
    }
}

/// The files belonging to key `k`: the non-ignored entries whose
/// grouping key is `k`, in input order, reduced to name and kind.
pub open spec fn files_for(entries: Seq<EntryV>, k: Seq<u8>) -> Seq<FileEntryV>
    decreases entries.len(),
{
    if entries.len() == 0 {
        seq![]
    } else {
        let rest = files_for(entries.drop_last(), k);
        let e = entries.last();
        if !e.ignored && group_key(e.path) == k {
            rest.push(FileEntryV { name: file_name(e.path), kind: e.kind })
        } else {
            rest
        }
    }
}

/// What it means for `groups` to be the grouping of `entries`: keys
/// strictly ascending (hence unique), no empty group, each group
/// holding exactly the files of its key in input order, and a group
/// for every non-ignored entry's key. These clauses determine the
/// report uniquely.
pub open spec fn is_grouping(entries: Seq<EntryV>, groups: Seq<DirGroupV>) -> bool {
    &&& forall|i: int, j: int|
        0 <= i < j < groups.len() ==> lex_lt(groups[i].key, groups[j].key)
    &&& forall|i: int|
        0 <= i < groups.len() ==> (#[trigger] groups[i]).files == files_for(
            entries,
            groups[i].key,
        )
    &&& forall|i: int| 0 <= i < groups.len() ==> (#[trigger] groups[i]).files.len() > 0
    &&& forall|ei: int|
        0 <= ei < entries.len() && !(#[trigger] entries[ei]).ignored ==> exists|g: int|
            0 <= g < groups.len() && (#[trigger] groups[g]).key == group_key(entries[ei].path)
}

/// Appending an entry that is ignored or belongs to another key leaves
/// a key's files unchanged.
proof fn lemma_files_for_skip(entries: Seq<EntryV>, e: EntryV, k: Seq<u8>)
    requires
        e.ignored || group_key(e.path) != k,
    ensures
        files_for(entries.push(e), k) == files_for(entries, k),
{
    assert(entries.push(e).drop_last() =~= entries);
    assert(entries.push(e).last() == e);
}

/// Appending a non-ignored entry of key `k` appends its file to that
/// key's files.
proof fn lemma_files_for_push(entries: Seq<EntryV>, e: EntryV, k: Seq<u8>)
    requires
        !e.ignored,
        group_key(e.path) == k,
    ensures
        files_for(entries.push(e), k) == files_for(entries, k).push(
            FileEntryV { name: file_name(e.path), kind: e.kind },
        ),
{
    assert(entries.push(e).drop_last() =~= entries);
    assert(entries.push(e).last() == e);
}

/// Appending an entry appends its placement, unless it is ignored.
proof fn lemma_placed_entries_push(entries: Seq<EntryV>, e: EntryV)
    ensures
        !e.ignored ==> placed_of_entries(entries.push(e)) == placed_of_entries(entries).push(
            entry_placed(e),
        ),
        e.ignored ==> placed_of_entries(entries.push(e)) == placed_of_entries(entries),
{
    assert(entries.push(e).drop_last() =~= entries);
    assert(entries.push(e).last() == e);
}

/// A key with files has a non-ignored entry bearing that key.
proof fn lemma_files_for_entry(entries: Seq<EntryV>, k: Seq<u8>)
    requires
        files_for(entries, k).len() > 0,
    ensures
        exists|i: int|
            0 <= i < entries.len() && !(#[trigger] entries[i]).ignored && group_key(
                entries[i].path,
            ) == k,
    decreases entries.len(),
{
    let e = entries.last();
    if !e.ignored && group_key(e.path) == k {
        assert(entries[entries.len() - 1] == e);
    } else {
        lemma_files_for_entry(entries.drop_last(), k);
        let i = choose|i: int|
            0 <= i < entries.drop_last().len() && !(#[trigger] entries.drop_last()[i]).ignored
                && group_key(entries.drop_last()[i].path) == k;
        assert(entries[i] == entries.drop_last()[i]);
    }
}

/// Replacing the group at `pos` with the same group extended by one
/// file inserts that file's placement into the report's multiset.
proof fn lemma_placed_update_push(groups: Seq<DirGroupV>, pos: int, f: FileEntryV)
    requires
        0 <= pos < groups.len(),
    ensures
        placed_of_groups(
            groups.update(pos, DirGroupV { key: groups[pos].key, files: groups[pos].files.push(f) }),
        ).to_multiset() == placed_of_groups(groups).to_multiset().insert(
            PlacedV { key: groups[pos].key, name: f.name, kind: f.kind },
        ),
    decreases groups.len(),
{
    broadcast use vstd::seq_lib::group_to_multiset_ensures;
    broadcast use vstd::multiset::group_multiset_axioms;

    let g2 = DirGroupV { key: groups[pos].key, files: groups[pos].files.push(f) };
    let new = groups.update(pos, g2);
    let p = PlacedV { key: groups[pos].key, name: f.name, kind: f.kind };
    if pos == groups.len() - 1 {
        assert(new.drop_last() =~= groups.drop_last());
        assert(new.last() == g2);
        assert(group_placed(g2) =~= group_placed(groups.last()).push(p));
        vstd::seq_lib::lemma_multiset_commutative(
            placed_of_groups(groups.drop_last()),
            group_placed(g2),
        );
        vstd::seq_lib::lemma_multiset_commutative(
            placed_of_groups(groups.drop_last()),
            group_placed(groups.last()),
        );
        assert(placed_of_groups(new).to_multiset() =~= placed_of_groups(
            groups,
        ).to_multiset().insert(p));
    } else {
        assert(new.drop_last() =~= groups.drop_last().update(pos, g2));
        assert(new.last() == groups.last());
        lemma_placed_update_push(groups.drop_last(), pos, f);
        assert(groups.drop_last()[pos] == groups[pos]);
        vstd::seq_lib::lemma_multiset_commutative(
            placed_of_groups(new.drop_last()),
            group_placed(groups.last()),
        );
        vstd::seq_lib::lemma_multiset_commutative(
            placed_of_groups(groups.drop_last()),
            group_placed(groups.last()),
        );
        assert(placed_of_groups(new).to_multiset() =~= placed_of_groups(
            groups,
        ).to_multiset().insert(p));
    }
}

/// Inserting a group adds its placements to the report's multiset.
proof fn lemma_placed_insert(groups: Seq<DirGroupV>, pos: int, g: DirGroupV)
    requires
        0 <= pos <= groups.len(),
    ensures
        placed_of_groups(groups.insert(pos, g)).to_multiset() == placed_of_groups(
            groups,
        ).to_multiset().add(group_placed(g).to_multiset()),
    decreases groups.len(),
{
    broadcast use vstd::seq_lib::group_to_multiset_ensures;
    broadcast use vstd::multiset::group_multiset_axioms;

    let new = groups.insert(pos, g);
    if pos == groups.len() {
        assert(new.drop_last() =~= groups);
        assert(new.last() == g);
        vstd::seq_lib::lemma_multiset_commutative(placed_of_groups(groups), group_placed(g));
    } else {
        assert(new.drop_last() =~= groups.drop_last().insert(pos, g));
        assert(new.last() == groups.last());
        lemma_placed_insert(groups.drop_last(), pos, g);
        vstd::seq_lib::lemma_multiset_commutative(
            placed_of_groups(new.drop_last()),
            group_placed(groups.last()),
        );
        vstd::seq_lib::lemma_multiset_commutative(
            placed_of_groups(groups.drop_last()),
            group_placed(groups.last()),
        );
        assert(placed_of_groups(new).to_multiset() =~= placed_of_groups(
            groups,
        ).to_multiset().add(group_placed(g).to_multiset()));
    }
}

/// Groups the classified entries by parent directory. The result is the
/// unique ordered mapping whose keys are exactly the non-ignored
/// entries' directories in lexicographic order, each holding its
/// entries' names and kinds in input order; its placements, as a
/// multiset, reconstruct the non-ignored entries exactly — nothing is
/// lost, duplicated, or invented.
#[verifier::rlimit(60)]
pub fn group(entries: &Vec<WorkingTreeEntry>) -> (r: Vec<DirGroup>)
    ensures
        is_grouping(entries.deep_view(), r.deep_view()),
        placed_of_groups(r.deep_view()).to_multiset() == placed_of_entries(
            entries.deep_view(),
        ).to_multiset(),
{
    broadcast use vstd::seq_lib::group_to_multiset_ensures;
    broadcast use vstd::multiset::group_multiset_axioms;

    let n = entries.len();
    let mut groups: Vec<DirGroup> = Vec::new();
    let mut i: usize = 0;
    assert(entries.deep_view().subrange(0, 0) =~= Seq::<EntryV>::empty());
    assert(groups.deep_view() =~= Seq::<DirGroupV>::empty());
    while i < n
        invariant
            0 <= i <= n,
            entries@.len() == n,
            entries.deep_view().len() == n,
            is_grouping(entries.deep_view().subrange(0, i as int), groups.deep_view()),
            placed_of_groups(groups.deep_view()).to_multiset() == placed_of_entries(
                entries.deep_view().subrange(0, i as int),
            ).to_multiset(),
        decreases n - i,
    {
        broadcast use vstd::seq_lib::group_to_multiset_ensures;
        broadcast use vstd::multiset::group_multiset_axioms;

        let ghost prefix = entries.deep_view().subrange(0, i as int);
        let ghost prefix1 = entries.deep_view().subrange(0, i + 1 as int);
        let ghost ep = entries.deep_view()[i as int];
        proof {
            assert(prefix1 =~= prefix.push(ep));
            assert(entries.deep_view()[i as int] == entries@[i as int]@);
        }
        let e = &entries[i];
        if e.ignored {
            proof {
                let dv = groups.deep_view();
                assert forall|t: int| 0 <= t < dv.len() implies (#[trigger] dv[t]).files
                    == files_for(prefix1, dv[t].key) by {
                    lemma_files_for_skip(prefix, ep, dv[t].key);
                }
                lemma_placed_entries_push(prefix, ep);
            }
        } else {
            let (key, name) = split_path(&e.path);
            let ghost kv = key@;
            let ghost f = FileEntryV { name: name@, kind: e.kind };
            let ghost p = PlacedV { key: kv, name: name@, kind: e.kind };
            proof {
                assert(entry_placed(ep) == p);
            }
            let m = groups.len();
            let mut pos: usize = 0;
            loop
                invariant_except_break
                    0 <= pos <= m,
                    groups.deep_view().len() == m,
                    groups@.len() == m,
                    forall|k: int|
                        0 <= k < pos ==> lex_lt((#[trigger] groups.deep_view()[k]).key, kv),
                    kv == key@,
                ensures
                    0 <= pos <= m,
                    groups.deep_view().len() == m,
                    groups@.len() == m,
                    forall|k: int|
                        0 <= k < pos ==> lex_lt((#[trigger] groups.deep_view()[k]).key, kv),
                    pos < m ==> !lex_lt(groups.deep_view()[pos as int].key, kv),
                decreases m - pos,
            {
                if pos >= m {
                    break;
                }
                let g = &groups[pos];
                proof {
                    assert(groups.deep_view()[pos as int] == groups@[pos as int]@);
                }
                if !lex_lt_bytes(&g.key, &key) {
                    break;
                }
                pos += 1;
            }
            let ghost old_dv = groups.deep_view();
            let mut is_eq = false;
            if pos < groups.len() {
                let g = &groups[pos];
                proof {
                    assert(old_dv[pos as int] == groups@[pos as int]@);
                }
                is_eq = bytes_eq(&g.key, &key);
            }
            if is_eq {
                let mut g = groups.remove(pos);
                proof {
                    assert(g@ == old_dv[pos as int]);
                }
                let ghost old_files = g.files.deep_view();
                g.files.push(FileEntry { name, kind: e.kind });
                proof {
                    assert(g.files.deep_view() =~= old_files.push(f));
                    assert(g@ == DirGroupV { key: kv, files: old_files.push(f) });
                }
                let ghost g2 = g@;
                groups.insert(pos, g);
                proof {
                    old_dv.remove_ensures(pos as int);
                    old_dv.remove(pos as int).insert_ensures(pos as int, g2);
                    assert(groups.deep_view() =~= old_dv.update(pos as int, g2));
                    let new_dv = groups.deep_view();
                    // keys are unchanged
                    assert forall|t: int| 0 <= t < new_dv.len() implies (#[trigger] new_dv[t]).key
                        == old_dv[t].key by {}
                    // sortedness is preserved
                    assert forall|t: int, u: int| 0 <= t < u < new_dv.len() implies lex_lt(
                        new_dv[t].key,
                        new_dv[u].key,
                    ) by {
                        assert(lex_lt(old_dv[t].key, old_dv[u].key));
                    }
                    // every group still holds exactly its key's files
                    assert forall|t: int| 0 <= t < new_dv.len() implies (#[trigger] new_dv[t]).files
                        == files_for(prefix1, new_dv[t].key) by {
                        if t == pos {
                            lemma_files_for_push(prefix, ep, kv);
                        } else {
                            if t < pos {
                                lemma_lex_asymmetric(old_dv[t].key, kv);
                            } else {
                                assert(lex_lt(old_dv[pos as int].key, old_dv[t].key));
                                lemma_lex_asymmetric(kv, old_dv[t].key);
                            }
                            lemma_files_for_skip(prefix, ep, old_dv[t].key);
                        }
                    }
                    // every non-ignored entry's key still has a group
                    assert forall|ei: int|
                        0 <= ei < prefix1.len() && !(#[trigger] prefix1[ei]).ignored implies exists|
                        g: int,
                    |
                        0 <= g < new_dv.len() && (#[trigger] new_dv[g]).key == group_key(
                            prefix1[ei].path,
                        ) by {
                        if ei < prefix.len() {
                            assert(prefix1[ei] == prefix[ei]);
                            let g0 = choose|g: int|
                                0 <= g < old_dv.len() && (#[trigger] old_dv[g]).key == group_key(
                                    prefix[ei].path,
                                );
                            assert(new_dv[g0].key == group_key(prefix1[ei].path));
                        } else {
                            assert(prefix1[ei] == ep);
                            assert(new_dv[pos as int].key == group_key(ep.path));
                        }
                    }
                    // the multiset grows by exactly this entry's placement
                    lemma_placed_update_push(old_dv, pos as int, f);
                    lemma_placed_entries_push(prefix, ep);
                }
            } else {
                proof {
                    // no existing group bears this key
                    assert forall|t: int| 0 <= t < old_dv.len() implies (#[trigger] old_dv[t]).key
                        != kv by {
                        if t < pos {
                            lemma_lex_asymmetric(old_dv[t].key, kv);
                        } else {
                            lemma_lex_total(old_dv[pos as int].key, kv);
                            if t == pos {
                                lemma_lex_asymmetric(kv, old_dv[t].key);
                            } else {
                                assert(lex_lt(old_dv[pos as int].key, old_dv[t].key));
                                lemma_lex_transitive(kv, old_dv[pos as int].key, old_dv[t].key);
                                lemma_lex_asymmetric(kv, old_dv[t].key);
                            }
                        }
                    }
                    // hence this key has no files yet
                    if files_for(prefix, kv).len() > 0 {
                        lemma_files_for_entry(prefix, kv);
                        let ei = choose|ei: int|
                            0 <= ei < prefix.len() && !(#[trigger] prefix[ei]).ignored
                                && group_key(prefix[ei].path) == kv;
                        assert(exists|g: int|
                            0 <= g < old_dv.len() && (#[trigger] old_dv[g]).key == group_key(
                                prefix[ei].path,
                            ));
                    }
                    assert(files_for(prefix, kv).len() == 0);
                }
                let mut files: Vec<FileEntry> = Vec::new();
                files.push(FileEntry { name, kind: e.kind });
                proof {
                    assert(files.deep_view() =~= seq![f]);
                }
                let ghost gnew = DirGroupV { key: kv, files: seq![f] };
                groups.insert(pos, DirGroup { key, files });
                proof {
                    old_dv.insert_ensures(pos as int, gnew);
                    assert(groups.deep_view() =~= old_dv.insert(pos as int, gnew));
                    let new_dv = groups.deep_view();
                    // sortedness: the new key slots strictly between its
                    // neighbours
                    assert forall|t: int, u: int| 0 <= t < u < new_dv.len() implies lex_lt(
                        new_dv[t].key,
                        new_dv[u].key,
                    ) by {
                        if u == pos {
                            assert(new_dv[t].key == old_dv[t].key);
                        } else if t == pos {
                            lemma_lex_total(old_dv[pos as int].key, kv);
                            assert(new_dv[u].key == old_dv[u - 1].key);
                            if u - 1 > pos {
                                assert(lex_lt(old_dv[pos as int].key, old_dv[u - 1].key));
                                lemma_lex_transitive(kv, old_dv[pos as int].key, old_dv[u - 1].key);
                            }
                        } else if t < pos && u > pos {
                            assert(new_dv[t].key == old_dv[t].key);
                            assert(new_dv[u].key == old_dv[u - 1].key);
                            lemma_lex_total(old_dv[pos as int].key, kv);
                            if u - 1 > pos {
                                assert(lex_lt(old_dv[pos as int].key, old_dv[u - 1].key));
                                lemma_lex_transitive(kv, old_dv[pos as int].key, old_dv[u - 1].key);
                            }
                            lemma_lex_transitive(old_dv[t].key, kv, old_dv[u - 1].key);
                        } else if u < pos {
                            assert(new_dv[t].key == old_dv[t].key);
                            assert(new_dv[u].key == old_dv[u].key);
                        } else {
                            assert(new_dv[t].key == old_dv[t - 1].key);
                            assert(new_dv[u].key == old_dv[u - 1].key);
                        }
                    }
                    // every group holds exactly its key's files
                    assert forall|t: int| 0 <= t < new_dv.len() implies (#[trigger] new_dv[t]).files
                        == files_for(prefix1, new_dv[t].key) by {
                        if t == pos {
                            lemma_files_for_push(prefix, ep, kv);
                            assert(files_for(prefix, kv) =~= Seq::<FileEntryV>::empty());
                            assert(files_for(prefix1, kv) =~= seq![f]);
                        } else if t < pos {
                            assert(new_dv[t] == old_dv[t]);
                            lemma_files_for_skip(prefix, ep, old_dv[t].key);
                        } else {
                            assert(new_dv[t] == old_dv[t - 1]);
                            lemma_files_for_skip(prefix, ep, old_dv[t - 1].key);
                        }
                    }
                    // no group is empty
                    assert forall|t: int| 0 <= t < new_dv.len() implies (#[trigger] new_dv[t]).files.len()
                        > 0 by {
                        if t < pos {
                            assert(new_dv[t] == old_dv[t]);
                        } else if t > pos {
                            assert(new_dv[t] == old_dv[t - 1]);
                        }
                    }
                    // every non-ignored entry's key has a group
                    assert forall|ei: int|
                        0 <= ei < prefix1.len() && !(#[trigger] prefix1[ei]).ignored implies exists|
                        g: int,
                    |
                        0 <= g < new_dv.len() && (#[trigger] new_dv[g]).key == group_key(
                            prefix1[ei].path,
                        ) by {
                        if ei < prefix.len() {
                            assert(prefix1[ei] == prefix[ei]);
                            let g0 = choose|g: int|
                                0 <= g < old_dv.len() && (#[trigger] old_dv[g]).key == group_key(
                                    prefix[ei].path,
                                );
                            let gn = if g0 < pos { g0 } else { g0 + 1 };
                            assert(new_dv[gn].key == old_dv[g0].key);
                        } else {
                            assert(prefix1[ei] == ep);
                            assert(new_dv[pos as int].key == group_key(ep.path));
                        }
                    }
                    // the multiset grows by exactly this entry's placement
                    lemma_placed_insert(old_dv, pos as int, gnew);
                    assert(group_placed(gnew) =~= seq![p]);
                    assert(seq![p].to_multiset() =~= Multiset::<PlacedV>::empty().insert(p));
                    assert(placed_of_groups(new_dv).to_multiset() =~= placed_of_groups(
                        old_dv,
                    ).to_multiset().insert(p));
                    lemma_placed_entries_push(prefix, ep);
                }
            }
        }
        i += 1;
    }
    assert(entries.deep_view().subrange(0, n as int) =~= entries.deep_view());
    groups
}

/// The keys of a report, in report order.
pub open spec fn keys_of(groups: Seq<DirGroupV>) -> Seq<Seq<u8>> {
    groups.map_values(|g: DirGroupV| g.key)
}

/// Two strictly ascending key sequences with the same members are the
/// same sequence.
proof fn lemma_sorted_unique_eq(a: Seq<Seq<u8>>, b: Seq<Seq<u8>>)
    requires
        forall|i: int, j: int| 0 <= i < j < a.len() ==> lex_lt(a[i], a[j]),
        forall|i: int, j: int| 0 <= i < j < b.len() ==> lex_lt(b[i], b[j]),
        forall|k: Seq<u8>| a.contains(k) <==> b.contains(k),
    ensures
        a == b,
    decreases a.len(),
{
    if a.len() == 0 {
        if b.len() > 0 {
            assert(b.contains(b[0]));
        }
        assert(a =~= b);
    } else if b.len() == 0 {
        assert(a.contains(a[0]));
    } else {
        assert(a.contains(a[0]));
        assert(b.contains(b[0]));
        let j = choose|j: int| 0 <= j < b.len() && b[j] == a[0];
        let i = choose|i: int| 0 <= i < a.len() && a[i] == b[0];
        if i > 0 && j > 0 {
            assert(lex_lt(b[0], b[j]));
            assert(lex_lt(a[0], a[i]));
            lemma_lex_asymmetric(a[0], a[i]);
        }
        assert(a[0] == b[0]);
        assert forall|k: Seq<u8>| a.drop_first().contains(k) implies b.drop_first().contains(
            k,
        ) by {
            let t = choose|t: int| 0 <= t < a.drop_first().len() && a.drop_first()[t] == k;
            assert(a[t + 1] == k);
            assert(a.contains(k));
            let u = choose|u: int| 0 <= u < b.len() && b[u] == k;
            if u == 0 {
                assert(lex_lt(a[0], a[t + 1]));
                lemma_lex_asymmetric(a[0], a[t + 1]);
            }
            assert(b.drop_first()[u - 1] == k);
        }
        assert forall|k: Seq<u8>| b.drop_first().contains(k) implies a.drop_first().contains(
            k,
        ) by {
            let t = choose|t: int| 0 <= t < b.drop_first().len() && b.drop_first()[t] == k;
            assert(b[t + 1] == k);
            assert(b.contains(k));
            let u = choose|u: int| 0 <= u < a.len() && a[u] == k;
            if u == 0 {
                assert(lex_lt(b[0], b[t + 1]));
                lemma_lex_asymmetric(b[0], b[t + 1]);
            }
            assert(a.drop_first()[u - 1] == k);
        }
        assert forall|i2: int, j2: int|
            0 <= i2 < j2 < a.drop_first().len() implies lex_lt(
            a.drop_first()[i2],
            a.drop_first()[j2],
        ) by {
            assert(a.drop_first()[i2] == a[i2 + 1]);
            assert(a.drop_first()[j2] == a[j2 + 1]);
        }
        assert forall|i2: int, j2: int|
            0 <= i2 < j2 < b.drop_first().len() implies lex_lt(
            b.drop_first()[i2],
            b.drop_first()[j2],
        ) by {
            assert(b.drop_first()[i2] == b[i2 + 1]);
            assert(b.drop_first()[j2] == b[j2 + 1]);
        }
        lemma_sorted_unique_eq(a.drop_first(), b.drop_first());
        assert(a =~= Seq::empty().push(a[0]) + a.drop_first());
        assert(b =~= Seq::empty().push(b[0]) + b.drop_first());
    }
}

/// Deterministic ordering: the grouping relation determines the report
/// uniquely, so grouping the same entry sequence twice yields the same
/// directory-key ordering and the same intra-directory ordering.
pub proof fn lemma_grouping_deterministic(
    entries: Seq<EntryV>,
    g1: Seq<DirGroupV>,
    g2: Seq<DirGroupV>,
)
    requires
        is_grouping(entries, g1),
        is_grouping(entries, g2),
    ensures
        g1 == g2,
{
    let k1 = keys_of(g1);
    let k2 = keys_of(g2);
    assert forall|k: Seq<u8>| k1.contains(k) implies k2.contains(k) by {
        let t = choose|t: int| 0 <= t < k1.len() && k1[t] == k;
        assert(g1[t].key == k);
        assert(g1[t].files == files_for(entries, k));
        lemma_files_for_entry(entries, k);
        let ei = choose|ei: int|
            0 <= ei < entries.len() && !(#[trigger] entries[ei]).ignored && group_key(
                entries[ei].path,
            ) == k;
        let g = choose|g: int|
            0 <= g < g2.len() && (#[trigger] g2[g]).key == group_key(entries[ei].path);
        assert(k2[g] == k);
    }
    assert forall|k: Seq<u8>| k2.contains(k) implies k1.contains(k) by {
        let t = choose|t: int| 0 <= t < k2.len() && k2[t] == k;
        assert(g2[t].key == k);
        assert(g2[t].files == files_for(entries, k));
        lemma_files_for_entry(entries, k);
        let ei = choose|ei: int|
            0 <= ei < entries.len() && !(#[trigger] entries[ei]).ignored && group_key(
                entries[ei].path,
            ) == k;
        let g = choose|g: int|
            0 <= g < g1.len() && (#[trigger] g1[g]).key == group_key(entries[ei].path);
        assert(k1[g] == k);
    }
    assert forall|i: int, j: int| 0 <= i < j < k1.len() implies lex_lt(k1[i], k1[j]) by {
        assert(k1[i] == g1[i].key);
        assert(k1[j] == g1[j].key);
    }
    assert forall|i: int, j: int| 0 <= i < j < k2.len() implies lex_lt(k2[i], k2[j]) by {
        assert(k2[i] == g2[i].key);
        assert(k2[j] == g2[j].key);
    }
    lemma_sorted_unique_eq(k1, k2);
    assert forall|t: int| 0 <= t < g1.len() implies g1[t] == g2[t] by {
        assert(g1[t].key == k1[t]);
        assert(g2[t].key == k2[t]);
        assert(g1[t].files == files_for(entries, g1[t].key));
        assert(g2[t].files == files_for(entries, g2[t].key));
        assert(g1[t] == DirGroupV { key: g1[t].key, files: g1[t].files });
        assert(g2[t] == DirGroupV { key: g2[t].key, files: g2[t].files });
    }
    assert(g1 =~= g2);
}

} // verus!
