//! The inventory of a scan: the mountpoints, the files, the folder and link
//! trees, and the summary counts by category and by mountpoint.

use vstd::prelude::*;
use crate::accounting::duplicates::{duplicate_groups_of, find_duplicate_candidates, DuplicateGroup};
use crate::accounting::size_tree::{all_size, build_folder_tree, folder_tree_of, lemma_all_size_prefix, FolderNode};
use crate::discovery::file_info::{category_name, now, FileInfo, MountpointInfo, Timestamp};
use crate::discovery::symlink_mapper::SymlinkTreeNode;
use crate::keyed::{has_name, insert_keyed, keyed_insert, locate_name, names_sorted};
use crate::text::chars_of;
use crate::utils::human_size::{format_bytes, format_bytes_spec};

verus! {

/// How many files of a category there are and their total size, formatted.
#[derive(Debug, Clone, PartialEq, Eq)]
pub struct CategorySummary {
    pub count: usize,
    pub size_human: String,
}

/// How many files a mountpoint holds and their total size, formatted.
#[derive(Debug, Clone, PartialEq, Eq)]
pub struct MountpointSummary {
    pub count: usize,
    pub size_human: String,
}

/// The totals of an inventory; `by_category` and `by_mountpoint` are keyed
/// by category name and mountpoint path, in increasing key order.
#[derive(Debug, Clone, PartialEq, Eq)]
pub struct InventorySummary {
    pub total_files: usize,
    pub total_size_bytes: u64,
    pub total_size_human: String,
    pub by_category: Vec<(String, CategorySummary)>,
    pub by_mountpoint: Vec<(String, MountpointSummary)>,
    pub duplicate_candidates: usize,
}

/// Everything a scan found: `folder_tree` and `symlink_tree` are keyed by
/// mountpoint and application root, in increasing key order.
#[derive(Debug)]
pub struct Inventory {
    pub version: u32,
    pub scan_timestamp: Timestamp,
    pub mountpoints: Vec<MountpointInfo>,
    pub files: Vec<FileInfo>,
    pub folder_tree: Vec<(String, FolderNode)>,
    pub symlink_tree: Vec<(String, SymlinkTreeNode)>,
    pub summary: InventorySummary,
}

/// The key a file is counted under: its category's name or its mountpoint.
pub open spec fn file_key(f: FileInfo, by_category: bool) -> Seq<char> {
    if by_category { category_name(f.category) } else { f.mountpoint@ }
}

/// The number of files counted under `key`.
pub open spec fn key_files(files: Seq<FileInfo>, by_category: bool, key: Seq<char>) -> nat
    decreases files.len(),
{
    if files.len() == 0 {
        0
    } else {
        key_files(files.drop_last(), by_category, key) + if file_key(files.last(), by_category) == key { 1nat } else { 0 }
    }
}

/// The total size of the files counted under `key`.
pub open spec fn key_bytes(files: Seq<FileInfo>, by_category: bool, key: Seq<char>) -> nat
    decreases files.len(),
{
    if files.len() == 0 {
        0
    } else {
        key_bytes(files.drop_last(), by_category, key) + if file_key(files.last(), by_category) == key {
            files.last().size_bytes as nat
        } else {
            0
        }
    }
}

/// Whether `entries` hold, for each key some file is counted under and no
/// other, the number and total size of those files, keys in increasing order.
pub open spec fn tallied(entries: Seq<(String, (usize, u64))>, files: Seq<FileInfo>, by_category: bool) -> bool {
    &&& names_sorted(entries)
    &&& forall|i: int| 0 <= i < entries.len() ==> {
        let key = (#[trigger] entries[i]).0@;
        &&& entries[i].1.0 == key_files(files, by_category, key)
        &&& entries[i].1.1 == key_bytes(files, by_category, key)
        &&& key_files(files, by_category, key) > 0
    }
    &&& forall|k: int| 0 <= k < files.len() ==> #[trigger] has_name(entries, file_key(files[k], by_category))
}

proof fn lemma_key_bounds(files: Seq<FileInfo>, by_category: bool, key: Seq<char>)
    ensures
        key_files(files, by_category, key) <= files.len(),
        key_bytes(files, by_category, key) <= all_size(files),
    decreases files.len(),
{
    if files.len() > 0 {
        lemma_key_bounds(files.drop_last(), by_category, key);
    }
}

/// The count and total size of the files under each key.
fn tally(files: &[FileInfo], by_category: bool) -> (r: Vec<(String, (usize, u64))>)
    requires
        all_size(files@) <= u64::MAX,
    ensures
        tallied(r@, files@, by_category),
{
    let mut entries: Vec<(String, (usize, u64))> = Vec::new();
    let n = files.len();
    let mut i: usize = 0;
    while i < files.len()
        invariant
            i <= files@.len(),
            n == files@.len(),
            all_size(files@) <= u64::MAX,
            tallied(entries@, files@.take(i as int), by_category),
        decreases files@.len() - i,
    {
        let f = &files[i];
        let ghost pre = files@.take(i as int);
        let ghost nxt = files@.take(i + 1);
        let key: String = if by_category { f.category.as_str().to_owned() } else { f.mountpoint.clone() };
        proof {
            assert(nxt.drop_last() =~= pre);
            assert(nxt.last() == files@[i as int]);
            assert(files@[i as int] == *f);
            assert(key@ == file_key(*f, by_category));
            lemma_all_size_prefix(files@, i + 1);
            lemma_key_bounds(nxt, by_category, key@);
        }
        let kc = chars_of(key.as_str());
        let (found, pos) = locate_name(&entries, kc.as_slice());
        let ghost old_entries = entries@;
        let value: (usize, u64) = if found {
            let (c, b) = entries[pos].1;
            proof {
                assert(c == key_files(pre, by_category, key@));
                assert(b == key_bytes(pre, by_category, key@));
            }
            (c + 1, b + f.size_bytes)
        } else {
            proof {
                assert(key_files(pre, by_category, key@) == 0) by {
                    lemma_key_absent(pre, by_category, key@, old_entries);
                }
                assert(key_bytes(pre, by_category, key@) == 0) by {
                    lemma_key_absent(pre, by_category, key@, old_entries);
                }
            }
            (1, f.size_bytes)
        };
        let ghost kv = key@;
        insert_keyed(&mut entries, key, value);
        proof {
            assert(nxt =~= pre.push(*f));
            lemma_tally_step(entries@, old_entries, pre, *f, by_category, kv, value);
        }
        i = i + 1;
    }
    proof {
        assert(files@.take(files@.len() as int) =~= files@);
    }
    entries
}

proof fn lemma_key_push(pre: Seq<FileInfo>, f: FileInfo, by_category: bool, kk: Seq<char>)
    ensures
        key_files(pre.push(f), by_category, kk) == key_files(pre, by_category, kk) + if file_key(f, by_category) == kk { 1nat } else { 0 },
        key_bytes(pre.push(f), by_category, kk) == key_bytes(pre, by_category, kk) + if file_key(f, by_category) == kk { f.size_bytes as nat } else { 0 },
{
    assert(pre.push(f).drop_last() =~= pre);
}

proof fn lemma_tally_counts(
    nw: Seq<(String, (usize, u64))>, old_entries: Seq<(String, (usize, u64))>,
    pre: Seq<FileInfo>, f: FileInfo, by_category: bool, kc: Seq<char>, value: (usize, u64),
)
    requires
        tallied(old_entries, pre, by_category),
        kc == file_key(f, by_category),
        keyed_insert(nw, old_entries, kc, value),
        value.0 == key_files(pre, by_category, kc) + 1,
        value.1 == key_bytes(pre, by_category, kc) + f.size_bytes,
    ensures
        forall|j: int| 0 <= j < nw.len() ==> {
            let kk = (#[trigger] nw[j]).0@;
            &&& nw[j].1.0 == key_files(pre.push(f), by_category, kk)
            &&& nw[j].1.1 == key_bytes(pre.push(f), by_category, kk)
            &&& key_files(pre.push(f), by_category, kk) > 0
        },
{
    assert forall|j: int| 0 <= j < nw.len() implies {
        let kk = (#[trigger] nw[j]).0@;
        &&& nw[j].1.0 == key_files(pre.push(f), by_category, kk)
        &&& nw[j].1.1 == key_bytes(pre.push(f), by_category, kk)
        &&& key_files(pre.push(f), by_category, kk) > 0
    } by {
        lemma_key_push(pre, f, by_category, nw[j].0@);
        if nw[j].0@ != kc {
            let j0 = choose|j0: int| 0 <= j0 < old_entries.len() && #[trigger] nw[j] == #[trigger] old_entries[j0];
            assert(old_entries[j0].0@ == nw[j].0@);
        } else {
            let w = choose|w: int| 0 <= w < nw.len() && #[trigger] nw[w].0@ == kc && nw[w].1 == value;
            assert(w == j) by {
                if w != j {
                    crate::text_order::lemma_lt_irreflexive(kc);
                }
            }
        }
    }
}

proof fn lemma_tally_keys(
    nw: Seq<(String, (usize, u64))>, old_entries: Seq<(String, (usize, u64))>,
    pre: Seq<FileInfo>, f: FileInfo, by_category: bool, kc: Seq<char>, value: (usize, u64),
)
    requires
        forall|k: int| 0 <= k < pre.len() ==> #[trigger] has_name(old_entries, file_key(pre[k], by_category)),
        kc == file_key(f, by_category),
        keyed_insert(nw, old_entries, kc, value),
    ensures
        forall|k: int| 0 <= k < pre.push(f).len() ==> #[trigger] has_name(nw, file_key(pre.push(f)[k], by_category)),
{
    let nxt = pre.push(f);
    assert forall|k: int| 0 <= k < nxt.len() implies #[trigger] has_name(nw, file_key(nxt[k], by_category)) by {
        if k == pre.len() {
            let w = choose|w: int| 0 <= w < nw.len() && #[trigger] nw[w].0@ == kc && nw[w].1 == value;
            assert(nw[w].0@ == file_key(nxt[k], by_category));
        } else {
            assert(nxt[k] == pre[k]);
            assert(has_name(old_entries, file_key(pre[k], by_category)));
            let j0 = choose|j0: int| 0 <= j0 < old_entries.len() && #[trigger] old_entries[j0].0@ == file_key(pre[k], by_category);
            if old_entries[j0].0@ == kc {
                let w = choose|w: int| 0 <= w < nw.len() && #[trigger] nw[w].0@ == kc && nw[w].1 == value;
                assert(nw[w].0@ == file_key(nxt[k], by_category));
            } else {
                let w = choose|w: int| 0 <= w < nw.len() && #[trigger] nw[w] == #[trigger] old_entries[j0];
                assert(nw[w].0@ == file_key(nxt[k], by_category));
            }
        }
    }
}

proof fn lemma_tally_step(
    nw: Seq<(String, (usize, u64))>, old_entries: Seq<(String, (usize, u64))>,
    pre: Seq<FileInfo>, f: FileInfo, by_category: bool, kc: Seq<char>, value: (usize, u64),
)
    requires
        tallied(old_entries, pre, by_category),
        kc == file_key(f, by_category),
        keyed_insert(nw, old_entries, kc, value),
        value.0 == key_files(pre, by_category, kc) + 1,
        value.1 == key_bytes(pre, by_category, kc) + f.size_bytes,
    ensures
        tallied(nw, pre.push(f), by_category),
{
    lemma_tally_counts(nw, old_entries, pre, f, by_category, kc, value);
    lemma_tally_keys(nw, old_entries, pre, f, by_category, kc, value);
}

proof fn lemma_key_absent(files: Seq<FileInfo>, by_category: bool, key: Seq<char>, entries: Seq<(String, (usize, u64))>)
    requires
        forall|k: int| 0 <= k < files.len() ==> #[trigger] has_name(entries, file_key(files[k], by_category)),
        forall|j: int| 0 <= j < entries.len() ==> entries[j].0@ != key,
    ensures
        key_files(files, by_category, key) == 0,
        key_bytes(files, by_category, key) == 0,
    decreases files.len(),
{
    if files.len() > 0 {
        let last = files.len() - 1;
        assert(has_name(entries, file_key(files[last], by_category)));
        assert forall|k: int| 0 <= k < files.drop_last().len() implies #[trigger] has_name(entries, file_key(files.drop_last()[k], by_category)) by {
            assert(files.drop_last()[k] == files[k]);
        }
        lemma_key_absent(files.drop_last(), by_category, key, entries);
    }
}

/// Whether `r` holds, by category name in increasing order, the number of
/// files of each category present and their total size, formatted.
pub open spec fn category_summaries(r: Seq<(String, CategorySummary)>, files: Seq<FileInfo>) -> bool {
    &&& names_sorted(r)
    &&& forall|i: int| 0 <= i < r.len() ==> {
        let key = (#[trigger] r[i]).0@;
        &&& r[i].1.count == key_files(files, true, key)
        &&& r[i].1.size_human@ == format_bytes_spec(key_bytes(files, true, key))
        &&& key_files(files, true, key) > 0
    }
    &&& forall|k: int| 0 <= k < files.len() ==> #[trigger] has_name(r, file_key(files[k], true))
}

/// Whether `r` holds, by mountpoint in increasing order, the number of files
/// on each mountpoint present and their total size, formatted.
pub open spec fn mountpoint_summaries(r: Seq<(String, MountpointSummary)>, files: Seq<FileInfo>) -> bool {
    &&& names_sorted(r)
    &&& forall|i: int| 0 <= i < r.len() ==> {
        let key = (#[trigger] r[i]).0@;
        &&& r[i].1.count == key_files(files, false, key)
        &&& r[i].1.size_human@ == format_bytes_spec(key_bytes(files, false, key))
        &&& key_files(files, false, key) > 0
    }
    &&& forall|k: int| 0 <= k < files.len() ==> #[trigger] has_name(r, file_key(files[k], false))
}

/// The category summaries from a tally by category.
fn category_entries(t: Vec<(String, (usize, u64))>, Ghost(files): Ghost<Seq<FileInfo>>) -> (r: Vec<(String, CategorySummary)>)
    requires
        tallied(t@, files, true),
    ensures
        category_summaries(r@, files),
{
    let ghost orig = t@;
    let mut rest = t;
    let mut out: Vec<(String, CategorySummary)> = Vec::new();
    let mut m: usize = 0;
    let n = rest.len();
    proof {
        assert(rest@ =~= orig.skip(0));
    }
    while rest.len() > 0
        invariant
            m <= orig.len(),
            n == orig.len(),
            rest@ == orig.skip(m as int),
            out@.len() == m,
            tallied(orig, files, true),
            forall|i: int| 0 <= i < m ==> (#[trigger] out@[i]).0@ == orig[i].0@ && out@[i].1.count == orig[i].1.0
                && out@[i].1.size_human@ == format_bytes_spec(orig[i].1.1 as nat),
        decreases rest@.len(),
    {
        let (key, (count, size)) = rest.remove(0);
        proof {
            assert(rest@ =~= orig.skip(m + 1));
            assert(key == orig[m as int].0 && count == orig[m as int].1.0 && size == orig[m as int].1.1);
        }
        out.push((key, CategorySummary { count, size_human: format_bytes(size) }));
        m = m + 1;
    }
    proof {
        assert(m == orig.len()) by {
            assert(orig.skip(m as int).len() == 0);
        }
        let r = out@;
        assert forall|a: int, b: int| 0 <= a < b < r.len() implies crate::text_order::seq_lt(#[trigger] r[a].0@, #[trigger] r[b].0@) by {
            assert(r[a].0@ == orig[a].0@ && r[b].0@ == orig[b].0@);
        }
        assert forall|k: int| 0 <= k < files.len() implies #[trigger] has_name(r, file_key(files[k], true)) by {
            assert(has_name(orig, file_key(files[k], true)));
            let j = choose|j: int| 0 <= j < orig.len() && #[trigger] orig[j].0@ == file_key(files[k], true);
            assert(r[j].0@ == orig[j].0@);
        }
    }
    out
}

/// The mountpoint summaries from a tally by mountpoint.
fn mountpoint_entries(t: Vec<(String, (usize, u64))>, Ghost(files): Ghost<Seq<FileInfo>>) -> (r: Vec<(String, MountpointSummary)>)
    requires
        tallied(t@, files, false),
    ensures
        mountpoint_summaries(r@, files),
{
    let ghost orig = t@;
    let mut rest = t;
    let mut out: Vec<(String, MountpointSummary)> = Vec::new();
    let mut m: usize = 0;
    let n = rest.len();
    proof {
        assert(rest@ =~= orig.skip(0));
    }
    while rest.len() > 0
        invariant
            m <= orig.len(),
            n == orig.len(),
            rest@ == orig.skip(m as int),
            out@.len() == m,
            tallied(orig, files, false),
            forall|i: int| 0 <= i < m ==> (#[trigger] out@[i]).0@ == orig[i].0@ && out@[i].1.count == orig[i].1.0
                && out@[i].1.size_human@ == format_bytes_spec(orig[i].1.1 as nat),
        decreases rest@.len(),
    {
        let (key, (count, size)) = rest.remove(0);
        proof {
            assert(rest@ =~= orig.skip(m + 1));
            assert(key == orig[m as int].0 && count == orig[m as int].1.0 && size == orig[m as int].1.1);
        }
        out.push((key, MountpointSummary { count, size_human: format_bytes(size) }));
        m = m + 1;
    }
    proof {
        assert(m == orig.len()) by {
            assert(orig.skip(m as int).len() == 0);
        }
        let r = out@;
        assert forall|a: int, b: int| 0 <= a < b < r.len() implies crate::text_order::seq_lt(#[trigger] r[a].0@, #[trigger] r[b].0@) by {
            assert(r[a].0@ == orig[a].0@ && r[b].0@ == orig[b].0@);
        }
        assert forall|k: int| 0 <= k < files.len() implies #[trigger] has_name(r, file_key(files[k], false)) by {
            assert(has_name(orig, file_key(files[k], false)));
            let j = choose|j: int| 0 <= j < orig.len() && #[trigger] orig[j].0@ == file_key(files[k], false);
            assert(r[j].0@ == orig[j].0@);
        }
    }
    out
}

/// The total size of the files.
fn total_bytes(files: &[FileInfo]) -> (r: u64)
    requires
        all_size(files@) <= u64::MAX,
    ensures
        r == all_size(files@),
{
    let mut total: u64 = 0;
    let mut i: usize = 0;
    while i < files.len()
        invariant
            i <= files@.len(),
            all_size(files@) <= u64::MAX,
            total == all_size(files@.take(i as int)),
        decreases files@.len() - i,
    {
        proof {
            assert(files@.take(i + 1).drop_last() =~= files@.take(i as int));
            lemma_all_size_prefix(files@, i + 1);
        }
        total = total + files[i].size_bytes;
        i = i + 1;
    }
    proof {
        assert(files@.take(files@.len() as int) =~= files@);
    }
    total
}

/// Whether `inv` is the inventory of `files` on `mountpoints` with the link
/// trees `symlink_tree`: the folder trees and summaries are those of the
/// files, and the duplicate count is the number of duplicate groups.
pub open spec fn inventory_of(inv: Inventory, mountpoints: Seq<MountpointInfo>, files: Seq<FileInfo>, symlink_tree: Seq<(String, SymlinkTreeNode)>) -> bool {
    &&& inv.version == 1
    &&& inv.mountpoints@ == mountpoints
    &&& inv.files@ == files
    &&& inv.symlink_tree@ == symlink_tree
    &&& folder_tree_of(inv.folder_tree@, files)
    &&& inv.summary.total_files == files.len()
    &&& inv.summary.total_size_bytes == all_size(files)
    &&& inv.summary.total_size_human@ == format_bytes_spec(all_size(files))
    &&& category_summaries(inv.summary.by_category@, files)
    &&& mountpoint_summaries(inv.summary.by_mountpoint@, files)
    &&& exists|groups: Seq<DuplicateGroup>| duplicate_groups_of(groups, files) && inv.summary.duplicate_candidates == groups.len()
}

impl Inventory {
    /// The inventory of a scan made at `scan_timestamp`.
    pub fn build_at(mountpoints: Vec<MountpointInfo>, files: Vec<FileInfo>, symlink_tree: Vec<(String, SymlinkTreeNode)>, scan_timestamp: Timestamp) -> (r: Inventory)
        requires
            all_size(files@) <= u64::MAX,
        ensures
            inventory_of(r, mountpoints@, files@, symlink_tree@),
            r.scan_timestamp == scan_timestamp,
    {
        let folder_tree = build_folder_tree(files.as_slice());
        let duplicates = find_duplicate_candidates(files.as_slice());
        let total = total_bytes(files.as_slice());
        let by_category = category_entries(tally(files.as_slice(), true), Ghost(files@));
        let by_mountpoint = mountpoint_entries(tally(files.as_slice(), false), Ghost(files@));
        let summary = InventorySummary {
            total_files: files.len(),
            total_size_bytes: total,
            total_size_human: format_bytes(total),
            by_category,
            by_mountpoint,
            duplicate_candidates: duplicates.len(),
        };
        Inventory { version: 1, scan_timestamp, mountpoints, files, folder_tree, symlink_tree, summary }
    }

    /// The inventory of a scan made now; `None` when the system clock cannot
    /// be read as a time since the epoch.
    pub fn build(mountpoints: Vec<MountpointInfo>, files: Vec<FileInfo>, symlink_tree: Vec<(String, SymlinkTreeNode)>) -> (r: Option<Inventory>)
        requires
            all_size(files@) <= u64::MAX,
        ensures
            r matches Some(inv) ==> inventory_of(inv, mountpoints@, files@, symlink_tree@)
                && inv.scan_timestamp.secs >= 0 && inv.scan_timestamp.nanos < 1_000_000_000,
    {
        match now() {
            Some(t) => Some(Inventory::build_at(mountpoints, files, symlink_tree, t)),
            None => None,
        }
    }
}

} // verus!
