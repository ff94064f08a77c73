//! Duplicate candidate detection: files with the same name and exact size.

use vstd::prelude::*;
use crate::discovery::file_info::FileInfo;
use crate::text::{chars_eq, chars_of, string_of};
use crate::utils::human_size::{format_bytes, format_bytes_spec};

verus! {

/// A group of files that share a file name and an exact size.
#[derive(Debug, Clone, PartialEq, Eq)]
pub struct DuplicateGroup {
    pub filename: String,
    pub size_bytes: u64,
    pub size_human: String,
    pub file_ids: Vec<String>,
    pub paths: Vec<String>,
    pub confirmed_hash: Option<String>,
}

/// Whether file `f` has the name `name` and the size `size`.
pub open spec fn has_key(f: FileInfo, name: Seq<char>, size: u64) -> bool {
    f.filename@ == name && f.size_bytes == size
}

/// The number of files with the given name and size.
pub open spec fn key_count(files: Seq<FileInfo>, name: Seq<char>, size: u64) -> nat
    decreases files.len(),
{
    if files.len() == 0 {
        0
    } else {
        key_count(files.drop_last(), name, size) + if has_key(files.last(), name, size) {
            1nat
        } else {
            0
        }
    }
}

/// The ids of the files with the given name and size, in input order.
pub open spec fn member_ids(files: Seq<FileInfo>, name: Seq<char>, size: u64) -> Seq<Seq<char>>
    decreases files.len(),
{
    if files.len() == 0 {
        Seq::empty()
    } else {
        let p = member_ids(files.drop_last(), name, size);
        if has_key(files.last(), name, size) {
            p.push(files.last().id@)
        } else {
            p
        }
    }
}

/// The real paths of the files with the given name and size, in input order.
pub open spec fn member_paths(files: Seq<FileInfo>, name: Seq<char>, size: u64) -> Seq<Seq<char>>
    decreases files.len(),
{
    if files.len() == 0 {
        Seq::empty()
    } else {
        let p = member_paths(files.drop_last(), name, size);
        if has_key(files.last(), name, size) {
            p.push(files.last().real_path@)
        } else {
            p
        }
    }
}

/// The index of the first file with the given name and size
/// (`files.len()` if there is none).
pub open spec fn first_with_key(files: Seq<FileInfo>, name: Seq<char>, size: u64) -> int
    decreases files.len(),
{
    if files.len() == 0 {
        0
    } else if first_with_key(files.drop_last(), name, size) < files.len() - 1 {
        first_with_key(files.drop_last(), name, size)
    } else if has_key(files.last(), name, size) {
        files.len() - 1
    } else {
        files.len() as int
    }
}

/// Whether `g` is the duplicate group of its key in `files`.
pub open spec fn group_of(g: DuplicateGroup, files: Seq<FileInfo>) -> bool {
    &&& key_count(files, g.filename@, g.size_bytes) >= 2
    &&& g.size_human@ == format_bytes_spec(g.size_bytes as nat)
    &&& g.file_ids@.map_values(|x: String| x@) == member_ids(files, g.filename@, g.size_bytes)
    &&& g.paths@.map_values(|x: String| x@) == member_paths(files, g.filename@, g.size_bytes)
    &&& g.confirmed_hash is None
}

/// Whether group `a` comes before group `b`: larger sizes first, then by
/// the first appearance of their key.
pub open spec fn group_before(a: DuplicateGroup, b: DuplicateGroup, files: Seq<FileInfo>) -> bool {
    a.size_bytes > b.size_bytes || (a.size_bytes == b.size_bytes && first_with_key(
        files,
        a.filename@,
        a.size_bytes,
    ) < first_with_key(files, b.filename@, b.size_bytes))
}

/// Whether `groups` are exactly the duplicate groups of `files` in review order.
pub open spec fn duplicate_groups_of(groups: Seq<DuplicateGroup>, files: Seq<FileInfo>) -> bool {
    &&& forall|i: int| 0 <= i < groups.len() ==> group_of(#[trigger] groups[i], files)
    &&& forall|i: int, j: int| 0 <= i < j < groups.len() ==> group_before(#[trigger] groups[i], #[trigger] groups[j], files)
    &&& forall|k: int| 0 <= k < files.len() && key_count(files, files[k].filename@, files[k].size_bytes) >= 2
        ==> exists|i: int| 0 <= i < groups.len() && #[trigger] groups[i].filename@ == files[k].filename@
            && groups[i].size_bytes == files[k].size_bytes
}

proof fn lemma_first_with_key_props(files: Seq<FileInfo>, name: Seq<char>, size: u64)
    ensures
        0 <= first_with_key(files, name, size) <= files.len(),
        first_with_key(files, name, size) < files.len() ==> has_key(files[first_with_key(files, name, size)], name, size),
        forall|j: int| 0 <= j < first_with_key(files, name, size) ==> !has_key(#[trigger] files[j], name, size),
    decreases files.len(),
{
    if files.len() > 0 {
        lemma_first_with_key_props(files.drop_last(), name, size);
        let p = files.drop_last();
        assert forall|j: int| 0 <= j < first_with_key(files, name, size) implies !has_key(#[trigger] files[j], name, size) by {
            if j < p.len() {
                assert(files[j] == p[j]);
            }
        }
    }
}

/// The members of one key: `(ids, paths, count)`.
fn collect_members(files: &[FileInfo], name: &[char], size: u64) -> (r: (Vec<String>, Vec<String>, usize))
    ensures
        r.0@.map_values(|x: String| x@) == member_ids(files@, name@, size),
        r.1@.map_values(|x: String| x@) == member_paths(files@, name@, size),
        r.2 == key_count(files@, name@, size),
{
    let mut ids: Vec<String> = Vec::new();
    let mut paths: Vec<String> = Vec::new();
    let mut count: usize = 0;
    let mut i: usize = 0;
    while i < files.len()
        invariant
            i <= files@.len(),
            ids@.map_values(|x: String| x@) == member_ids(files@.take(i as int), name@, size),
            paths@.map_values(|x: String| x@) == member_paths(files@.take(i as int), name@, size),
            count == key_count(files@.take(i as int), name@, size),
            count <= i,
        decreases files@.len() - i,
    {
        let ghost pre = files@.take(i as int);
        let ghost nxt = files@.take(i + 1);
        proof {
            assert(nxt.drop_last() =~= pre);
            assert(nxt.last() == files@[i as int]);
        }
        let f = &files[i];
        if f.size_bytes == size && chars_eq(chars_of(f.filename.as_str()).as_slice(), name) {
            let ghost oi = ids@;
            let ghost op = paths@;
            ids.push(string_of(chars_of(f.id.as_str()).as_slice()));
            paths.push(string_of(chars_of(f.real_path.as_str()).as_slice()));
            count = count + 1;
            proof {
                assert(ids@.map_values(|x: String| x@) =~= oi.map_values(|x: String| x@).push(f.id@));
                assert(paths@.map_values(|x: String| x@) =~= op.map_values(|x: String| x@).push(f.real_path@));
            }
        }
        i = i + 1;
    }
    assert(files@.take(files@.len() as int) =~= files@);
    (ids, paths, count)
}

/// Whether the key of file `k` already occurs among `files[0..k]`.
fn key_seen_before(files: &[FileInfo], k: usize) -> (r: bool)
    requires
        k < files@.len(),
    ensures
        r == (first_with_key(files@, files@[k as int].filename@, files@[k as int].size_bytes) < k),
{
    proof {
        lemma_first_with_key_props(files@, files@[k as int].filename@, files@[k as int].size_bytes);
    }
    let name = chars_of(files[k].filename.as_str());
    let size = files[k].size_bytes;
    let mut j: usize = 0;
    while j < k
        invariant
            j <= k < files@.len(),
            name@ == files@[k as int].filename@,
            size == files@[k as int].size_bytes,
            forall|m: int| 0 <= m < j ==> !has_key(#[trigger] files@[m], name@, size),
            0 <= first_with_key(files@, name@, size) <= files@.len(),
            first_with_key(files@, name@, size) < files@.len() ==> has_key(files@[first_with_key(files@, name@, size)], name@, size),
            forall|m: int| 0 <= m < first_with_key(files@, name@, size) ==> !has_key(#[trigger] files@[m], name@, size),
        decreases k - j,
    {
        if files[j].size_bytes == size && chars_eq(chars_of(files[j].filename.as_str()).as_slice(), name.as_slice()) {
            return true;
        }
        j = j + 1;
    }
    false
}

/// Groups of files that share a file name and exact size (more than one file
/// each), largest sizes first; groups of equal size keep the order in which
/// their keys first appear.
pub fn find_duplicate_candidates(files: &[FileInfo]) -> (r: Vec<DuplicateGroup>)
    ensures
        duplicate_groups_of(r@, files@),
{
    let mut groups: Vec<DuplicateGroup> = Vec::new();
    let mut k: usize = 0;
    while k < files.len()
        invariant
            k <= files@.len(),
            forall|i: int| 0 <= i < groups@.len() ==> group_of(#[trigger] groups@[i], files@),
            forall|i: int| 0 <= i < groups@.len() ==> first_with_key(files@, (#[trigger] groups@[i]).filename@, groups@[i].size_bytes) < k,
            forall|i: int, j: int| 0 <= i < j < groups@.len() ==> group_before(#[trigger] groups@[i], #[trigger] groups@[j], files@),
            forall|m: int| 0 <= m < k && key_count(files@, files@[m].filename@, files@[m].size_bytes) >= 2
                ==> exists|i: int| 0 <= i < groups@.len() && #[trigger] groups@[i].filename@ == files@[m].filename@
                    && groups@[i].size_bytes == files@[m].size_bytes,
        decreases files@.len() - k,
    {
        let ghost fk = files@[k as int];
        proof {
            lemma_first_with_key_props(files@, fk.filename@, fk.size_bytes);
        }
        if !key_seen_before(files, k) {
            let name = chars_of(files[k].filename.as_str());
            let size = files[k].size_bytes;
            let (ids, paths, count) = collect_members(files, name.as_slice(), size);
            if count >= 2 {
                let g = DuplicateGroup {
                    filename: string_of(name.as_slice()),
                    size_bytes: size,
                    size_human: format_bytes(size),
                    file_ids: ids,
                    paths: paths,
                    confirmed_hash: None,
                };
                // Insert after every group at least as large.
                let mut p: usize = 0;
                while p < groups.len() && groups[p].size_bytes >= size
                    invariant
                        p <= groups@.len(),
                        forall|i: int| 0 <= i < p ==> (#[trigger] groups@[i]).size_bytes >= size,
                    decreases groups@.len() - p,
                {
                    p = p + 1;
                }
                let ghost old_groups = groups@;
                assert(first_with_key(files@, g.filename@, g.size_bytes) == k);
                proof {
                    assert forall|i: int| p <= i < old_groups.len() implies (#[trigger] old_groups[i]).size_bytes < size by {
                        if p < old_groups.len() {
                            if i > p {
                                assert(group_before(old_groups[p as int], old_groups[i], files@));
                            }
                        }
                    }
                }
                groups.insert(p, g);
                proof {
                    assert forall|i: int, j: int| 0 <= i < j < groups@.len() implies group_before(#[trigger] groups@[i], #[trigger] groups@[j], files@) by {
                        if i < p && j == p {
                            assert(groups@[i] == old_groups[i]);
                        } else if i < p && j > p {
                            assert(groups@[i] == old_groups[i]);
                            assert(groups@[j] == old_groups[j - 1]);
                        } else if i == p {
                            assert(groups@[j] == old_groups[j - 1]);
                        } else if i > p {
                            assert(groups@[i] == old_groups[i - 1]);
                            assert(groups@[j] == old_groups[j - 1]);
                        } else {
                            assert(groups@[i] == old_groups[i]);
                            assert(groups@[j] == old_groups[j]);
                        }
                    }
                    assert forall|i: int| 0 <= i < groups@.len() implies group_of(#[trigger] groups@[i], files@) by {
                        if i < p {
                            assert(groups@[i] == old_groups[i]);
                        } else if i > p {
                            assert(groups@[i] == old_groups[i - 1]);
                        }
                    }
                    assert forall|i: int| 0 <= i < groups@.len() implies first_with_key(files@, (#[trigger] groups@[i]).filename@, groups@[i].size_bytes) < k + 1 by {
                        if i < p {
                            assert(groups@[i] == old_groups[i]);
                        } else if i > p {
                            assert(groups@[i] == old_groups[i - 1]);
                        }
                    }
                    assert forall|m: int| 0 <= m < k + 1 && key_count(files@, files@[m].filename@, files@[m].size_bytes) >= 2
                        implies exists|i: int| 0 <= i < groups@.len() && #[trigger] groups@[i].filename@ == files@[m].filename@
                            && groups@[i].size_bytes == files@[m].size_bytes by {
                        if m < k {
                            let i0 = choose|i: int| 0 <= i < old_groups.len() && #[trigger] old_groups[i].filename@ == files@[m].filename@
                                && old_groups[i].size_bytes == files@[m].size_bytes;
                            if i0 < p {
                                assert(groups@[i0] == old_groups[i0]);
                            } else {
                                assert(groups@[i0 + 1] == old_groups[i0]);
                            }
                        } else {
                            assert(groups@[p as int] == g);
                        }
                    }
                }
            } else {
                proof {
                    assert(key_count(files@, fk.filename@, fk.size_bytes) < 2);
                }
            }
        } else {
            proof {
                let f0 = first_with_key(files@, fk.filename@, fk.size_bytes);
                assert(has_key(files@[f0], fk.filename@, fk.size_bytes));
                assert(files@[f0].filename@ == fk.filename@);
            }
        }
        k = k + 1;
    }
    groups
}

} // verus!
