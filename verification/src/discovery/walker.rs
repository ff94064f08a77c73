//! What a scan of the mountpoints keeps: the record made of each model file
//! found, the ordering and numbering of the whole inventory, and the disk
//! facts chosen for a mountpoint.

use vstd::prelude::*;
use super::file_info::{FileInfo, MountpointInfo, Timestamp};
use super::filters::{category_rules, detect_category, excluded, is_model_ext_lower,
    is_model_extension, lowered_ext, lowered_name, should_exclude_path};
use crate::text::{chars_of, lowercase_of, string_of, to_lowercase};
use crate::text_order::{chars_lt, lemma_lt_irreflexive, lemma_lt_total, lemma_lt_transitive, seq_lt};
use crate::utils::human_size::{format_bytes, format_bytes_spec, zero_padded, zero_padded_chars};
use crate::utils::path_utils::{best_match, file_name, file_name_of, find_matching_mountpoint,
    get_relative_path, normalize_path, normalized, path_starts_with, relative_of, split_extension,
    starts_with_path};

verus! {

/// The file name of a path, or the empty text when it has none.
pub open spec fn name_or_empty(p: Seq<char>) -> Seq<char> {
    match file_name_of(p) {
        Some(n) => n,
        None => Seq::empty(),
    }
}

/// The file name of `path` (empty when it has none).
fn file_name_text(path: &str) -> (r: String)
    ensures
        r@ == name_or_empty(path@),
{
    let p = chars_of(path);
    match file_name(p.as_slice()) {
        Some(n) => string_of(n.as_slice()),
        None => String::new(),
    }
}

/// The lower-cased extension of `path` (empty when it has none).
fn lowered_extension(path: &str) -> (r: String)
    ensures
        r@ == lowered_ext(path@),
{
    let p = chars_of(path);
    match file_name(p.as_slice()) {
        Some(n) => {
            let (_stem, e) = split_extension(n.as_slice());
            match e {
                Some(ev) => {
                    let es = string_of(ev.as_slice());
                    to_lowercase(es.as_str())
                },
                None => String::new(),
            }
        },
        None => String::new(),
    }
}

/// Whether no mountpoint is a component-wise prefix of `file`.
pub open spec fn no_match(file: Seq<char>, canons: Seq<String>) -> bool {
    forall|j: int| 0 <= j < canons.len() ==> !path_starts_with(file, #[trigger] canons[j]@)
}

/// Whether `f` is the record of the model file at `path` as a scan makes it:
/// its mountpoint is the configured one that best matches the canonical
/// path (or the scanned root when none does), and its relative path is
/// taken against that mountpoint's canonical path.
pub open spec fn scanned_record(
    f: FileInfo,
    path: Seq<char>,
    path_canon: Seq<char>,
    mountpoints: Seq<String>,
    mountpoint_canons: Seq<String>,
    scan_root: Seq<char>,
    size_bytes: u64,
    modified_at: Option<Timestamp>,
) -> bool {
    &&& f.id@ == Seq::<char>::empty()
    &&& f.real_path@ == normalized(path)
    &&& f.filename@ == name_or_empty(path)
    &&& f.extension@ == lowered_ext(path)
    &&& f.category == category_rules(lowercase_of(path), lowered_name(path), lowered_ext(path), size_bytes as nat)
    &&& f.size_bytes == size_bytes
    &&& f.size_human@ == format_bytes_spec(size_bytes as nat)
    &&& f.blake3_hash is None
    &&& f.modified_at == modified_at
    &&& f.symlinked_from@.len() == 0
    &&& {
        ||| exists|i: int| best_match(path_canon, mountpoint_canons, i)
            && f.mountpoint@ == normalized(mountpoints[i]@)
            && f.relative_path@ == normalized(relative_of(path_canon, mountpoint_canons[i]@))
        ||| no_match(path_canon, mountpoint_canons)
            && f.mountpoint@ == normalized(scan_root)
            && f.relative_path@ == normalized(relative_of(path_canon, scan_root))
    }
}

/// The record of a regular file met while scanning the mountpoint whose
/// canonical path is `scan_root`: `None` when the path is excluded or its
/// extension (lower-cased, then checked in any case) is not a model
/// extension. `path` is the file's path under the
/// scanned root and `path_canon` its canonical form; `mountpoints` are the
/// configured mountpoints and `mountpoint_canons` their canonical forms.
pub fn scanned_file(
    path: &str,
    path_canon: &str,
    mountpoints: &[String],
    mountpoint_canons: &[String],
    scan_root: &str,
    size_bytes: u64,
    modified_at: Option<Timestamp>,
) -> (r: Option<FileInfo>)
    requires
        mountpoints@.len() == mountpoint_canons@.len(),
        forall|i: int| 0 <= i < mountpoint_canons@.len() ==> #[trigger] mountpoint_canons@[i]@.len() < 0x1000_0000_0000,
    ensures
        r is None <==> excluded(path@) || !is_model_ext_lower(lowercase_of(lowered_ext(path@))),
        r matches Some(f) ==> scanned_record(f, path@, path_canon@, mountpoints@, mountpoint_canons@, scan_root@, size_bytes, modified_at),
{
    if should_exclude_path(path) {
        return None;
    }
    let ext = lowered_extension(path);
    if !is_model_extension(ext.as_str()) {
        return None;
    }
    let filename = file_name_text(path);
    let category = detect_category(path, size_bytes);
    let (mountpoint, relative) = match find_matching_mountpoint(path_canon, mountpoint_canons) {
        Some(i) => (normalize_path(mountpoints[i].as_str()), get_relative_path(path_canon, mountpoint_canons[i].as_str())),
        None => (normalize_path(scan_root), get_relative_path(path_canon, scan_root)),
    };
    Some(FileInfo {
        id: String::new(),
        real_path: normalize_path(path),
        filename,
        extension: ext,
        category,
        size_bytes,
        size_human: format_bytes(size_bytes),
        blake3_hash: None,
        modified_at,
        mountpoint,
        relative_path: normalize_path(relative.as_str()),
        symlinked_from: Vec::new(),
    })
}

/// The id of the `n`-th file of the inventory (`f-0001`, ...).
pub open spec fn file_id_text(n: nat) -> Seq<char> {
    "f-"@ + zero_padded(n, 4)
}

/// Whether the real paths of `files` strictly increase.
pub open spec fn paths_sorted(files: Seq<FileInfo>) -> bool {
    forall|i: int, j: int| 0 <= i < j < files.len() ==> seq_lt(#[trigger] files[i].real_path@, #[trigger] files[j].real_path@)
}

/// Whether `k` is the first index of `files` with real path `p`.
pub open spec fn first_with_path(files: Seq<FileInfo>, p: Seq<char>, k: int) -> bool {
    &&& 0 <= k < files.len()
    &&& files[k].real_path@ == p
    &&& forall|m: int| 0 <= m < k ==> (#[trigger] files[m]).real_path@ != p
}

/// Whether `a` is `b` but for its id.
pub open spec fn same_but_id(a: FileInfo, b: FileInfo) -> bool {
    &&& a.real_path == b.real_path
    &&& a.filename == b.filename
    &&& a.extension == b.extension
    &&& a.category == b.category
    &&& a.size_bytes == b.size_bytes
    &&& a.size_human == b.size_human
    &&& a.blake3_hash == b.blake3_hash
    &&& a.modified_at == b.modified_at
    &&& a.mountpoint == b.mountpoint
    &&& a.relative_path == b.relative_path
    &&& a.symlinked_from == b.symlinked_from
}

/// Whether some file of `r` has real path `p`.
pub open spec fn lists_path(r: Seq<FileInfo>, p: Seq<char>) -> bool {
    exists|i: int| 0 <= i < r.len() && #[trigger] r[i].real_path@ == p
}

/// Whether `r` is the inventory made of the scanned `files`: one file per
/// real path (the first one found), in increasing path order, numbered
/// `f-0001`, `f-0002`, ... in that order.
pub open spec fn numbered_inventory(r: Seq<FileInfo>, files: Seq<FileInfo>) -> bool {
    &&& paths_sorted(r)
    &&& forall|i: int| 0 <= i < r.len() ==> exists|k: int| first_with_path(files, (#[trigger] r[i]).real_path@, k) && same_but_id(r[i], files[k])
    &&& forall|k: int| 0 <= k < files.len() ==> #[trigger] lists_path(r, files[k].real_path@)
    &&& forall|i: int| 0 <= i < r.len() ==> (#[trigger] r[i]).id@ == file_id_text((i + 1) as nat)
}

/// Where the file with real path `p` is in `files` (sorted by real path):
/// `(true, i)` if `files[i]` has it, else `(false, q)` with `q` the position
/// that keeps the order.
fn locate_path(files: &Vec<FileInfo>, p: &[char]) -> (r: (bool, usize))
    requires
        paths_sorted(files@),
    ensures
        r.0 ==> r.1 < files@.len() && files@[r.1 as int].real_path@ == p@,
        !r.0 ==> r.1 <= files@.len() && forall|j: int| 0 <= j < files@.len() ==> files@[j].real_path@ != p@,
        !r.0 ==> forall|j: int| 0 <= j < r.1 ==> seq_lt(#[trigger] files@[j].real_path@, p@),
        !r.0 ==> forall|j: int| r.1 <= j < files@.len() ==> seq_lt(p@, #[trigger] files@[j].real_path@),
{
    let mut i: usize = 0;
    while i < files.len()
        invariant
            i <= files@.len(),
            paths_sorted(files@),
            forall|j: int| 0 <= j < i ==> seq_lt(#[trigger] files@[j].real_path@, p@),
        decreases files@.len() - i,
    {
        let cn = chars_of(files[i].real_path.as_str());
        if chars_lt(cn.as_slice(), p) {
            i = i + 1;
        } else {
            proof {
                lemma_lt_total(cn@, p@);
            }
            if !chars_lt(p, cn.as_slice()) {
                return (true, i);
            }
            proof {
                assert forall|j: int| i <= j < files@.len() implies seq_lt(p@, #[trigger] files@[j].real_path@) by {
                    if j > i {
                        lemma_lt_transitive(p@, files@[i as int].real_path@, files@[j].real_path@);
                    }
                }
                assert forall|j: int| 0 <= j < files@.len() implies files@[j].real_path@ != p@ by {
                    lemma_lt_irreflexive(p@);
                }
            }
            return (false, i);
        }
    }
    proof {
        assert forall|j: int| 0 <= j < files@.len() implies files@[j].real_path@ != p@ by {
            lemma_lt_irreflexive(p@);
        }
    }
    (false, i)
}

/// The inventory made of the files found on all mountpoints: sorted by real
/// path, with only the first file of each real path kept, and numbered
/// `f-0001`, `f-0002`, ... in that order.
pub fn number_inventory(files: Vec<FileInfo>) -> (r: Vec<FileInfo>)
    ensures
        numbered_inventory(r@, files@),
{
    let ghost orig = files@;
    let total = files.len();
    let mut input = files;
    let mut sorted: Vec<FileInfo> = Vec::new();
    let ghost mut origin: Seq<int> = Seq::empty();
    let mut idx: usize = 0;
    proof {
        assert(input@ =~= orig.skip(0));
    }
    while input.len() > 0
        invariant
            idx <= orig.len(),
            total == orig.len(),
            input@ == orig.skip(idx as int),
            paths_sorted(sorted@),
            origin.len() == sorted@.len(),
            forall|i: int| 0 <= i < sorted@.len() ==> 0 <= #[trigger] origin[i] < idx
                && first_with_path(orig, sorted@[i].real_path@, origin[i]) && sorted@[i] == orig[origin[i]],
            forall|k: int| 0 <= k < idx ==> exists|i: int| 0 <= i < sorted@.len() && #[trigger] sorted@[i].real_path@ == (#[trigger] orig[k]).real_path@,
        decreases input@.len(),
    {
        let f = input.remove(0);
        proof {
            assert(f == orig[idx as int]);
            assert(input@ =~= orig.skip(idx + 1));
        }
        let key = chars_of(f.real_path.as_str());
        let (found, pos) = locate_path(&sorted, key.as_slice());
        let ghost old_sorted = sorted@;
        let ghost old_origin = origin;
        if !found {
            sorted.insert(pos, f);
            proof {
                origin = old_origin.insert(pos as int, idx as int);
                let nw = sorted@;
                assert forall|a: int, b: int| 0 <= a < b < nw.len() implies seq_lt(#[trigger] nw[a].real_path@, #[trigger] nw[b].real_path@) by {
                    if b < pos {
                        assert(seq_lt(old_sorted[a].real_path@, old_sorted[b].real_path@));
                    } else if b == pos {
                    } else if a < pos {
                        lemma_lt_transitive(old_sorted[a].real_path@, key@, old_sorted[b - 1].real_path@);
                    } else if a == pos {
                    } else {
                        assert(seq_lt(old_sorted[a - 1].real_path@, old_sorted[b - 1].real_path@));
                    }
                }
                assert(first_with_path(orig, key@, idx as int)) by {
                    assert forall|m: int| 0 <= m < idx implies (#[trigger] orig[m]).real_path@ != key@ by {
                        let i0 = choose|i: int| 0 <= i < old_sorted.len() && #[trigger] old_sorted[i].real_path@ == orig[m].real_path@;
                    }
                }
                assert forall|i: int| 0 <= i < nw.len() implies 0 <= #[trigger] origin[i] < idx + 1
                    && first_with_path(orig, nw[i].real_path@, origin[i]) && nw[i] == orig[origin[i]] by {
                    if i < pos {
                        assert(nw[i] == old_sorted[i] && origin[i] == old_origin[i]);
                    } else if i > pos {
                        assert(nw[i] == old_sorted[i - 1] && origin[i] == old_origin[i - 1]);
                    }
                }
                assert forall|k: int| 0 <= k < idx + 1 implies exists|i: int| 0 <= i < nw.len() && #[trigger] nw[i].real_path@ == (#[trigger] orig[k]).real_path@ by {
                    if k == idx {
                        assert(nw[pos as int].real_path@ == orig[k].real_path@);
                    } else {
                        let i0 = choose|i: int| 0 <= i < old_sorted.len() && #[trigger] old_sorted[i].real_path@ == orig[k].real_path@;
                        if i0 < pos {
                            assert(nw[i0] == old_sorted[i0]);
                        } else {
                            assert(nw[i0 + 1] == old_sorted[i0]);
                        }
                    }
                }
            }
        } else {
            proof {
                assert forall|k: int| 0 <= k < idx + 1 implies exists|i: int| 0 <= i < sorted@.len() && #[trigger] sorted@[i].real_path@ == (#[trigger] orig[k]).real_path@ by {
                    if k == idx {
                        assert(sorted@[pos as int].real_path@ == orig[k].real_path@);
                    }
                }
            }
        }
        idx = idx + 1;
    }
    proof {
        assert(idx == orig.len()) by {
            assert(orig.skip(idx as int).len() == 0);
        }
    }
    let ghost srt = sorted@;
    let cnt = sorted.len();
    let mut rest = sorted;
    let mut out: Vec<FileInfo> = Vec::new();
    let mut n: usize = 0;
    proof {
        assert(rest@ =~= srt.skip(0));
    }
    while rest.len() > 0
        invariant
            n <= srt.len(),
            cnt == srt.len(),
            rest@ == srt.skip(n as int),
            out@.len() == n,
            forall|i: int| 0 <= i < n ==> same_but_id(#[trigger] out@[i], srt[i]) && out@[i].id@ == file_id_text((i + 1) as nat),
        decreases rest@.len(),
    {
        let mut f = rest.remove(0);
        proof {
            assert(f == srt[n as int]);
            assert(rest@ =~= srt.skip(n + 1));
        }
        let num = zero_padded_chars((n as u128) + 1, 4);
        let mut id: Vec<char> = vec!['f', '-'];
        let mut j: usize = 0;
        while j < num.len()
            invariant
                j <= num@.len(),
                id@ == seq!['f', '-'] + num@.take(j as int),
            decreases num@.len() - j,
        {
            id.push(num[j]);
            proof {
                assert(num@.take(j + 1) =~= num@.take(j as int).push(num@[j as int]));
            }
            j = j + 1;
        }
        proof {
            assert(num@.take(num@.len() as int) =~= num@);
            reveal_strlit("f-");
            assert(id@ =~= file_id_text((n + 1) as nat));
        }
        f.id = string_of(id.as_slice());
        out.push(f);
        n = n + 1;
    }
    proof {
        assert(n == srt.len()) by {
            assert(srt.skip(n as int).len() == 0);
        }
        let r = out@;
        assert forall|a: int, b: int| 0 <= a < b < r.len() implies seq_lt(#[trigger] r[a].real_path@, #[trigger] r[b].real_path@) by {
            assert(same_but_id(r[a], srt[a]) && same_but_id(r[b], srt[b]));
        }
        assert forall|i: int| 0 <= i < r.len() implies exists|k: int| first_with_path(orig, (#[trigger] r[i]).real_path@, k) && same_but_id(r[i], orig[k]) by {
            assert(same_but_id(r[i], srt[i]));
            let k = origin[i];
            assert(first_with_path(orig, srt[i].real_path@, k) && srt[i] == orig[k]);
        }
        assert forall|k: int| 0 <= k < orig.len() implies #[trigger] lists_path(r, orig[k].real_path@) by {
            let i0 = choose|i: int| 0 <= i < srt.len() && #[trigger] srt[i].real_path@ == orig[k].real_path@;
            assert(same_but_id(r[i0], srt[i0]));
            assert(r[i0].real_path@ == orig[k].real_path@);
        }
    }
    out
}

/// What the system reports of one mounted disk: its mount point (in
/// canonical form), its size, the space available on it and the name of its
/// filesystem.
#[derive(Debug, Clone, PartialEq, Eq)]
pub struct DiskFacts {
    pub mount_point: String,
    pub total_bytes: u64,
    pub available_bytes: u64,
    pub file_system: String,
}

/// Whether `i` is the first disk whose mount point is a component-wise
/// prefix of `path_canon`.
pub open spec fn first_disk(path_canon: Seq<char>, disks: Seq<DiskFacts>, i: int) -> bool {
    &&& 0 <= i < disks.len()
    &&& path_starts_with(path_canon, disks[i].mount_point@)
    &&& forall|j: int| 0 <= j < i ==> !path_starts_with(path_canon, (#[trigger] disks[j]).mount_point@)
}

/// The label of the mountpoint at `path`: the one given, else the path's
/// file name, else the normalized path.
pub open spec fn label_for(path: Seq<char>, label: Option<&str>) -> Seq<char> {
    match label {
        Some(l) => l@,
        None => match file_name_of(path) {
            Some(n) => n,
            None => normalized(path),
        },
    }
}

/// The description of the mountpoint at `path` (whose canonical form is
/// `path_canon`): its normalized path, its label (the one given, else the
/// path's file name, else the normalized path), and the size, free space
/// and filesystem of the first disk holding it (`0`, `0`, `unknown` when no
/// disk does).
pub fn describe_mountpoint(path: &str, label: Option<&str>, path_canon: &str, disks: &[DiskFacts]) -> (r: MountpointInfo)
    ensures
        r.path@ == normalized(path@),
        r.label@ == label_for(path@, label),
        (exists|i: int| first_disk(path_canon@, disks@, i) && r.total_bytes == disks@[i].total_bytes
            && r.free_bytes == disks@[i].available_bytes && r.filesystem@ == disks@[i].file_system@)
        || ((forall|j: int| 0 <= j < disks@.len() ==> !path_starts_with(path_canon@, (#[trigger] disks@[j]).mount_point@))
            && r.total_bytes == 0 && r.free_bytes == 0 && r.filesystem@ == "unknown"@),
{
    let norm = normalize_path(path);
    let lbl = match label {
        Some(l) => string_of(chars_of(l).as_slice()),
        None => {
            let p = chars_of(path);
            match file_name(p.as_slice()) {
                Some(n) => string_of(n.as_slice()),
                None => string_of(chars_of(norm.as_str()).as_slice()),
            }
        },
    };
    let pc = chars_of(path_canon);
    let mut i: usize = 0;
    while i < disks.len()
        invariant
            i <= disks@.len(),
            pc@ == path_canon@,
            norm@ == normalized(path@),
            lbl@ == label_for(path@, label),
            forall|j: int| 0 <= j < i ==> !path_starts_with(path_canon@, (#[trigger] disks@[j]).mount_point@),
        decreases disks@.len() - i,
    {
        let m = chars_of(disks[i].mount_point.as_str());
        if starts_with_path(pc.as_slice(), m.as_slice()) {
            let fs = string_of(chars_of(disks[i].file_system.as_str()).as_slice());
            proof {
                assert(first_disk(path_canon@, disks@, i as int));
            }
            return MountpointInfo {
                path: norm,
                label: lbl,
                total_bytes: disks[i].total_bytes,
                free_bytes: disks[i].available_bytes,
                filesystem: fs,
            };
        }
        i = i + 1;
    }
    let unknown = string_of(chars_of("unknown").as_slice());
    MountpointInfo { path: norm, label: lbl, total_bytes: 0, free_bytes: 0, filesystem: unknown }
}

} // verus!
