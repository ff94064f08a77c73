//! The symbolic links found under the application roots: the list of links
//! and their targets, the tree of links by location, the decisions of the
//! walk (what to skip, where to descend, how cycles are cut) and the
//! cross-reference of links onto the physical inventory.

use vstd::prelude::*;
use super::file_info::FileInfo;
use crate::keyed::{insert_keyed, keyed_insert, names_sorted};
use crate::planner::conflict::list_contains;
use crate::text::{chars_eq_str, chars_of, string_of};

verus! {

/// A symbolic link: where it is, what it points to (both canonical and
/// normalized), whether the target is a directory and whether it is missing.
#[derive(Debug, Clone, PartialEq, Eq)]
pub struct SymlinkEntry {
    pub link_path: String,
    pub target_path: String,
    pub is_dir: bool,
    pub is_dangling: bool,
}

/// A node of the tree of links: a link carries its kind (`symlink_dir` or
/// `symlink_file`) and target; `children` are the entries below it by name,
/// in increasing name order.
#[derive(Debug)]
pub struct SymlinkTreeNode {
    pub node_type: Option<String>,
    pub target: Option<String>,
    pub children: Vec<(String, SymlinkTreeNode)>,
}

/// The links found under the application roots and, per root (by canonical
/// path, in increasing order), the tree of the links below it.
#[derive(Debug)]
pub struct SymlinkMapper {
    pub mappings: Vec<SymlinkEntry>,
    pub symlink_tree: Vec<(String, SymlinkTreeNode)>,
}

/// The most levels of directories the walk descends below a root.
pub const MAX_WALK_DEPTH: usize = 64;

/// The kind recorded for a link to a directory or to a file.
pub open spec fn link_kind(is_dir: bool) -> Seq<char> {
    if is_dir { "symlink_dir"@ } else { "symlink_file"@ }
}

/// Whether `n` is the node of a link to `target` with no children yet.
pub open spec fn is_link_node(n: SymlinkTreeNode, is_dir: bool, target: Seq<char>) -> bool {
    &&& n.node_type is Some && n.node_type.unwrap()@ == link_kind(is_dir)
    &&& n.target is Some && n.target.unwrap()@ == target
    &&& n.children@.len() == 0
}

/// Whether a directory entry of this name is never walked.
pub open spec fn skipped_name(name: Seq<char>) -> bool {
    name == ".git"@ || name == "node_modules"@
}

/// Whether a directory entry is never walked (`.git` or `node_modules`).
pub fn is_skipped_entry(name: &str) -> (r: bool)
    ensures
        r == skipped_name(name@),
{
    let n = chars_of(name);
    chars_eq_str(n.as_slice(), ".git") || chars_eq_str(n.as_slice(), "node_modules")
}

/// Whether the walk may still list a directory at `depth` levels below the
/// root.
pub fn may_descend(depth: usize) -> (r: bool)
    ensures
        r == (depth <= MAX_WALK_DEPTH),
{
    depth <= MAX_WALK_DEPTH
}

impl SymlinkTreeNode {
    /// A node with no kind, no target and no children.
    pub fn new() -> (r: SymlinkTreeNode)
        ensures
            r.node_type is None,
            r.target is None,
            r.children@.len() == 0,
    {
        SymlinkTreeNode { node_type: None, target: None, children: Vec::new() }
    }

    /// The node of a link to `target`, a directory when `is_dir`.
    pub fn for_link(is_dir: bool, target: String) -> (r: SymlinkTreeNode)
        ensures
            r.node_type matches Some(t) && t@ == link_kind(is_dir),
            r.target == Some(target),
            r.children@.len() == 0,
    {
        let kind = if is_dir {
            string_of(chars_of("symlink_dir").as_slice())
        } else {
            string_of(chars_of("symlink_file").as_slice())
        };
        SymlinkTreeNode { node_type: Some(kind), target: Some(target), children: Vec::new() }
    }

    /// Puts `child` under `name`, in place of any child of that name.
    pub fn add_child(&mut self, name: String, child: SymlinkTreeNode)
        requires
            names_sorted(old(self).children@),
        ensures
            keyed_insert(final(self).children@, old(self).children@, name@, child),
            final(self).node_type == old(self).node_type,
            final(self).target == old(self).target,
    {
        insert_keyed(&mut self.children, name, child);
    }
}

/// The set of directories (canonical paths) on the walk's current path,
/// which cuts cycles of directory links.
#[derive(Debug)]
pub struct VisitedDirs {
    paths: Vec<String>,
}

impl VisitedDirs {
    /// The directories on the current path.
    pub closed spec fn keys(&self) -> Set<Seq<char>> {
        self.paths@.map_values(|p: String| p@).to_set()
    }

    /// Whether no directory is recorded twice.
    pub closed spec fn wf(&self) -> bool {
        forall|i: int, j: int| 0 <= i < j < self.paths@.len() ==> (#[trigger] self.paths@[i])@ != (#[trigger] self.paths@[j])@
    }

    /// No directory visited.
    pub fn new() -> (r: VisitedDirs)
        ensures
            r.wf(),
            r.keys() == Set::<Seq<char>>::empty(),
    {
        let r = VisitedDirs { paths: Vec::new() };
        proof {
            assert(r.keys() =~= Set::<Seq<char>>::empty());
        }
        r
    }

    /// Records `dir` as being on the path; `false` (and no change) when it
    /// already is, which means a cycle.
    pub fn enter(&mut self, dir: &str) -> (fresh: bool)
        requires
            old(self).wf(),
        ensures
            final(self).wf(),
            fresh == !old(self).keys().contains(dir@),
            final(self).keys() == old(self).keys().insert(dir@),
    {
        let d = chars_of(dir);
        let ghost vs = self.paths@.map_values(|p: String| p@);
        if list_contains(self.paths.as_slice(), d.as_slice()) {
            proof {
                let j = choose|j: int| 0 <= j < self.paths@.len() && #[trigger] self.paths@[j]@ == d@;
                assert(vs[j] == dir@);
                assert(self.keys().contains(dir@));
                assert(self.keys().insert(dir@) =~= self.keys());
            }
            return false;
        }
        proof {
            if self.keys().contains(dir@) {
                let j = vs.index_of(dir@);
                assert(self.paths@[j]@ == dir@);
            }
        }
        let ghost o = self.paths@;
        self.paths.push(string_of(d.as_slice()));
        proof {
            let nv = self.paths@.map_values(|p: String| p@);
            assert(nv =~= vs.push(dir@));
            assert(nv.to_set() =~= vs.to_set().insert(dir@)) by {
                assert forall|x: Seq<char>| nv.to_set().contains(x) <==> vs.to_set().insert(dir@).contains(x) by {
                    if nv.contains(x) && x != dir@ {
                        let k = nv.index_of(x);
                        assert(vs[k] == x);
                    }
                    if vs.contains(x) {
                        let k = vs.index_of(x);
                        assert(nv[k] == x);
                    }
                    if x == dir@ {
                        assert(nv[vs.len() as int] == x);
                    }
                }
            }
            assert forall|i: int, j: int| 0 <= i < j < self.paths@.len() implies (#[trigger] self.paths@[i])@ != (#[trigger] self.paths@[j])@ by {
                if j == o.len() {
                    assert(self.paths@[i] == o[i]);
                } else {
                    assert(self.paths@[i] == o[i] && self.paths@[j] == o[j]);
                }
            }
        }
        true
    }

    /// Takes `dir` off the current path.
    pub fn leave(&mut self, dir: &str)
        requires
            old(self).wf(),
        ensures
            final(self).wf(),
            final(self).keys() == old(self).keys().remove(dir@),
    {
        let d = chars_of(dir);
        let ghost o = self.paths@;
        let ghost vs = o.map_values(|p: String| p@);
        let mut i: usize = 0;
        while i < self.paths.len()
            invariant
                i <= self.paths@.len(),
                self.paths@ == o,
                o == old(self).paths@,
                d@ == dir@,
                vs == o.map_values(|p: String| p@),
                forall|a: int, b: int| 0 <= a < b < o.len() ==> (#[trigger] o[a])@ != (#[trigger] o[b])@,
                forall|j: int| 0 <= j < i ==> #[trigger] o[j]@ != dir@,
            decreases self.paths@.len() - i,
        {
            let e = chars_of(self.paths[i].as_str());
            if crate::text::chars_eq(e.as_slice(), d.as_slice()) {
                self.paths.remove(i);
                proof {
                    let nv = self.paths@.map_values(|p: String| p@);
                    assert(nv =~= vs.remove(i as int));
                    assert(nv.to_set() =~= vs.to_set().remove(dir@)) by {
                        assert forall|x: Seq<char>| nv.to_set().contains(x) <==> vs.to_set().remove(dir@).contains(x) by {
                            if nv.contains(x) {
                                let k = nv.index_of(x);
                                if k < i {
                                    assert(vs[k] == x);
                                    assert(x != dir@);
                                } else {
                                    assert(vs[k + 1] == x);
                                    assert(o[i as int]@ == dir@);
                                    assert(o[k + 1]@ != o[i as int]@);
                                }
                            }
                            if vs.contains(x) && x != dir@ {
                                let k = vs.index_of(x);
                                if k < i {
                                    assert(nv[k] == x);
                                } else {
                                    assert(k != i);
                                    assert(nv[k - 1] == x);
                                }
                            }
                        }
                    }
                    assert forall|a: int, b: int| 0 <= a < b < self.paths@.len() implies (#[trigger] self.paths@[a])@ != (#[trigger] self.paths@[b])@ by {
                        let oa = if a < i { a } else { a + 1 };
                        let ob = if b < i { b } else { b + 1 };
                        assert(self.paths@[a] == o[oa] && self.paths@[b] == o[ob]);
                    }
                }
                return;
            }
            i = i + 1;
        }
        proof {
            assert(vs.to_set().remove(dir@) =~= vs.to_set()) by {
                if vs.contains(dir@) {
                    let k = vs.index_of(dir@);
                    assert(o[k]@ == dir@);
                }
            }
        }
    }
}

/// Entering a directory that was not on the path and leaving it again gives
/// back the directories that were on the path.
pub proof fn lemma_enter_leave_restores(before: Set<Seq<char>>, dir: Seq<char>)
    requires
        !before.contains(dir),
    ensures
        before.insert(dir).remove(dir) == before,
{
    assert(before.insert(dir).remove(dir) =~= before);
}

/// What was found at one directory entry: a link (its canonical path, its
/// target's canonical path, whether the target is a directory and whether it
/// exists), a directory (its path and canonical path), or anything else.
pub enum EntryFacts {
    Link { link_canon: String, target_canon: String, target_is_dir: bool, target_exists: bool },
    Directory { path: String, canon: String },
    Other,
}

/// What the walk does with an entry: nothing; attach the link node `child`
/// now; or list `dir` into `child`, then call `finish_descent` with `key`
/// (the directory's canonical path) and `keep_empty` (whether the node is
/// kept when nothing was found below it).
pub enum EntryStep {
    Skip,
    Attach { child: SymlinkTreeNode },
    Descend { dir: String, key: String, child: SymlinkTreeNode, keep_empty: bool },
}

impl SymlinkMapper {
    /// No links found yet.
    pub fn new() -> (r: SymlinkMapper)
        ensures
            r.mappings@.len() == 0,
            r.symlink_tree@.len() == 0,
    {
        SymlinkMapper { mappings: Vec::new(), symlink_tree: Vec::new() }
    }

    /// Decides what to do with the entry `name` of a directory being walked,
    /// given what was found there: `.git` and `node_modules` are skipped; a
    /// link is recorded, and its node is walked further when it leads to an
    /// existing directory not already on the path (else attached as is); a
    /// directory not already on the path is walked; anything else is
    /// skipped.
    pub fn begin_entry(&mut self, visited: &mut VisitedDirs, name: &str, facts: EntryFacts) -> (r: EntryStep)
        requires
            old(visited).wf(),
        ensures
            final(visited).wf(),
            skipped_name(name@) ==> r is Skip && final(self).mappings@ == old(self).mappings@
                && final(visited).keys() == old(visited).keys(),
            !skipped_name(name@) ==> match facts {
                EntryFacts::Link { link_canon, target_canon, target_is_dir, target_exists } => {
                    let descend = target_is_dir && target_exists && !old(visited).keys().contains(target_canon@);
                    &&& final(self).mappings@ == old(self).mappings@.push(SymlinkEntry {
                        link_path: link_canon,
                        target_path: target_canon,
                        is_dir: target_is_dir,
                        is_dangling: !target_exists,
                    })
                    &&& final(visited).keys() == if descend { old(visited).keys().insert(target_canon@) } else { old(visited).keys() }
                    &&& match r {
                        EntryStep::Skip => false,
                        EntryStep::Attach { child } => !descend && is_link_node(child, target_is_dir, target_canon@),
                        EntryStep::Descend { dir, key, child, keep_empty } => descend && dir@ == target_canon@ && key@ == target_canon@
                            && keep_empty && is_link_node(child, target_is_dir, target_canon@),
                    }
                },
                EntryFacts::Directory { path, canon } => {
                    let descend = !old(visited).keys().contains(canon@);
                    &&& final(self).mappings@ == old(self).mappings@
                    &&& final(visited).keys() == old(visited).keys().insert(canon@)
                    &&& match r {
                        EntryStep::Skip => !descend,
                        EntryStep::Attach { .. } => false,
                        EntryStep::Descend { dir, key, child, keep_empty } => descend && dir@ == path@ && key@ == canon@
                            && !keep_empty && child.node_type is None && child.target is None && child.children@.len() == 0,
                    }
                },
                EntryFacts::Other => r is Skip && final(self).mappings@ == old(self).mappings@
                    && final(visited).keys() == old(visited).keys(),
            },
            final(self).symlink_tree@ == old(self).symlink_tree@,
    {
        if is_skipped_entry(name) {
            return EntryStep::Skip;
        }
        match facts {
            EntryFacts::Link { link_canon, target_canon, target_is_dir, target_exists } => {
                let target_text = target_canon.clone();
                let node_target = target_canon.clone();
                self.mappings.push(SymlinkEntry {
                    link_path: link_canon,
                    target_path: target_canon,
                    is_dir: target_is_dir,
                    is_dangling: !target_exists,
                });
                let child = SymlinkTreeNode::for_link(target_is_dir, node_target);
                if target_is_dir && target_exists {
                    if visited.enter(target_text.as_str()) {
                        let key = target_text.clone();
                        return EntryStep::Descend { dir: target_text, key, child, keep_empty: true };
                    }
                    proof {
                        assert(old(visited).keys().insert(target_text@) == old(visited).keys());
                    }
                }
                EntryStep::Attach { child }
            },
            EntryFacts::Directory { path, canon } => {
                if visited.enter(canon.as_str()) {
                    EntryStep::Descend { dir: path, key: canon, child: SymlinkTreeNode::new(), keep_empty: false }
                } else {
                    EntryStep::Skip
                }
            },
            EntryFacts::Other => EntryStep::Skip,
        }
    }

    /// Records a walk's tree for the root whose canonical, normalized path is
    /// `root_key`, when anything was found below it.
    pub fn add_root(&mut self, root_key: String, tree_root: SymlinkTreeNode)
        requires
            names_sorted(old(self).symlink_tree@),
        ensures
            final(self).mappings@ == old(self).mappings@,
            (tree_root.children@.len() > 0 || tree_root.target is Some) ==> keyed_insert(final(self).symlink_tree@, old(self).symlink_tree@, root_key@, tree_root),
            !(tree_root.children@.len() > 0 || tree_root.target is Some) ==> final(self).symlink_tree@ == old(self).symlink_tree@,
    {
        if tree_root.children.len() > 0 || tree_root.target.is_some() {
            insert_keyed(&mut self.symlink_tree, root_key, tree_root);
        }
    }
}

/// Ends the walk below an entry: takes `key` off the path and attaches
/// `child` under `name` in `node`, unless nothing was found below a plain
/// directory (`keep_empty` false and no children).
pub fn finish_descent(visited: &mut VisitedDirs, node: &mut SymlinkTreeNode, name: String, key: &str, child: SymlinkTreeNode, keep_empty: bool)
    requires
        old(visited).wf(),
        names_sorted(old(node).children@),
    ensures
        final(visited).wf(),
        final(visited).keys() == old(visited).keys().remove(key@),
        (keep_empty || child.children@.len() > 0) ==> keyed_insert(final(node).children@, old(node).children@, name@, child),
        !(keep_empty || child.children@.len() > 0) ==> final(node).children@ == old(node).children@,
        final(node).node_type == old(node).node_type,
        final(node).target == old(node).target,
{
    visited.leave(key);
    if keep_empty || child.children.len() > 0 {
        node.add_child(name, child);
    }
}

/// The links, in the order they were found, whose target is `target`.
pub open spec fn links_to(m: Seq<SymlinkEntry>, target: Seq<char>) -> Seq<Seq<char>>
    decreases m.len(),
{
    if m.len() == 0 {
        Seq::empty()
    } else {
        let rest = links_to(m.drop_last(), target);
        if m.last().target_path@ == target {
            rest.push(m.last().link_path@)
        } else {
            rest
        }
    }
}

/// `list` with each of `adds` appended in turn unless already present.
pub open spec fn append_missing(list: Seq<Seq<char>>, adds: Seq<Seq<char>>) -> Seq<Seq<char>>
    decreases adds.len(),
{
    if adds.len() == 0 {
        list
    } else {
        let l = append_missing(list, adds.drop_last());
        if l.contains(adds.last()) {
            l
        } else {
            l.push(adds.last())
        }
    }
}

/// Whether `new` is `old` with the links to its (canonical) path added to
/// the links that point to it.
pub open spec fn cross_referenced(new: FileInfo, old: FileInfo, mappings: Seq<SymlinkEntry>, canon: Seq<char>) -> bool {
    &&& new.id == old.id
    &&& new.real_path == old.real_path
    &&& new.filename == old.filename
    &&& new.extension == old.extension
    &&& new.category == old.category
    &&& new.size_bytes == old.size_bytes
    &&& new.size_human == old.size_human
    &&& new.blake3_hash == old.blake3_hash
    &&& new.modified_at == old.modified_at
    &&& new.mountpoint == old.mountpoint
    &&& new.relative_path == old.relative_path
    &&& new.symlinked_from@.map_values(|x: String| x@)
        == append_missing(old.symlinked_from@.map_values(|x: String| x@), links_to(mappings, canon))
}

proof fn lemma_append_missing_keeps(list: Seq<Seq<char>>, adds: Seq<Seq<char>>, x: Seq<char>)
    requires
        list.contains(x),
    ensures
        append_missing(list, adds).contains(x),
    decreases adds.len(),
{
    if adds.len() > 0 {
        lemma_append_missing_keeps(list, adds.drop_last(), x);
        let l = append_missing(list, adds.drop_last());
        if !l.contains(adds.last()) {
            let k = l.index_of(x);
            assert(l.push(adds.last())[k] == x);
        }
    }
}

proof fn lemma_append_missing_has_all(list: Seq<Seq<char>>, adds: Seq<Seq<char>>, i: int)
    requires
        0 <= i < adds.len(),
    ensures
        append_missing(list, adds).contains(adds[i]),
    decreases adds.len(),
{
    let l = append_missing(list, adds.drop_last());
    if i < adds.len() - 1 {
        lemma_append_missing_has_all(list, adds.drop_last(), i);
        assert(adds.drop_last()[i] == adds[i]);
        if !l.contains(adds.last()) {
            let k = l.index_of(adds[i]);
            assert(l.push(adds.last())[k] == adds[i]);
        }
    } else {
        if !l.contains(adds.last()) {
            assert(l.push(adds.last())[l.len() as int] == adds.last());
        }
    }
}

proof fn lemma_append_missing_noop(list: Seq<Seq<char>>, adds: Seq<Seq<char>>)
    requires
        forall|i: int| 0 <= i < adds.len() ==> list.contains(#[trigger] adds[i]),
    ensures
        append_missing(list, adds) == list,
    decreases adds.len(),
{
    if adds.len() > 0 {
        assert forall|i: int| 0 <= i < adds.drop_last().len() implies list.contains(#[trigger] adds.drop_last()[i]) by {
            assert(adds.drop_last()[i] == adds[i]);
        }
        lemma_append_missing_noop(list, adds.drop_last());
        assert(list.contains(adds[adds.len() - 1]));
    }
}

/// Cross-referencing a file twice with the same links adds nothing the
/// second time.
pub proof fn lemma_cross_reference_idempotent(list: Seq<Seq<char>>, adds: Seq<Seq<char>>)
    ensures
        append_missing(append_missing(list, adds), adds) == append_missing(list, adds),
{
    let once = append_missing(list, adds);
    assert forall|i: int| 0 <= i < adds.len() implies once.contains(#[trigger] adds[i]) by {
        lemma_append_missing_has_all(list, adds, i);
    }
    lemma_append_missing_noop(once, adds);
}

/// A link is among the links to `target` exactly when some mapping with
/// that target has it.
proof fn lemma_links_to_members(m: Seq<SymlinkEntry>, target: Seq<char>, x: Seq<char>)
    ensures
        links_to(m, target).contains(x) <==> exists|k: int| 0 <= k < m.len() && (#[trigger] m[k]).target_path@ == target
            && m[k].link_path@ == x,
    decreases m.len(),
{
    if m.len() > 0 {
        let d = m.drop_last();
        lemma_links_to_members(d, target, x);
        let rest = links_to(d, target);
        let last = m.len() - 1;
        if links_to(m, target).contains(x) {
            if rest.contains(x) {
                let k = choose|k: int| 0 <= k < d.len() && (#[trigger] d[k]).target_path@ == target && d[k].link_path@ == x;
                assert(m[k] == d[k]);
            } else {
                let j = links_to(m, target).index_of(x);
                assert(m[last].target_path@ == target);
                assert(j == rest.len());
                assert(m[last].link_path@ == x);
            }
        }
        if exists|k: int| 0 <= k < m.len() && (#[trigger] m[k]).target_path@ == target && m[k].link_path@ == x {
            let k = choose|k: int| 0 <= k < m.len() && (#[trigger] m[k]).target_path@ == target && m[k].link_path@ == x;
            if k < last {
                assert(d[k] == m[k]);
                let j = rest.index_of(x);
                if m.last().target_path@ == target {
                    assert(rest.push(m.last().link_path@)[j] == x);
                }
            } else {
                assert(rest.push(m.last().link_path@)[rest.len() as int] == x);
            }
        }
    }
}

/// What `append_missing` gives holds only what the list or the additions held.
proof fn lemma_append_missing_from(list: Seq<Seq<char>>, adds: Seq<Seq<char>>, x: Seq<char>)
    requires
        append_missing(list, adds).contains(x),
    ensures
        list.contains(x) || adds.contains(x),
    decreases adds.len(),
{
    if adds.len() > 0 {
        let d = adds.drop_last();
        let l = append_missing(list, d);
        if l.contains(x) {
            lemma_append_missing_from(list, d, x);
            if d.contains(x) {
                let k = d.index_of(x);
                assert(adds[k] == x);
            }
        } else {
            let j = l.push(adds.last()).index_of(x);
            assert(j == l.len());
            assert(adds[adds.len() - 1] == x);
        }
    }
}

/// `append_missing` keeps the list it starts from as its beginning.
proof fn lemma_append_missing_prefix(list: Seq<Seq<char>>, adds: Seq<Seq<char>>)
    ensures
        append_missing(list, adds).len() >= list.len(),
        append_missing(list, adds).subrange(0, list.len() as int) == list,
    decreases adds.len(),
{
    if adds.len() > 0 {
        lemma_append_missing_prefix(list, adds.drop_last());
        let l = append_missing(list, adds.drop_last());
        if !l.contains(adds.last()) {
            assert(l.push(adds.last()).subrange(0, list.len() as int) =~= l.subrange(0, list.len() as int));
        }
    }
}

/// The links a file lists as pointing to it.
pub open spec fn links_of(f: FileInfo) -> Seq<Seq<char>> {
    f.symlinked_from@.map_values(|s: String| s@)
}

/// After cross-referencing, a file lists every link whose target is its
/// canonical path (each mapping to it, not only the first), keeps the links
/// it listed before, in front and in order, and lists nothing else.
pub proof fn lemma_cross_reference_lists_all_links(new: FileInfo, old: FileInfo, mappings: Seq<SymlinkEntry>, canon: Seq<char>)
    requires
        cross_referenced(new, old, mappings, canon),
    ensures
        forall|k: int| 0 <= k < mappings.len() && (#[trigger] mappings[k]).target_path@ == canon
            ==> links_of(new).contains(mappings[k].link_path@),
        new.symlinked_from@.len() >= old.symlinked_from@.len(),
        forall|j: int| 0 <= j < old.symlinked_from@.len() ==> (#[trigger] new.symlinked_from@[j])@ == old.symlinked_from@[j]@,
        forall|x: Seq<char>| #[trigger] links_of(new).contains(x) ==> links_of(old).contains(x)
                || exists|k: int| 0 <= k < mappings.len() && (#[trigger] mappings[k]).target_path@ == canon
                    && mappings[k].link_path@ == x,
{
    let nv = links_of(new);
    let ov = links_of(old);
    let adds = links_to(mappings, canon);
    assert forall|k: int| 0 <= k < mappings.len() && (#[trigger] mappings[k]).target_path@ == canon
        implies nv.contains(mappings[k].link_path@) by {
        lemma_links_to_members(mappings, canon, mappings[k].link_path@);
        let j = adds.index_of(mappings[k].link_path@);
        lemma_append_missing_has_all(ov, adds, j);
    }
    lemma_append_missing_prefix(ov, adds);
    assert forall|j: int| 0 <= j < old.symlinked_from@.len() implies (#[trigger] new.symlinked_from@[j])@ == old.symlinked_from@[j]@ by {
        assert(nv.subrange(0, ov.len() as int)[j] == ov[j]);
    }
    assert forall|x: Seq<char>| #[trigger] nv.contains(x) implies ov.contains(x) || exists|k: int| 0 <= k < mappings.len()
        && (#[trigger] mappings[k]).target_path@ == canon && mappings[k].link_path@ == x by {
        lemma_append_missing_from(ov, adds, x);
        if adds.contains(x) {
            lemma_links_to_members(mappings, canon, x);
        }
    }
}

impl SymlinkMapper {
    /// Adds to each file the links that point to it: `real_path_canons[i]`
    /// is the canonical, normalized form of `files[i]`'s real path, and each
    /// link whose target is that path is appended (in the order the links
    /// were found) unless the file already lists it.
    pub fn cross_reference_inventory(&self, files: &mut Vec<FileInfo>, real_path_canons: &[String])
        requires
            real_path_canons@.len() == old(files)@.len(),
        ensures
            final(files)@.len() == old(files)@.len(),
            forall|i: int| 0 <= i < old(files)@.len() ==> cross_referenced(#[trigger] final(files)@[i], old(files)@[i], self.mappings@, real_path_canons@[i]@),
            forall|i: int, k: int| 0 <= i < old(files)@.len() && 0 <= k < self.mappings@.len()
                && (#[trigger] self.mappings@[k]).target_path@ == real_path_canons@[i]@
                ==> links_of(#[trigger] final(files)@[i]).contains(self.mappings@[k].link_path@),
    {
        let mut taken: Vec<FileInfo> = Vec::new();
        std::mem::swap(&mut taken, files);
        let ghost orig = taken@;
        let mut done: usize = 0;
        proof {
            assert(taken@ =~= orig.skip(0));
        }
        while taken.len() > 0
            invariant
                done <= orig.len(),
                real_path_canons@.len() == orig.len(),
                taken@ == orig.skip(done as int),
                files@.len() == done,
                forall|i: int| 0 <= i < done ==> cross_referenced(#[trigger] files@[i], orig[i], self.mappings@, real_path_canons@[i]@),
            decreases taken@.len(),
        {
            let mut f = taken.remove(0);
            proof {
                assert(f == orig[done as int]);
                assert(taken@ =~= orig.skip(done + 1));
            }
            let canon = chars_of(real_path_canons[done].as_str());
            let ghost start = f.symlinked_from@.map_values(|x: String| x@);
            let mut k: usize = 0;
            while k < self.mappings.len()
                invariant
                    k <= self.mappings@.len(),
                    done < orig.len(),
                    real_path_canons@.len() == orig.len(),
                    canon@ == real_path_canons@[done as int]@,
                    f.symlinked_from@.map_values(|x: String| x@) == append_missing(start, links_to(self.mappings@.take(k as int), canon@)),
                    f.id == orig[done as int].id,
                    f.real_path == orig[done as int].real_path,
                    f.filename == orig[done as int].filename,
                    f.extension == orig[done as int].extension,
                    f.category == orig[done as int].category,
                    f.size_bytes == orig[done as int].size_bytes,
                    f.size_human == orig[done as int].size_human,
                    f.blake3_hash == orig[done as int].blake3_hash,
                    f.modified_at == orig[done as int].modified_at,
                    f.mountpoint == orig[done as int].mountpoint,
                    f.relative_path == orig[done as int].relative_path,
                decreases self.mappings@.len() - k,
            {
                let m = &self.mappings[k];
                let ghost pre = self.mappings@.take(k as int);
                let ghost nxt = self.mappings@.take(k + 1);
                proof {
                    assert(nxt.drop_last() =~= pre);
                    assert(nxt.last() == self.mappings@[k as int]);
                }
                let t = chars_of(m.target_path.as_str());
                if crate::text::chars_eq(t.as_slice(), canon.as_slice()) {
                    let l = chars_of(m.link_path.as_str());
                    proof {
                        let lt = links_to(pre, canon@);
                        assert(links_to(nxt, canon@) == lt.push(l@));
                        assert(lt.push(l@).drop_last() =~= lt);
                        assert(lt.push(l@).last() == l@);
                    }
                    let ghost before = f.symlinked_from@;
                    if !list_contains(f.symlinked_from.as_slice(), l.as_slice()) {
                        f.symlinked_from.push(m.link_path.clone());
                        proof {
                            let bv = before.map_values(|x: String| x@);
                            assert(!bv.contains(l@)) by {
                                if bv.contains(l@) {
                                    let j = bv.index_of(l@);
                                    assert(before[j]@ == l@);
                                }
                            }
                            assert(f.symlinked_from@.map_values(|x: String| x@) =~= bv.push(l@));
                        }
                    } else {
                        proof {
                            let j = choose|j: int| 0 <= j < before.len() && #[trigger] before[j]@ == l@;
                            assert(before.map_values(|x: String| x@)[j] == l@);
                        }
                    }
                } else {
                    proof {
                        assert(links_to(nxt, canon@) == links_to(pre, canon@));
                    }
                }
                k = k + 1;
            }
            proof {
                assert(self.mappings@.take(self.mappings@.len() as int) =~= self.mappings@);
            }
            files.push(f);
            done = done + 1;
        }
        proof {
            assert(done == orig.len()) by {
                assert(orig.skip(done as int).len() == 0);
            }
            assert forall|i: int, k: int| 0 <= i < old(files)@.len() && 0 <= k < self.mappings@.len()
                && (#[trigger] self.mappings@[k]).target_path@ == real_path_canons@[i]@
                implies links_of(#[trigger] files@[i]).contains(self.mappings@[k].link_path@) by {
                lemma_cross_reference_lists_all_links(files@[i], old(files)@[i], self.mappings@, real_path_canons@[i]@);
            }
        }
    }
}

} // verus!
