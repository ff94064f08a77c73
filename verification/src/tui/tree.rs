//! The folder tree as the interface shows it: which folders are expanded,
//! and the visible rows of the tree.

use vstd::prelude::*;
use crate::accounting::size_tree::FolderNode;
use crate::planner::conflict::list_contains;
use crate::text::chars_of;

verus! {

/// One visible row: the folder's full path (its id), its name, its depth,
/// whether it has sub-folders, whether it is expanded, and its size and
/// file count.
#[derive(Debug, Clone)]
pub struct TreeRow {
    pub id: String,
    pub display_name: String,
    pub depth: usize,
    pub is_dir: bool,
    pub is_expanded: bool,
    pub size_human: String,
    pub file_count: usize,
}

/// The expanded folders (by full path) and the selected row.
#[derive(Debug)]
pub struct TreeItemState {
    pub expanded_paths: Vec<String>,
    pub selected_index: usize,
}

/// The full paths of the expanded folders.
pub open spec fn expanded_set(s: TreeItemState) -> Set<Seq<char>> {
    s.expanded_paths@.map_values(|p: String| p@).to_set()
}

/// Whether no folder is recorded as expanded twice.
pub open spec fn expanded_wf(s: TreeItemState) -> bool {
    forall|i: int, j: int| 0 <= i < j < s.expanded_paths@.len() ==> (#[trigger] s.expanded_paths@[i])@ != (#[trigger] s.expanded_paths@[j])@
}

/// Whether `new` has the folder at `path` expanded exactly when `old` had it
/// collapsed, the other folders as they were.
pub open spec fn toggled(new: TreeItemState, old: TreeItemState, path: Seq<char>) -> bool {
    &&& expanded_set(old).contains(path) ==> expanded_set(new) == expanded_set(old).remove(path)
    &&& !expanded_set(old).contains(path) ==> expanded_set(new) == expanded_set(old).insert(path)
}

impl TreeItemState {
    /// Nothing expanded, the first row selected.
    pub fn new() -> (r: TreeItemState)
        ensures
            expanded_wf(r),
            expanded_set(r) == Set::<Seq<char>>::empty(),
            r.selected_index == 0,
    {
        let r = TreeItemState { expanded_paths: Vec::new(), selected_index: 0 };
        proof {
            assert(expanded_set(r) =~= Set::<Seq<char>>::empty());
        }
        r
    }

    /// Whether the folder at `path` is expanded.
    pub fn is_expanded(&self, path: &str) -> (r: bool)
        ensures
            r == expanded_set(*self).contains(path@),
    {
        let p = chars_of(path);
        let r = list_contains(self.expanded_paths.as_slice(), p.as_slice());
        proof {
            let v = self.expanded_paths@.map_values(|x: String| x@);
            if r {
                let j = choose|j: int| 0 <= j < self.expanded_paths@.len() && #[trigger] self.expanded_paths@[j]@ == p@;
                assert(v[j] == path@);
            } else if v.contains(path@) {
                let j = v.index_of(path@);
                assert(self.expanded_paths@[j]@ == path@);
            }
        }
        r
    }

    /// Expands the folder at `path`, or collapses it if it was expanded.
    pub fn toggle_expand(&mut self, path: &str)
        requires
            expanded_wf(*old(self)),
        ensures
            expanded_wf(*final(self)),
            final(self).selected_index == old(self).selected_index,
            toggled(*final(self), *old(self), path@),
    {
        let p = chars_of(path);
        let ghost o = self.expanded_paths@;
        let ghost vs = o.map_values(|x: String| x@);
        let mut i: usize = 0;
        while i < self.expanded_paths.len()
            invariant
                i <= self.expanded_paths@.len(),
                self.expanded_paths@ == o,
                o == old(self).expanded_paths@,
                self.selected_index == old(self).selected_index,
                p@ == path@,
                vs == o.map_values(|x: String| x@),
                forall|a: int, b: int| 0 <= a < b < o.len() ==> (#[trigger] o[a])@ != (#[trigger] o[b])@,
                forall|j: int| 0 <= j < i ==> #[trigger] o[j]@ != path@,
            decreases self.expanded_paths@.len() - i,
        {
            let e = chars_of(self.expanded_paths[i].as_str());
            if crate::text::chars_eq(e.as_slice(), p.as_slice()) {
                self.expanded_paths.remove(i);
                proof {
                    let nv = self.expanded_paths@.map_values(|x: String| x@);
                    assert(vs.contains(path@)) by {
                        assert(vs[i as int] == path@);
                    }
                    assert(nv =~= vs.remove(i as int));
                    assert(nv.to_set() =~= vs.to_set().remove(path@)) by {
                        assert forall|x: Seq<char>| nv.to_set().contains(x) <==> vs.to_set().remove(path@).contains(x) by {
                            if nv.contains(x) {
                                let k = nv.index_of(x);
                                if k < i {
                                    assert(vs[k] == x);
                                } else {
                                    assert(vs[k + 1] == x);
                                    assert(o[i as int]@ == path@);
                                    assert(o[k + 1]@ != o[i as int]@);
                                }
                            }
                            if vs.contains(x) && x != path@ {
                                let k = vs.index_of(x);
                                if k < i {
                                    assert(nv[k] == x);
                                } else {
                                    assert(k != i);
                                    assert(nv[k - 1] == x);
                                }
                            }
                        }
                    }
                    assert forall|a: int, b: int| 0 <= a < b < self.expanded_paths@.len() implies (#[trigger] self.expanded_paths@[a])@ != (#[trigger] self.expanded_paths@[b])@ by {
                        let oa = if a < i { a } else { a + 1 };
                        let ob = if b < i { b } else { b + 1 };
                        assert(self.expanded_paths@[a] == o[oa] && self.expanded_paths@[b] == o[ob]);
                    }
                }
                return;
            }
            i = i + 1;
        }
        proof {
            if vs.contains(path@) {
                let k = vs.index_of(path@);
                assert(o[k]@ == path@);
            }
        }
        self.expanded_paths.push(path.to_owned());
        proof {
            let nv = self.expanded_paths@.map_values(|x: String| x@);
            assert(nv =~= vs.push(path@));
            assert(nv.to_set() =~= vs.to_set().insert(path@)) by {
                assert forall|x: Seq<char>| nv.to_set().contains(x) <==> vs.to_set().insert(path@).contains(x) by {
                    if nv.contains(x) && x != path@ {
                        let k = nv.index_of(x);
                        assert(vs[k] == x);
                    }
                    if vs.contains(x) {
                        let k = vs.index_of(x);
                        assert(nv[k] == x);
                    }
                    if x == path@ {
                        assert(nv[vs.len() as int] == x);
                    }
                }
            }
            assert forall|a: int, b: int| 0 <= a < b < self.expanded_paths@.len() implies (#[trigger] self.expanded_paths@[a])@ != (#[trigger] self.expanded_paths@[b])@ by {
                if b == o.len() {
                    assert(self.expanded_paths@[a] == o[a]);
                } else {
                    assert(self.expanded_paths@[a] == o[a] && self.expanded_paths@[b] == o[b]);
                }
            }
        }
    }
}

/// Toggling the same folder twice leaves the expanded folders as they were.
pub proof fn lemma_toggle_twice(s0: TreeItemState, s1: TreeItemState, s2: TreeItemState, path: Seq<char>)
    requires
        toggled(s1, s0, path),
        toggled(s2, s1, path),
    ensures
        expanded_set(s2) == expanded_set(s0),
{
    if expanded_set(s0).contains(path) {
        assert(expanded_set(s0).remove(path).insert(path) =~= expanded_set(s0));
    } else {
        assert(expanded_set(s0).insert(path).remove(path) =~= expanded_set(s0));
    }
}

/// The view of a row: its id, name, depth, whether it has sub-folders,
/// whether it is expanded, its size text and file count.
pub open spec fn row_view(r: TreeRow) -> (Seq<char>, Seq<char>, usize, bool, bool, Seq<char>, usize) {
    (r.id@, r.display_name@, r.depth, r.is_dir, r.is_expanded, r.size_human@, r.file_count)
}

/// The views of rows.
pub open spec fn rows_view(rows: Seq<TreeRow>) -> Seq<(Seq<char>, Seq<char>, usize, bool, bool, Seq<char>, usize)> {
    rows.map_values(|r: TreeRow| row_view(r))
}

/// One level deeper (never past the largest depth).
pub open spec fn deeper(d: usize) -> usize {
    if d < usize::MAX { (d + 1) as usize } else { d }
}

/// The visible rows of folder `n` named `name` at path `full` and `depth`:
/// its own row, then, when it has sub-folders and is expanded, those of its
/// sub-folders in order, one level deeper, at `full/child`.
pub open spec fn node_rows(name: Seq<char>, full: Seq<char>, n: FolderNode, depth: usize, exp: Set<Seq<char>>)
    -> Seq<(Seq<char>, Seq<char>, usize, bool, bool, Seq<char>, usize)>
    decreases n, n.children@.len() + 1,
{
    let is_dir = n.children@.len() > 0;
    let is_exp = exp.contains(full);
    let head = seq![(full, name, depth, is_dir, is_exp, n.size_human@, n.file_count)];
    if is_dir && is_exp {
        head + children_rows(n, full, deeper(depth), exp, n.children@.len() as int)
    } else {
        head
    }
}

/// The visible rows of the first `k` sub-folders of `n`.
pub open spec fn children_rows(n: FolderNode, full: Seq<char>, depth: usize, exp: Set<Seq<char>>, k: int)
    -> Seq<(Seq<char>, Seq<char>, usize, bool, bool, Seq<char>, usize)>
    decreases n, k,
{
    if k <= 0 || k > n.children@.len() {
        Seq::empty()
    } else {
        children_rows(n, full, depth, exp, k - 1) + node_rows(n.children@[k - 1].0@,
            full + "/"@ + n.children@[k - 1].0@, n.children@[k - 1].1, depth, exp)
    }
}

/// The visible rows of the first `k` mountpoints of the tree.
pub open spec fn forest_rows(tree: Seq<(String, FolderNode)>, exp: Set<Seq<char>>, k: int)
    -> Seq<(Seq<char>, Seq<char>, usize, bool, bool, Seq<char>, usize)>
    decreases k,
{
    if k <= 0 || k > tree.len() {
        Seq::empty()
    } else {
        forest_rows(tree, exp, k - 1) + node_rows(tree[k - 1].0@, tree[k - 1].0@, tree[k - 1].1, 0, exp)
    }
}

/// Appends the visible rows of folder `node` to `out`.
fn flatten_node(name: &str, full: &str, node: &FolderNode, depth: usize, state: &TreeItemState, out: &mut Vec<TreeRow>)
    ensures
        rows_view(final(out)@) == rows_view(old(out)@) + node_rows(name@, full@, *node, depth, expanded_set(*state)),
    decreases *node,
{
    let ghost start = rows_view(out@);
    let is_dir = node.children.len() > 0;
    let is_expanded = state.is_expanded(full);
    out.push(TreeRow {
        id: full.to_owned(),
        display_name: name.to_owned(),
        depth,
        is_dir,
        is_expanded,
        size_human: node.size_human.clone(),
        file_count: node.file_count,
    });
    let ghost head = rows_view(out@);
    proof {
        assert(head =~= start + seq![(full@, name@, depth, is_dir, is_expanded, node.size_human@, node.file_count)]);
    }
    if is_dir && is_expanded {
        let d = if depth < usize::MAX { depth + 1 } else { depth };
        let mut i: usize = 0;
        while i < node.children.len()
            invariant
                i <= node.children@.len(),
                d == deeper(depth),
                rows_view(out@) == head + children_rows(*node, full@, d, expanded_set(*state), i as int),
            decreases node.children@.len() - i,
        {
            let child_name = node.children[i].0.as_str();
            let mut child_path = String::from_str(full);
            child_path.append("/");
            child_path.append(child_name);
            proof {
                assert(decreases_to!(*node => node.children));
                assert(decreases_to!(node.children => node.children@));
                assert(decreases_to!(node.children@ => node.children@[i as int]));
                assert(decreases_to!(node.children@[i as int] => node.children@[i as int].1));
            }
            flatten_node(child_name, child_path.as_str(), &node.children[i].1, d, state, out);
            proof {
                assert(rows_view(out@) =~= head + children_rows(*node, full@, d, expanded_set(*state), i + 1));
            }
            i = i + 1;
        }
        proof {
            assert(rows_view(out@) =~= start + node_rows(name@, full@, *node, depth, expanded_set(*state)));
        }
    } else {
        proof {
            assert(rows_view(out@) =~= start + node_rows(name@, full@, *node, depth, expanded_set(*state)));
        }
    }
}

/// The visible rows of the folder trees of all mountpoints, in order: each
/// mountpoint's row at depth 0, and below an expanded folder the rows of
/// its sub-folders.
pub fn flatten_folder_tree(tree: &[(String, FolderNode)], state: &TreeItemState) -> (r: Vec<TreeRow>)
    ensures
        rows_view(r@) == forest_rows(tree@, expanded_set(*state), tree@.len() as int),
{
    let mut rows: Vec<TreeRow> = Vec::new();
    let mut i: usize = 0;
    proof {
        assert(rows_view(rows@) =~= Seq::empty());
    }
    while i < tree.len()
        invariant
            i <= tree@.len(),
            rows_view(rows@) == forest_rows(tree@, expanded_set(*state), i as int),
        decreases tree@.len() - i,
    {
        let name = tree[i].0.as_str();
        flatten_node(name, name, &tree[i].1, 0, state, &mut rows);
        proof {
            assert(rows_view(rows@) =~= forest_rows(tree@, expanded_set(*state), i + 1));
        }
        i = i + 1;
    }
    rows
}

} // verus!
