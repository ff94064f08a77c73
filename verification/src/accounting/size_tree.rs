//! Hierarchical folder tree with bottom-up size and file count aggregation.

use vstd::prelude::*;
use crate::discovery::file_info::FileInfo;
use crate::text::{chars_of, string_of};
use crate::keyed::{locate_name, names_sorted};
use crate::text_order::{lemma_lt_irreflexive, lemma_lt_transitive, seq_lt};
use crate::utils::human_size::{format_bytes, format_bytes_spec};
use crate::utils::path_utils::split_slash;

verus! {

/// A directory with its size and file count; `children` are the
/// sub-directories by name, in increasing name order.
#[derive(Debug)]
pub struct FolderNode {
    pub size_bytes: u64,
    pub size_human: String,
    pub file_count: usize,
    pub children: Vec<(String, FolderNode)>,
}

/// The size recorded in the node plus that of all its descendants.
pub open spec fn total_size(n: FolderNode) -> nat
    decreases n, n.children@.len() + 1,
{
    n.size_bytes as nat + children_size(n, n.children@.len() as int)
}

/// The total size of the first `k` children.
pub open spec fn children_size(n: FolderNode, k: int) -> nat
    decreases n, k,
{
    if k <= 0 || k > n.children@.len() {
        0
    } else {
        children_size(n, k - 1) + total_size(n.children@[k - 1].1)
    }
}

/// The file count recorded in the node plus that of all its descendants.
pub open spec fn total_count(n: FolderNode) -> nat
    decreases n, n.children@.len() + 1,
{
    n.file_count as nat + children_count(n, n.children@.len() as int)
}

/// The total file count of the first `k` children.
pub open spec fn children_count(n: FolderNode, k: int) -> nat
    decreases n, k,
{
    if k <= 0 || k > n.children@.len() {
        0
    } else {
        children_count(n, k - 1) + total_count(n.children@[k - 1].1)
    }
}

/// Whether every level of the tree has strictly increasing child names.
pub open spec fn well_sorted(n: FolderNode) -> bool
    decreases n, n.children@.len() + 1,
{
    names_sorted(n.children@) && children_sorted(n, n.children@.len() as int)
}

/// Whether the first `k` children are well sorted.
pub open spec fn children_sorted(n: FolderNode, k: int) -> bool
    decreases n, k,
{
    if k <= 0 || k > n.children@.len() {
        true
    } else {
        children_sorted(n, k - 1) && well_sorted(n.children@[k - 1].1)
    }
}

/// Whether `new` is `old` with every node's size and count replaced by the
/// totals of its subtree (and its size text by their formatting).
pub open spec fn aggregated(new: FolderNode, old: FolderNode) -> bool
    decreases old, old.children@.len() + 1,
{
    &&& new.size_bytes == total_size(old)
    &&& new.file_count == total_count(old)
    &&& new.size_human@ == format_bytes_spec(total_size(old))
    &&& new.children@.len() == old.children@.len()
    &&& children_aggregated(new, old, old.children@.len() as int)
}

/// Whether the first `k` children of `new` aggregate those of `old`.
pub open spec fn children_aggregated(new: FolderNode, old: FolderNode, k: int) -> bool
    decreases old, k,
{
    if k <= 0 || k > old.children@.len() {
        true
    } else {
        &&& children_aggregated(new, old, k - 1)
        &&& new.children@[k - 1].0@ == old.children@[k - 1].0@
        &&& aggregated(new.children@[k - 1].1, old.children@[k - 1].1)
    }
}

/// Whether `new` is an empty node with the file inserted at `path`
/// (as `FolderNode::new` followed by `insert_file`).
pub open spec fn fresh_with(new: FolderNode, path: Seq<Seq<char>>, size: nat) -> bool
    decreases path.len(),
{
    &&& new.size_human@ == "0 B"@
    &&& if path.len() == 0 {
        new.size_bytes == size && new.file_count == 1 && new.children@.len() == 0
    } else {
        &&& new.size_bytes == 0
        &&& new.file_count == 0
        &&& new.children@.len() == 1
        &&& new.children@[0].0@ == path[0]
        &&& fresh_with(new.children@[0].1, path.drop_first(), size)
    }
}

/// The index of the child named `name`, or -1.
pub open spec fn child_pos(c: Seq<(String, FolderNode)>, name: Seq<char>) -> int {
    if exists|i: int| 0 <= i < c.len() && c[i].0@ == name {
        choose|i: int| 0 <= i < c.len() && c[i].0@ == name
    } else {
        -1
    }
}

/// Whether `new` is `old` with a file of `size` bytes recorded in the folder
/// at `path` (folders created as needed, in name order).
pub open spec fn after_insert(new: FolderNode, old: FolderNode, path: Seq<Seq<char>>, size: nat) -> bool
    decreases path.len(),
{
    if path.len() == 0 {
        &&& new.size_bytes == old.size_bytes + size
        &&& new.file_count == old.file_count + 1
        &&& new.size_human@ == old.size_human@
        &&& new.children@ == old.children@
    } else {
        let oc = old.children@;
        let nc = new.children@;
        &&& new.size_bytes == old.size_bytes
        &&& new.file_count == old.file_count
        &&& new.size_human@ == old.size_human@
        &&& if child_pos(oc, path[0]) >= 0 {
            let i = child_pos(oc, path[0]);
            &&& nc.len() == oc.len()
            &&& forall|j: int| 0 <= j < oc.len() && j != i ==> nc[j] == oc[j]
            &&& nc[i].0@ == path[0]
            &&& after_insert(nc[i].1, oc[i].1, path.drop_first(), size)
        } else {
            exists|p: int| 0 <= p <= oc.len() && {
                &&& nc.len() == oc.len() + 1
                &&& forall|j: int| 0 <= j < p ==> nc[j] == oc[j]
                &&& forall|j: int| p < j < nc.len() ==> nc[j] == oc[j - 1]
                &&& nc[p].0@ == path[0]
                &&& fresh_with(nc[p].1, path.drop_first(), size)
            }
        }
    }
}

proof fn lemma_children_size_split(n: FolderNode, k: int, i: int)
    requires
        0 <= i < k <= n.children@.len(),
    ensures
        children_size(n, k) >= total_size(n.children@[i].1),
        children_count(n, k) >= total_count(n.children@[i].1),
    decreases k,
{
    if i < k - 1 {
        lemma_children_size_split(n, k - 1, i);
    }
}

/// Sizes below a child are part of the parent's total.
proof fn lemma_child_within(n: FolderNode, i: int)
    requires
        0 <= i < n.children@.len(),
    ensures
        total_size(n.children@[i].1) <= total_size(n),
        total_count(n.children@[i].1) <= total_count(n),
{
    lemma_children_size_split(n, n.children@.len() as int, i);
}

/// Replacing one child changes the children's totals by the difference.
proof fn lemma_children_replace(a: FolderNode, b: FolderNode, i: int, k: int)
    requires
        a.children@.len() == b.children@.len(),
        0 <= i < a.children@.len(),
        0 <= k <= a.children@.len(),
        forall|j: int| 0 <= j < a.children@.len() && j != i ==> a.children@[j] == b.children@[j],
    ensures
        k <= i ==> children_size(a, k) == children_size(b, k) && children_count(a, k) == children_count(b, k),
        k > i ==> children_size(b, k) + total_size(a.children@[i].1) == children_size(a, k) + total_size(b.children@[i].1),
        k > i ==> children_count(b, k) + total_count(a.children@[i].1) == children_count(a, k) + total_count(b.children@[i].1),
    decreases k,
{
    if k > 0 {
        lemma_children_replace(a, b, i, k - 1);
    }
}

/// Inserting a child shifts the later ones.
proof fn lemma_children_insert(a: FolderNode, b: FolderNode, p: int, k: int)
    requires
        b.children@.len() == a.children@.len() + 1,
        0 <= p <= a.children@.len(),
        forall|j: int| 0 <= j < p ==> b.children@[j] == a.children@[j],
        forall|j: int| p < j < b.children@.len() ==> b.children@[j] == a.children@[j - 1],
        0 <= k <= a.children@.len(),
    ensures
        k <= p ==> children_size(b, k) == children_size(a, k) && children_count(b, k) == children_count(a, k),
        k >= p ==> children_size(b, k + 1) == children_size(a, k) + total_size(b.children@[p].1),
        k >= p ==> children_count(b, k + 1) == children_count(a, k) + total_count(b.children@[p].1),
    decreases k,
{
    if k > 0 {
        lemma_children_insert(a, b, p, k - 1);
    }
    if k >= p {
        assert(children_size(b, k + 1) == children_size(b, k) + total_size(b.children@[k].1));
        assert(children_count(b, k + 1) == children_count(b, k) + total_count(b.children@[k].1));
        if k > p {
            assert(b.children@[k] == a.children@[k - 1]);
            assert(children_size(a, k) == children_size(a, k - 1) + total_size(a.children@[k - 1].1));
            assert(children_count(a, k) == children_count(a, k - 1) + total_count(a.children@[k - 1].1));
        }
    }
}

proof fn lemma_fresh_totals(n: FolderNode, path: Seq<Seq<char>>, size: nat)
    requires
        fresh_with(n, path, size),
    ensures
        total_size(n) == size,
        total_count(n) == 1,
    decreases path.len(),
{
    if path.len() > 0 {
        lemma_fresh_totals(n.children@[0].1, path.drop_first(), size);
        assert(children_size(n, 0) == 0);
        assert(children_count(n, 0) == 0);
    } else {
        assert(children_size(n, 0) == 0);
        assert(children_count(n, 0) == 0);
    }
}

/// Recording a file adds its size and one file to the subtree totals.
proof fn lemma_insert_totals(new: FolderNode, old: FolderNode, path: Seq<Seq<char>>, size: nat)
    requires
        after_insert(new, old, path, size),
    ensures
        total_size(new) == total_size(old) + size,
        total_count(new) == total_count(old) + 1,
    decreases path.len(),
{
    if path.len() == 0 {
        assert(children_size(new, new.children@.len() as int) == children_size(old, old.children@.len() as int)) by {
            lemma_children_same(new, old, old.children@.len() as int);
        }
        assert(children_count(new, new.children@.len() as int) == children_count(old, old.children@.len() as int)) by {
            lemma_children_same(new, old, old.children@.len() as int);
        }
    } else {
        let oc = old.children@;
        let nc = new.children@;
        if child_pos(oc, path[0]) >= 0 {
            let i = child_pos(oc, path[0]);
            lemma_insert_totals(nc[i].1, oc[i].1, path.drop_first(), size);
            lemma_children_replace(new, old, i, oc.len() as int);
        } else {
            let p = choose|p: int| 0 <= p <= oc.len() && {
                &&& nc.len() == oc.len() + 1
                &&& forall|j: int| 0 <= j < p ==> nc[j] == oc[j]
                &&& forall|j: int| p < j < nc.len() ==> nc[j] == oc[j - 1]
                &&& nc[p].0@ == path[0]
                &&& fresh_with(nc[p].1, path.drop_first(), size)
            };
            lemma_fresh_totals(nc[p].1, path.drop_first(), size);
            lemma_children_insert(old, new, p, oc.len() as int);
        }
    }
}

proof fn lemma_children_same(a: FolderNode, b: FolderNode, k: int)
    requires
        a.children@ == b.children@,
    ensures
        children_size(a, k) == children_size(b, k),
        children_count(a, k) == children_count(b, k),
    decreases k,
{
    if k > 0 {
        lemma_children_same(a, b, k - 1);
    }
}

proof fn lemma_children_sorted_all(n: FolderNode, k: int, i: int)
    requires
        children_sorted(n, k),
        0 <= i < k <= n.children@.len(),
    ensures
        well_sorted(n.children@[i].1),
    decreases k,
{
    if i < k - 1 {
        lemma_children_sorted_all(n, k - 1, i);
    }
}

proof fn lemma_children_sorted_from(n: FolderNode, k: int)
    requires
        0 <= k <= n.children@.len(),
        forall|i: int| 0 <= i < k ==> well_sorted(#[trigger] n.children@[i].1),
    ensures
        children_sorted(n, k),
    decreases k,
{
    if k > 0 {
        lemma_children_sorted_from(n, k - 1);
    }
}

proof fn lemma_fresh_sorted(n: FolderNode, path: Seq<Seq<char>>, size: nat)
    requires
        fresh_with(n, path, size),
    ensures
        well_sorted(n),
    decreases path.len(),
{
    if path.len() > 0 {
        lemma_fresh_sorted(n.children@[0].1, path.drop_first(), size);
        lemma_children_sorted_from(n, 1);
    } else {
        lemma_children_sorted_from(n, 0);
    }
}

impl FolderNode {
    /// An empty folder.
    pub fn new() -> (r: FolderNode)
        ensures
            r.size_bytes == 0,
            r.file_count == 0,
            r.size_human@ == "0 B"@,
            r.children@.len() == 0,
    {
        FolderNode { size_bytes: 0, size_human: String::from_str("0 B"), file_count: 0, children: Vec::new() }
    }

    /// Record a file of `size_bytes` in the folder at `components` (relative to
    /// this node), creating folders as needed. Sizes and counts are added to
    /// the target folder only; `aggregate` computes subtree totals.
    pub fn insert_file(&mut self, components: &[&str], size_bytes: u64)
        requires
            well_sorted(*old(self)),
            total_size(*old(self)) + size_bytes <= u64::MAX,
            total_count(*old(self)) + 1 <= usize::MAX,
        ensures
            well_sorted(*final(self)),
            after_insert(*final(self), *old(self), components@.map_values(|c: &str| c@), size_bytes as nat),
            total_size(*final(self)) == total_size(*old(self)) + size_bytes,
            total_count(*final(self)) == total_count(*old(self)) + 1,
    {
        self.insert_from(components, 0, size_bytes);
        proof {
            assert(components@.map_values(|c: &str| c@).skip(0) =~= components@.map_values(|c: &str| c@));
        }
    }

    fn insert_from(&mut self, components: &[&str], start: usize, size_bytes: u64)
        requires
            start <= components@.len(),
            well_sorted(*old(self)),
            total_size(*old(self)) + size_bytes <= u64::MAX,
            total_count(*old(self)) + 1 <= usize::MAX,
        ensures
            well_sorted(*final(self)),
            after_insert(*final(self), *old(self), components@.map_values(|c: &str| c@).skip(start as int), size_bytes as nat),
            total_size(*final(self)) == total_size(*old(self)) + size_bytes,
            total_count(*final(self)) == total_count(*old(self)) + 1,
        decreases components@.len() - start,
    {
        let ghost path = components@.map_values(|c: &str| c@).skip(start as int);
        let ghost old_node = *self;
        if start == components.len() {
            proof {
                assert(children_size(old_node, old_node.children@.len() as int) >= 0);
            }
            self.size_bytes = self.size_bytes + size_bytes;
            self.file_count = self.file_count + 1;
            proof {
                assert(path.len() == 0);
                lemma_insert_totals(*self, old_node, path, size_bytes as nat);
                assert(well_sorted(*self)) by {
                    lemma_children_same(*self, old_node, 0);
                    assert forall|i: int| 0 <= i < self.children@.len() implies well_sorted(#[trigger] self.children@[i].1) by {
                        lemma_children_sorted_all(old_node, old_node.children@.len() as int, i);
                    }
                    lemma_children_sorted_from(*self, self.children@.len() as int);
                }
            }
            return;
        }
        let name = chars_of(components[start]);
        proof {
            assert(path[0] == name@);
            assert(path.drop_first() =~= components@.map_values(|c: &str| c@).skip(start + 1));
        }
        let (found, pos) = locate_name(&self.children, name.as_slice());
        if found {
            let (cname, mut child) = self.children.remove(pos);
            proof {
                lemma_child_within(old_node, pos as int);
                lemma_children_sorted_all(old_node, old_node.children@.len() as int, pos as int);
                assert(child == old_node.children@[pos as int].1);
            }
            child.insert_from(components, start + 1, size_bytes);
            self.children.insert(pos, (cname, child));
            proof {
                let nc = self.children@;
                let oc = old_node.children@;
                assert(nc.len() == oc.len());
                assert forall|j: int| 0 <= j < oc.len() && j != pos implies nc[j] == oc[j] by {}
                assert(child_pos(oc, path[0]) >= 0);
                let i = child_pos(oc, path[0]);
                assert(i == pos) by {
                    if i != pos {
                        if i < pos {
                            assert(seq_lt(oc[i].0@, oc[pos as int].0@));
                        } else {
                            assert(seq_lt(oc[pos as int].0@, oc[i].0@));
                        }
                        lemma_lt_irreflexive(name@);
                    }
                }
                lemma_insert_totals(*self, old_node, path, size_bytes as nat);
                assert(names_sorted(nc)) by {
                    assert forall|a: int, b: int| 0 <= a < b < nc.len() implies seq_lt(#[trigger] nc[a].0@, #[trigger] nc[b].0@) by {
                        assert(nc[a].0@ == oc[a].0@);
                        assert(nc[b].0@ == oc[b].0@);
                    }
                }
                assert forall|j: int| 0 <= j < nc.len() implies well_sorted(#[trigger] nc[j].1) by {
                    if j != pos {
                        lemma_children_sorted_all(old_node, oc.len() as int, j);
                    }
                }
                lemma_children_sorted_from(*self, nc.len() as int);
            }
        } else {
            let mut child = FolderNode::new();
            let ghost empty = child;
            proof {
                assert(children_size(child, 0) == 0);
                assert(children_count(child, 0) == 0);
                lemma_children_sorted_from(child, 0);
            }
            child.insert_from(components, start + 1, size_bytes);
            proof {
                lemma_insert_into_empty(child, empty, path.drop_first(), size_bytes as nat);
            }
            self.children.insert(pos, (string_of(name.as_slice()), child));
            proof {
                let nc = self.children@;
                let oc = old_node.children@;
                assert(child_pos(oc, path[0]) < 0);
                assert(nc[pos as int].0@ == path[0]);
                lemma_insert_totals(*self, old_node, path, size_bytes as nat);
                assert(names_sorted(nc)) by {
                    assert forall|a: int, b: int| 0 <= a < b < nc.len() implies seq_lt(#[trigger] nc[a].0@, #[trigger] nc[b].0@) by {
                        if a < pos && b < pos {
                        } else if a < pos && b == pos {
                        } else if a < pos {
                            lemma_lt_transitive(oc[a].0@, name@, oc[b - 1].0@);
                        } else if a == pos {
                        } else {
                        }
                    }
                }
                assert forall|j: int| 0 <= j < nc.len() implies well_sorted(#[trigger] nc[j].1) by {
                    if j < pos {
                        lemma_children_sorted_all(old_node, oc.len() as int, j);
                    } else if j > pos {
                        lemma_children_sorted_all(old_node, oc.len() as int, j - 1);
                    } else {
                        lemma_fresh_sorted(child, path.drop_first(), size_bytes as nat);
                    }
                }
                lemma_children_sorted_from(*self, nc.len() as int);
            }
        }
    }
}

/// Recording a file in an empty node gives `fresh_with` that path.
proof fn lemma_insert_into_empty(new: FolderNode, old: FolderNode, path: Seq<Seq<char>>, size: nat)
    requires
        after_insert(new, old, path, size),
        old.size_bytes == 0,
        old.file_count == 0,
        old.size_human@ == "0 B"@,
        old.children@.len() == 0,
    ensures
        fresh_with(new, path, size),
{
    if path.len() > 0 {
        assert(child_pos(old.children@, path[0]) == -1);
    }
}

proof fn lemma_children_aggregated_from(new: FolderNode, old: FolderNode, k: int)
    requires
        new.children@.len() == old.children@.len(),
        0 <= k <= old.children@.len(),
        forall|j: int| 0 <= j < k ==> #[trigger] new.children@[j].0@ == old.children@[j].0@
            && aggregated(new.children@[j].1, old.children@[j].1),
    ensures
        children_aggregated(new, old, k),
    decreases k,
{
    if k > 0 {
        lemma_children_aggregated_from(new, old, k - 1);
    }
}

proof fn lemma_children_aggregated_all(new: FolderNode, old: FolderNode, k: int, j: int)
    requires
        children_aggregated(new, old, k),
        0 <= j < k <= old.children@.len(),
    ensures
        new.children@[j].0@ == old.children@[j].0@,
        aggregated(new.children@[j].1, old.children@[j].1),
    decreases k,
{
    if j < k - 1 {
        lemma_children_aggregated_all(new, old, k - 1, j);
    }
}

/// Aggregation keeps the names, so it keeps every level sorted.
proof fn lemma_aggregated_sorted(new: FolderNode, old: FolderNode)
    requires
        aggregated(new, old),
        well_sorted(old),
    ensures
        well_sorted(new),
    decreases old, old.children@.len() + 1,
{
    let k = old.children@.len() as int;
    assert forall|j: int| 0 <= j < k implies well_sorted(#[trigger] new.children@[j].1) && new.children@[j].0@ == old.children@[j].0@ by {
        lemma_children_aggregated_all(new, old, k, j);
        lemma_children_sorted_all(old, k, j);
        assert(decreases_to!(old => old.children));
        assert(decreases_to!(old.children => old.children@));
        assert(decreases_to!(old.children@ => old.children@[j]));
        assert(decreases_to!(old.children@[j] => old.children@[j].1));
        lemma_aggregated_sorted(new.children@[j].1, old.children@[j].1);
    }
    assert(names_sorted(new.children@)) by {
        assert forall|a: int, b: int| 0 <= a < b < new.children@.len() implies seq_lt(#[trigger] new.children@[a].0@, #[trigger] new.children@[b].0@) by {
            lemma_children_aggregated_all(new, old, k, a);
            lemma_children_aggregated_all(new, old, k, b);
        }
    }
    lemma_children_sorted_from(new, k);
}

/// The tree with each node's size and count replaced by its subtree totals.
fn aggregate_owned(node: FolderNode) -> (r: FolderNode)
    requires
        total_size(node) <= u64::MAX,
        total_count(node) <= usize::MAX,
    ensures
        aggregated(r, node),
    decreases node,
{
    let ghost gnode = node;
    let FolderNode { size_bytes, size_human: _, file_count, children } = node;
    let mut out: Vec<(String, FolderNode)> = Vec::new();
    let mut rest = children;
    let ghost orig = rest@;
    let mut sum_size: u64 = size_bytes;
    let mut sum_count: usize = file_count;
    let mut i: usize = 0;
    proof {
        assert(rest@.skip(0) =~= rest@);
        assert(orig.len() == rest.len());
    }
    while rest.len() > 0
        invariant
            orig.len() <= usize::MAX,
            gnode == node,
            orig == gnode.children@,
            i <= orig.len(),
            rest@ == orig.skip(i as int),
            out@.len() == i,
            forall|j: int| 0 <= j < i ==> #[trigger] out@[j].0@ == orig[j].0@ && aggregated(out@[j].1, orig[j].1),
            sum_size == gnode.size_bytes + children_size(gnode, i as int),
            sum_count == gnode.file_count + children_count(gnode, i as int),
            total_size(gnode) <= u64::MAX,
            total_count(gnode) <= usize::MAX,
        decreases rest.len(),
    {
        let (name, child) = rest.remove(0);
        proof {
            assert(child == orig[i as int].1);
            assert(name == orig[i as int].0);
            assert(rest@ =~= orig.skip(i + 1));
            assert(decreases_to!(gnode => gnode.children));
            assert(decreases_to!(gnode.children => gnode.children@));
            assert(decreases_to!(gnode.children@ => gnode.children@[i as int]));
            assert(decreases_to!(gnode.children@[i as int] => gnode.children@[i as int].1));
            lemma_child_within(gnode, i as int);
            lemma_children_prefix(gnode, i + 1);
        }
        let c2 = aggregate_owned(child);
        sum_size = sum_size + c2.size_bytes;
        sum_count = sum_count + c2.file_count;
        out.push((name, c2));
        i = i + 1;
    }
    proof {
        assert(i == orig.len()) by {
            assert(orig.skip(i as int).len() == 0);
        }
    }
    let r = FolderNode { size_bytes: sum_size, size_human: format_bytes(sum_size), file_count: sum_count, children: out };
    proof {
        lemma_children_aggregated_from(r, gnode, orig.len() as int);
    }
    r
}

proof fn lemma_children_prefix(n: FolderNode, k: int)
    requires
        0 <= k <= n.children@.len(),
    ensures
        n.size_bytes + children_size(n, k) <= total_size(n),
        n.file_count + children_count(n, k) <= total_count(n),
    decreases n.children@.len() - k,
{
    if k < n.children@.len() {
        lemma_children_prefix(n, k + 1);
    }
}

impl FolderNode {
    /// Replace every node's size and file count by the totals of its subtree
    /// (bottom-up), and its size text by their formatting.
    pub fn aggregate(&mut self)
        requires
            total_size(*old(self)) <= u64::MAX,
            total_count(*old(self)) <= usize::MAX,
        ensures
            aggregated(*final(self), *old(self)),
            well_sorted(*old(self)) ==> well_sorted(*final(self)),
    {
        let mut node = FolderNode::new();
        std::mem::swap(&mut node, self);
        *self = aggregate_owned(node);
        proof {
            if well_sorted(node) {
                lemma_aggregated_sorted(*self, node);
            }
        }
    }
}

/// The pieces of a `/`-separated path that are not empty.
pub open spec fn nonempty_pieces(segs: Seq<Seq<char>>) -> Seq<Seq<char>>
    decreases segs.len(),
{
    if segs.len() == 0 {
        Seq::empty()
    } else {
        let p = nonempty_pieces(segs.drop_last());
        if segs.last().len() > 0 {
            p.push(segs.last())
        } else {
            p
        }
    }
}

/// The folder part of a relative file path: its non-empty `/`-separated
/// pieces without the last one (the file name).
pub open spec fn folder_parts(rel: Seq<char>) -> Seq<Seq<char>> {
    let p = nonempty_pieces(split_slash(rel));
    if p.len() > 1 {
        p.take(p.len() - 1)
    } else {
        Seq::empty()
    }
}

/// The total size of the files on mountpoint `key`.
pub open spec fn mount_size(files: Seq<FileInfo>, key: Seq<char>) -> nat
    decreases files.len(),
{
    if files.len() == 0 {
        0
    } else {
        mount_size(files.drop_last(), key) + if files.last().mountpoint@ == key {
            files.last().size_bytes as nat
        } else {
            0
        }
    }
}

/// The number of files on mountpoint `key`.
pub open spec fn mount_count(files: Seq<FileInfo>, key: Seq<char>) -> nat
    decreases files.len(),
{
    if files.len() == 0 {
        0
    } else {
        mount_count(files.drop_last(), key) + if files.last().mountpoint@ == key {
            1nat
        } else {
            0
        }
    }
}

/// The total size of all files.
pub open spec fn all_size(files: Seq<FileInfo>) -> nat
    decreases files.len(),
{
    if files.len() == 0 {
        0
    } else {
        all_size(files.drop_last()) + files.last().size_bytes as nat
    }
}

proof fn lemma_mount_bounds(files: Seq<FileInfo>, key: Seq<char>)
    ensures
        mount_size(files, key) <= all_size(files),
        mount_count(files, key) <= files.len(),
    decreases files.len(),
{
    if files.len() > 0 {
        lemma_mount_bounds(files.drop_last(), key);
    }
}

pub(crate) proof fn lemma_all_size_prefix(files: Seq<FileInfo>, n: int)
    requires
        0 <= n <= files.len(),
    ensures
        all_size(files.take(n)) <= all_size(files),
    decreases files.len() - n,
{
    if n < files.len() {
        lemma_all_size_prefix(files, n + 1);
        assert(files.take(n + 1).drop_last() =~= files.take(n));
    } else {
        assert(files.take(n) =~= files);
    }
}

proof fn lemma_mount_absent(files: Seq<FileInfo>, key: Seq<char>)
    requires
        forall|k: int| 0 <= k < files.len() ==> #[trigger] files[k].mountpoint@ != key,
    ensures
        mount_size(files, key) == 0,
        mount_count(files, key) == 0,
    decreases files.len(),
{
    if files.len() > 0 {
        assert forall|k: int| 0 <= k < files.drop_last().len() implies #[trigger] files.drop_last()[k].mountpoint@ != key by {
            assert(files.drop_last()[k] == files[k]);
        }
        lemma_mount_absent(files.drop_last(), key);
    }
}

/// The non-empty `/`-separated pieces of `s`.
fn split_nonempty(s: &[char]) -> (r: Vec<String>)
    ensures
        r@.map_values(|x: String| x@) == nonempty_pieces(split_slash(s@)),
{
    let mut done: Vec<String> = Vec::new();
    let mut cur: Vec<char> = Vec::new();
    let ghost mut closed: Seq<Seq<char>> = Seq::empty();
    let mut i: usize = 0;
    proof {
        assert(s@.take(0) =~= Seq::<char>::empty());
    }
    while i < s.len()
        invariant
            i <= s@.len(),
            split_slash(s@.take(i as int)) == closed.push(cur@),
            done@.map_values(|x: String| x@) == nonempty_pieces(closed),
        decreases s@.len() - i,
    {
        let c = s[i];
        proof {
            assert(s@.take(i + 1).drop_last() =~= s@.take(i as int));
            assert(s@.take(i + 1).last() == c);
        }
        if c == '/' {
            let ghost old_done = done@;
            proof {
                let nc = closed.push(cur@);
                assert(nc.drop_last() =~= closed);
                assert(nc.last() == cur@);
            }
            if cur.len() > 0 {
                done.push(string_of(cur.as_slice()));
                assert(done@.map_values(|x: String| x@) =~= old_done.map_values(|x: String| x@).push(cur@));
            }
            proof {
                closed = closed.push(cur@);
            }
            cur = Vec::new();
            proof {
                assert(split_slash(s@.take(i + 1)) =~= closed.push(cur@));
            }
        } else {
            cur.push(c);
            proof {
                assert(split_slash(s@.take(i + 1)) =~= closed.push(cur@));
            }
        }
        i = i + 1;
    }
    proof {
        assert(s@.take(i as int) =~= s@);
        let nc = closed.push(cur@);
        assert(nc.drop_last() =~= closed);
        assert(nc.last() == cur@);
    }
    if cur.len() > 0 {
        let ghost old_done = done@;
        done.push(string_of(cur.as_slice()));
        assert(done@.map_values(|x: String| x@) =~= old_done.map_values(|x: String| x@).push(cur@));
    }
    done
}

/// Whether `n` is an empty folder, as `FolderNode::new` makes it.
pub open spec fn empty_folder(n: FolderNode) -> bool {
    n.size_bytes == 0 && n.file_count == 0 && n.size_human@ == "0 B"@ && n.children@.len() == 0
}

/// Whether `chain[k]` is the tree after the first `k` files of `files` were
/// considered: it starts as an empty folder, and each file on mountpoint
/// `key` is recorded in the folder of its relative path (`insert_file`) while
/// the other files leave the tree as it is; every tree before the last is
/// well sorted.
pub open spec fn build_chain(chain: Seq<FolderNode>, files: Seq<FileInfo>, key: Seq<char>) -> bool {
    &&& chain.len() == files.len() + 1
    &&& empty_folder(chain[0])
    &&& forall|k: int| 0 <= k < files.len() ==> #[trigger] chain_step(chain, files, key, k)
}

/// Step `k` of a build chain (see `build_chain`).
pub open spec fn chain_step(chain: Seq<FolderNode>, files: Seq<FileInfo>, key: Seq<char>, k: int) -> bool {
    &&& well_sorted(chain[k])
    &&& if files[k].mountpoint@ == key {
        after_insert(chain[k + 1], chain[k], folder_parts(files[k].relative_path@), files[k].size_bytes as nat)
    } else {
        chain[k + 1] == chain[k]
    }
}

/// Whether `n` is the folder tree that an empty folder becomes when each
/// file of `files` on mountpoint `key` is recorded, in order, in the folder
/// of its relative path (`insert_file`).
pub open spec fn built_from(n: FolderNode, files: Seq<FileInfo>, key: Seq<char>) -> bool {
    exists|chain: Seq<FolderNode>| #[trigger] build_chain(chain, files, key) && chain.last() == n
}

/// Considering one more file extends the build.
proof fn lemma_built_step(n: FolderNode, prev: FolderNode, files: Seq<FileInfo>, key: Seq<char>)
    requires
        files.len() > 0,
        built_from(prev, files.drop_last(), key),
        well_sorted(prev),
        files.last().mountpoint@ == key ==> after_insert(n, prev, folder_parts(files.last().relative_path@), files.last().size_bytes as nat),
        files.last().mountpoint@ != key ==> n == prev,
    ensures
        built_from(n, files, key),
{
    let d = files.drop_last();
    let c = choose|c: Seq<FolderNode>| #[trigger] build_chain(c, d, key) && c.last() == prev;
    let c2 = c.push(n);
    assert forall|k: int| 0 <= k < files.len() implies #[trigger] chain_step(c2, files, key, k) by {
        if k < d.len() {
            assert(chain_step(c, d, key, k));
            assert(c2[k] == c[k] && c2[k + 1] == c[k + 1]);
            assert(files[k] == d[k]);
        } else {
            assert(c2[k] == prev);
            assert(c2[k + 1] == n);
        }
    }
    assert(build_chain(c2, files, key));
}

/// An empty folder is what files none of which lies on `key` build.
proof fn lemma_built_from_absent(n: FolderNode, files: Seq<FileInfo>, key: Seq<char>)
    requires
        empty_folder(n),
        forall|k: int| 0 <= k < files.len() ==> (#[trigger] files[k]).mountpoint@ != key,
    ensures
        built_from(n, files, key),
{
    let c = Seq::new((files.len() + 1) as nat, |k: int| n);
    assert(c.last() == n);
    assert forall|k: int| 0 <= k < files.len() implies #[trigger] chain_step(c, files, key, k) by {
        assert(files[k].mountpoint@ != key);
        assert(n.children@.len() == 0);
        assert(well_sorted(n)) by {
            assert(names_sorted(n.children@));
        }
    }
    assert(build_chain(c, files, key));
}

/// Whether `roots` are the folder trees of `files`, one per mountpoint in
/// increasing order, each holding the files' sizes and counts aggregated
/// bottom-up (so a root's size and count are those of all files on it).
pub open spec fn folder_tree_of(roots: Seq<(String, FolderNode)>, files: Seq<FileInfo>) -> bool {
    &&& names_sorted(roots)
    &&& forall|k: int| #![trigger files[k]] 0 <= k < files.len() ==> exists|j: int| 0 <= j < roots.len() && #[trigger] roots[j].0@ == files[k].mountpoint@
    &&& forall|j: int| 0 <= j < roots.len() ==> {
        let key = (#[trigger] roots[j]).0@;
        let n = roots[j].1;
        &&& mount_count(files, key) > 0
        &&& n.size_bytes == mount_size(files, key)
        &&& n.file_count == mount_count(files, key)
        &&& n.size_human@ == format_bytes_spec(mount_size(files, key))
        &&& well_sorted(n)
        &&& exists|raw: FolderNode| well_sorted(raw) && built_from(raw, files, key) && #[trigger] aggregated(n, raw)
    }
}

/// The folder tree of every mountpoint: each file is recorded in the folder
/// of its relative path on its mountpoint, then sizes and counts are
/// aggregated bottom-up.
pub fn build_folder_tree(files: &[FileInfo]) -> (r: Vec<(String, FolderNode)>)
    requires
        all_size(files@) <= u64::MAX,
    ensures
        folder_tree_of(r@, files@),
{
    let mut roots: Vec<(String, FolderNode)> = Vec::new();
    let mut i: usize = 0;
    while i < files.len()
        invariant
            i <= files@.len(),
            all_size(files@) <= u64::MAX,
            names_sorted(roots@),
            forall|k: int| #![trigger files@[k]] 0 <= k < i ==> exists|j: int| 0 <= j < roots@.len() && #[trigger] roots@[j].0@ == files@[k].mountpoint@,
            forall|j: int| 0 <= j < roots@.len() ==> {
                let key = (#[trigger] roots@[j]).0@;
                &&& mount_count(files@.take(i as int), key) > 0
                &&& total_size(roots@[j].1) == mount_size(files@.take(i as int), key)
                &&& total_count(roots@[j].1) == mount_count(files@.take(i as int), key)
                &&& well_sorted(roots@[j].1)
                &&& built_from(roots@[j].1, files@.take(i as int), key)
            },
        decreases files@.len() - i,
    {
        let ghost pre = files@.take(i as int);
        let ghost nxt = files@.take(i + 1);
        let f = &files[i];
        proof {
            assert(files@[i as int] == *f);
            assert(nxt.drop_last() =~= pre);
            assert(nxt.last() == files@[i as int]);
            lemma_all_size_prefix(files@, i + 1);
            lemma_mount_bounds(nxt, f.mountpoint@);
        }
        let key = chars_of(f.mountpoint.as_str());
        let (found, pos) = locate_name(&roots, key.as_slice());
        let ghost old_roots = roots@;
        let (rkey, mut node) = if found {
            roots.remove(pos)
        } else {
            let n = FolderNode::new();
            proof {
                assert(children_size(n, 0) == 0);
                assert(children_count(n, 0) == 0);
                lemma_children_sorted_from(n, 0);
                assert forall|k: int| 0 <= k < pre.len() implies #[trigger] pre[k].mountpoint@ != key@ by {
                    let j = choose|j: int| 0 <= j < old_roots.len() && #[trigger] old_roots[j].0@ == files@[k].mountpoint@;
                    assert(pre[k] == files@[k]);
                }
                lemma_mount_absent(pre, key@);
                lemma_built_from_absent(n, pre, key@);
            }
            (string_of(key.as_slice()), n)
        };
        let ghost before = node;
        proof {
            if found {
                assert(before == old_roots[pos as int].1);
            }
            assert(total_size(before) == mount_size(pre, key@));
            assert(total_count(before) == mount_count(pre, key@));
            assert(built_from(before, pre, key@));
        }
        let rel = chars_of(f.relative_path.as_str());
        let pieces = split_nonempty(rel.as_slice());
        let ghost pv = pieces@.map_values(|x: String| x@);
        let mut dirs: Vec<&str> = Vec::new();
        if pieces.len() > 1 {
            let mut k: usize = 0;
            while k < pieces.len() - 1
                invariant
                    pieces@.len() > 1,
                    k <= pieces@.len() - 1,
                    dirs@.map_values(|x: &str| x@) == pv.take(k as int),
                    pv == pieces@.map_values(|x: String| x@),
                decreases pieces@.len() - 1 - k,
            {
                let ghost od = dirs@;
                dirs.push(pieces[k].as_str());
                proof {
                    assert(dirs@.map_values(|x: &str| x@) =~= od.map_values(|x: &str| x@).push(pv[k as int]));
                    assert(pv.take(k + 1) =~= pv.take(k as int).push(pv[k as int]));
                }
                k = k + 1;
            }
        }
        proof {
            if pv.len() <= 1 {
                assert(dirs@.map_values(|x: &str| x@) =~= folder_parts(f.relative_path@));
            } else {
                assert(dirs@.map_values(|x: &str| x@) == folder_parts(f.relative_path@));
            }
        }
        node.insert_file(dirs.as_slice(), f.size_bytes);
        let ghost after = node;
        roots.insert(pos, (rkey, node));
        proof {
            let nr = roots@;
            assert(nr[pos as int].0@ == key@);
            assert(nr[pos as int].1 == after);
            if found {
                assert(nr.len() == old_roots.len());
                assert forall|j: int| 0 <= j < nr.len() && j != pos implies nr[j] == old_roots[j] by {}
            } else {
                assert(nr.len() == old_roots.len() + 1);
            }
            assert(names_sorted(nr)) by {
                assert forall|a: int, b: int| 0 <= a < b < nr.len() implies seq_lt(#[trigger] nr[a].0@, #[trigger] nr[b].0@) by {
                    if found {
                    } else {
                        if a < pos && b > pos {
                            lemma_lt_transitive(old_roots[a].0@, key@, old_roots[b - 1].0@);
                        }
                    }
                }
            }
            assert(built_from(after, nxt, key@)) by {
                assert(nxt.last() == *f);
                lemma_built_step(after, before, nxt, key@);
            }
            assert forall|j: int| 0 <= j < nr.len() implies {
                let kk = (#[trigger] nr[j]).0@;
                &&& mount_count(nxt, kk) > 0
                &&& total_size(nr[j].1) == mount_size(nxt, kk)
                &&& total_count(nr[j].1) == mount_count(nxt, kk)
                &&& well_sorted(nr[j].1)
                &&& built_from(nr[j].1, nxt, kk)
            } by {
                if j == pos {
                } else {
                    let oj = if found || j < pos { j } else { j - 1 };
                    assert(nr[j] == old_roots[oj]);
                    if oj < pos {
                        assert(seq_lt(old_roots[oj].0@, key@) || (found && oj != pos));
                    }
                    assert(nr[j].0@ != key@) by {
                        if found {
                            if oj < pos {
                                assert(seq_lt(old_roots[oj].0@, old_roots[pos as int].0@));
                            } else {
                                assert(seq_lt(old_roots[pos as int].0@, old_roots[oj].0@));
                            }
                            lemma_lt_irreflexive(key@);
                        } else {
                            lemma_lt_irreflexive(key@);
                        }
                    }
                    assert(nxt.last() == *f);
                    assert(built_from(old_roots[oj].1, pre, old_roots[oj].0@));
                    lemma_built_step(nr[j].1, nr[j].1, nxt, nr[j].0@);
                }
            }
            assert forall|k: int| #![trigger files@[k]] 0 <= k < i + 1 implies exists|j: int| 0 <= j < nr.len() && #[trigger] nr[j].0@ == files@[k].mountpoint@ by {
                if k == i {
                    assert(files@[k] == *f);
                    assert(nr[pos as int].0@ == files@[k].mountpoint@);
                } else {
                    let j0 = choose|j: int| 0 <= j < old_roots.len() && #[trigger] old_roots[j].0@ == files@[k].mountpoint@;
                    if j0 == pos && found {
                        assert(nr[j0].0@ == old_roots[j0].0@);
                    } else if found || j0 < pos {
                        assert(nr[j0] == old_roots[j0]);
                    } else {
                        assert(nr[j0 + 1] == old_roots[j0]);
                    }
                }
            }
        }
        i = i + 1;
    }
    proof {
        assert(files@.take(files@.len() as int) =~= files@);
    }
    let file_total = files.len();
    let mut out: Vec<(String, FolderNode)> = Vec::new();
    let mut rest = roots;
    let ghost orig = rest@;
    let mut m: usize = 0;
    proof {
        assert(rest@.skip(0) =~= rest@);
        assert(orig.len() == rest.len());
    }
    while rest.len() > 0
        invariant
            orig.len() <= usize::MAX,
            file_total == files@.len(),
            m <= orig.len(),
            rest@ == orig.skip(m as int),
            out@.len() == m,
            all_size(files@) <= u64::MAX,
            names_sorted(orig),
            forall|j: int| 0 <= j < orig.len() ==> {
                let key = (#[trigger] orig[j]).0@;
                &&& mount_count(files@, key) > 0
                &&& total_size(orig[j].1) == mount_size(files@, key)
                &&& total_count(orig[j].1) == mount_count(files@, key)
                &&& well_sorted(orig[j].1)
                &&& built_from(orig[j].1, files@, key)
            },
            forall|j: int| 0 <= j < m ==> (#[trigger] out@[j]).0@ == orig[j].0@ && aggregated(out@[j].1, orig[j].1)
                && well_sorted(out@[j].1),
        decreases rest.len(),
    {
        let (name, mut node) = rest.remove(0);
        proof {
            assert(name == orig[m as int].0 && node == orig[m as int].1);
            assert(rest@ =~= orig.skip(m + 1));
            lemma_mount_bounds(files@, name@);
            assert(files@.len() <= usize::MAX);
            assert(total_size(node) <= u64::MAX);
            assert(total_count(node) <= usize::MAX);
        }
        node.aggregate();
        out.push((name, node));
        m = m + 1;
    }
    proof {
        assert(m == orig.len()) by {
            assert(orig.skip(m as int).len() == 0);
        }
        assert(names_sorted(out@)) by {
            assert forall|a: int, b: int| 0 <= a < b < out@.len() implies seq_lt(#[trigger] out@[a].0@, #[trigger] out@[b].0@) by {
                assert(out@[a].0@ == orig[a].0@);
                assert(out@[b].0@ == orig[b].0@);
            }
        }
        assert forall|k: int| #![trigger files@[k]] 0 <= k < files@.len() implies exists|j: int| 0 <= j < out@.len() && #[trigger] out@[j].0@ == files@[k].mountpoint@ by {
            let j0 = choose|j: int| 0 <= j < orig.len() && #[trigger] orig[j].0@ == files@[k].mountpoint@;
            assert(out@[j0].0@ == orig[j0].0@);
        }
        assert forall|j: int| 0 <= j < out@.len() implies exists|raw: FolderNode| well_sorted(raw)
            && built_from(raw, files@, (#[trigger] out@[j]).0@) && aggregated(out@[j].1, raw) by {
            assert(aggregated(out@[j].1, orig[j].1));
            assert(built_from(orig[j].1, files@, orig[j].0@));
        }
    }
    out
}

} // verus!
