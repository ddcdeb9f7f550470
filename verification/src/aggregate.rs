//! Bottom-up size aggregation and size-ordering of children.

use vstd::prelude::*;

verus! {

use crate::tree::FileTree;
use crate::tree::FileNode;
use crate::tree::NodeId;
use vstd::multiset::Multiset;

/// Sum of the sizes of the first `upto` children of node `i`, read from
/// `nodes`, as an unbounded integer.
pub open spec fn child_size_sum(nodes: Seq<FileNode>, i: int, upto: int) -> int
    decreases upto,
{
    if upto <= 0 {
        0
    } else {
        child_size_sum(nodes, i, upto - 1) + nodes[nodes[i].children@[upto - 1].0 as int].size
    }
}

/// An integer clamped to the `u64` range from above.
pub open spec fn sat_u64(v: int) -> int {
    if v > u64::MAX {
        u64::MAX as int
    } else {
        v
    }
}

/// The two nodes agree on everything except possibly the size.
pub open spec fn same_but_size(a: FileNode, b: FileNode) -> bool {
    &&& a.name == b.name
    &&& a.is_dir == b.is_dir
    &&& a.extension_id == b.extension_id
    &&& a.parent == b.parent
    &&& a.children == b.children
    &&& a.depth == b.depth
}

/// Compute aggregated sizes for all directory nodes, children before
/// parents. Afterwards every directory's size is the sum of its direct
/// children's (already aggregated) sizes, saturating at `u64::MAX`.
///
/// Children always carry larger arena indices than their parent, so one
/// right-to-left pass settles every directory.
#[verifier::loop_isolation(false)]
pub fn aggregate_sizes(tree: &mut FileTree)
    requires
        old(tree).wf(),
    ensures
        final(tree).wf(),
        final(tree).nodes@.len() == old(tree).nodes@.len(),
        final(tree).root == old(tree).root,
        final(tree).extensions@ == old(tree).extensions@,
        forall|i: int|
            0 <= i < old(tree).nodes@.len() ==> same_but_size(
                #[trigger] final(tree).nodes@[i],
                old(tree).nodes@[i],
            ),
        forall|i: int|
            0 <= i < old(tree).nodes@.len() && !old(tree).nodes@[i].is_dir ==> (
            #[trigger] final(tree).nodes@[i]).size == old(tree).nodes@[i].size,
        forall|i: int|
            0 <= i < old(tree).nodes@.len() && old(tree).nodes@[i].is_dir ==> (
            #[trigger] final(tree).nodes@[i]).size == sat_u64(
                child_size_sum(
                    final(tree).nodes@,
                    i,
                    final(tree).nodes@[i].children@.len() as int,
                ),
            ),
{
    let len = tree.nodes.len();
    let mut idx: usize = len;
    while idx > 0
        invariant
            idx <= len,
            tree.nodes@.len() == len,
            tree.wf(),
            tree.root == old(tree).root,
            tree.extensions@ == old(tree).extensions@,
            forall|i: int|
                0 <= i < len ==> same_but_size(#[trigger] tree.nodes@[i], old(tree).nodes@[i]),
            forall|i: int|
                0 <= i < idx ==> (#[trigger] tree.nodes@[i]).size == old(tree).nodes@[i].size,
            forall|i: int|
                idx <= i < len && !old(tree).nodes@[i].is_dir ==> (
                #[trigger] tree.nodes@[i]).size == old(tree).nodes@[i].size,
            forall|i: int|
                idx <= i < len && old(tree).nodes@[i].is_dir ==> (
                #[trigger] tree.nodes@[i]).size == sat_u64(
                    child_size_sum(tree.nodes@, i, tree.nodes@[i].children@.len() as int),
                ),
        decreases idx,
    {
        idx = idx - 1;
        if tree.nodes[idx].is_dir {
            let ghost nodes_at_entry = tree.nodes@;
            let mut total: u64 = 0;
            let mut c: usize = 0;
            let child_count = tree.nodes[idx].children.len();
            while c < child_count
                invariant
                    c <= child_count,
                    tree.nodes@ == nodes_at_entry,
                    child_count == tree.nodes@[idx as int].children@.len(),
                    idx < len,
                    total == sat_u64(child_size_sum(tree.nodes@, idx as int, c as int)),
                decreases child_count - c,
            {
                let child_id = tree.nodes[idx].children[c];
                let sz = tree.nodes[child_id.index()].size;
                total = if total > u64::MAX - sz {
                    u64::MAX
                } else {
                    total + sz
                };
                c = c + 1;
            }
            let node = &mut tree.nodes[idx];
            node.size = total;
            proof {
                // only the size at `idx` changed; the sums read from nodes
                // above `idx` are untouched
                assert forall|i: int|
                    idx < i < len implies child_size_sum(
                    tree.nodes@,
                    i,
                    tree.nodes@[i].children@.len() as int,
                ) == child_size_sum(
                    nodes_at_entry,
                    i,
                    nodes_at_entry[i].children@.len() as int,
                ) by {
                    lemma_child_sum_same(tree.nodes@, nodes_at_entry, i,
                        tree.nodes@[i].children@.len() as int);
                }
                assert(child_size_sum(tree.nodes@, idx as int, child_count as int)
                    == child_size_sum(nodes_at_entry, idx as int, child_count as int)) by {
                    lemma_child_sum_same(tree.nodes@, nodes_at_entry, idx as int,
                        child_count as int);
                }
            }
        }
    }
}

/// The ids are sorted so that the sizes of the nodes they point at never
/// increase.
pub open spec fn ids_sorted_by_size_desc(nodes: Seq<FileNode>, ids: Seq<NodeId>) -> bool {
    forall|a: int, b: int|
        0 <= a <= b < ids.len() ==> nodes[(#[trigger] ids[a]).0 as int].size >= nodes[(
        #[trigger] ids[b]).0 as int].size
}

/// Reorder node ids so the largest node comes first, by repeatedly moving
/// the largest remaining entry over. Returns a permutation of the input.
#[verifier::loop_isolation(false)]
pub fn sort_ids_by_size_desc(tree: &FileTree, ids: Vec<NodeId>) -> (out: Vec<NodeId>)
    requires
        forall|k: int| 0 <= k < ids@.len() ==> (#[trigger] ids@[k]).0 < tree.nodes@.len(),
    ensures
        out@.len() == ids@.len(),
        out@.to_multiset() == ids@.to_multiset(),
        ids_sorted_by_size_desc(tree.nodes@, out@),
        forall|k: int| 0 <= k < out@.len() ==> ids@.contains(#[trigger] out@[k]),
{
    proof {
        broadcast use vstd::seq_lib::group_to_multiset_ensures;

    }
    let mut rest = ids;
    let mut out: Vec<NodeId> = Vec::new();
    while rest.len() > 0
        invariant
            out@.len() + rest@.len() == ids@.len(),
            out@.to_multiset().add(rest@.to_multiset()) =~= ids@.to_multiset(),
            ids_sorted_by_size_desc(tree.nodes@, out@),
            forall|k: int| 0 <= k < rest@.len() ==> (#[trigger] rest@[k]).0 < tree.nodes@.len(),
            forall|k: int| 0 <= k < out@.len() ==> (#[trigger] out@[k]).0 < tree.nodes@.len(),
            forall|a: int, b: int|
                0 <= a < out@.len() && 0 <= b < rest@.len() ==> tree.nodes@[(
                #[trigger] out@[a]).0 as int].size >= tree.nodes@[(
                #[trigger] rest@[b]).0 as int].size,
            forall|k: int| 0 <= k < out@.len() ==> ids@.to_multiset().contains(#[trigger] out@[k]),
        decreases rest@.len(),
    {
        let mut m: usize = 0;
        let mut k: usize = 1;
        while k < rest.len()
            invariant
                m < k <= rest@.len(),
                forall|b: int|
                    0 <= b < k ==> tree.nodes@[rest@[m as int].0 as int].size >= tree.nodes@[(
                    #[trigger] rest@[b]).0 as int].size,
            decreases rest@.len() - k,
        {
            if tree.nodes[rest[k].index()].size > tree.nodes[rest[m].index()].size {
                m = k;
            }
            k = k + 1;
        }
        let ghost rest_before = rest@;
        let e = rest.remove(m);
        proof {
            assert(rest_before.remove(m as int).to_multiset() =~= rest_before.to_multiset()
                .remove(e));
            assert(out@.push(e).to_multiset() =~= out@.to_multiset().insert(e));
            assert(out@.push(e).to_multiset().add(rest@.to_multiset()) =~= ids@.to_multiset());
            assert(rest_before.to_multiset().contains(e));
            assert(ids@.to_multiset().count(e) >= rest_before.to_multiset().count(e));
            assert(forall|b: int|
                0 <= b < rest@.len() ==> rest_before.contains(#[trigger] rest@[b]));
        }
        out.push(e);
    }
    proof {
        assert(rest@.to_multiset() =~= Multiset::<NodeId>::empty());
        assert(out@.to_multiset() =~= ids@.to_multiset());
        assert(forall|k: int|
            0 <= k < out@.len() ==> ids@.contains(#[trigger] out@[k]));
    }
    out
}

/// Re-order the children of every directory by size, descending. The
/// squarified layout expects children sorted this way. Only children
/// lists change; no node moves in the arena.
#[verifier::loop_isolation(false)]
pub fn sort_children_by_size(tree: &mut FileTree)
    requires
        old(tree).wf(),
    ensures
        final(tree).wf(),
        final(tree).nodes@.len() == old(tree).nodes@.len(),
        final(tree).root == old(tree).root,
        final(tree).extensions@ == old(tree).extensions@,
        forall|i: int|
            0 <= i < old(tree).nodes@.len() ==> {
                &&& (#[trigger] final(tree).nodes@[i]).name == old(tree).nodes@[i].name
                &&& final(tree).nodes@[i].size == old(tree).nodes@[i].size
                &&& final(tree).nodes@[i].is_dir == old(tree).nodes@[i].is_dir
                &&& final(tree).nodes@[i].extension_id == old(tree).nodes@[i].extension_id
                &&& final(tree).nodes@[i].parent == old(tree).nodes@[i].parent
                &&& final(tree).nodes@[i].depth == old(tree).nodes@[i].depth
                &&& final(tree).nodes@[i].children@.to_multiset() == old(
                    tree,
                ).nodes@[i].children@.to_multiset()
                &&& ids_sorted_by_size_desc(final(tree).nodes@, final(tree).nodes@[i].children@)
            },
{
    proof {
        broadcast use vstd::seq_lib::group_to_multiset_ensures;

    }
    let len = tree.nodes.len();
    let mut i: usize = 0;
    while i < len
        invariant
            i <= len,
            tree.nodes@.len() == len,
            tree.wf(),
            tree.root == old(tree).root,
            tree.extensions@ == old(tree).extensions@,
            forall|j: int|
                0 <= j < len ==> {
                    &&& (#[trigger] tree.nodes@[j]).name == old(tree).nodes@[j].name
                    &&& tree.nodes@[j].size == old(tree).nodes@[j].size
                    &&& tree.nodes@[j].is_dir == old(tree).nodes@[j].is_dir
                    &&& tree.nodes@[j].extension_id == old(tree).nodes@[j].extension_id
                    &&& tree.nodes@[j].parent == old(tree).nodes@[j].parent
                    &&& tree.nodes@[j].depth == old(tree).nodes@[j].depth
                    &&& tree.nodes@[j].children@.to_multiset() == old(
                        tree,
                    ).nodes@[j].children@.to_multiset()
                },
            forall|j: int|
                0 <= j < i ==> ids_sorted_by_size_desc(
                    tree.nodes@,
                    (#[trigger] tree.nodes@[j]).children@,
                ),
        decreases len - i,
    {
        let kids = tree.children(NodeId(i as u32));
        let sorted = sort_ids_by_size_desc(tree, kids);
        let ghost before = tree.nodes@;
        let node = &mut tree.nodes[i];
        node.children = sorted;
        proof {
            // sizes did not move, so orderings established earlier still hold
            assert(forall|q: int| 0 <= q < len ==> (#[trigger] tree.nodes@[q]).size
                == before[q].size);
            assert(forall|q: int|
                0 <= q < len && q != i ==> #[trigger] tree.nodes@[q] == before[q]);
        }
        i = i + 1;
    }
}

/// Two node arrays that agree on children lists and on the sizes of every
/// node above `i` give the same child-size sums at `i`.
proof fn lemma_child_sum_same(a: Seq<FileNode>, b: Seq<FileNode>, i: int, upto: int)
    requires
        0 <= i < a.len(),
        a.len() == b.len(),
        a[i].children@ == b[i].children@,
        upto <= a[i].children@.len(),
        forall|c: int|
            0 <= c < a[i].children@.len() ==> i < (#[trigger] a[i].children@[c]).0 < a.len(),
        forall|j: int| i < j < a.len() ==> (#[trigger] a[j]).size == b[j].size,
    ensures
        child_size_sum(a, i, upto) == child_size_sum(b, i, upto),
    decreases upto,
{
    if upto > 0 {
        lemma_child_sum_same(a, b, i, upto - 1);
        if upto <= a[i].children@.len() {
            assert(i < a[i].children@[upto - 1].0 < a.len());
        }
    }
}

} // verus!
