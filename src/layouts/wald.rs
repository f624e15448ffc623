use vstd::prelude::*;

use super::Capture;

verus! {

/// Node of the binary layout: a box, and either the first slot of a primitive
/// run (leaf) or the index of the left child of a sibling pair (internal).
/// The box type is left to the caller; the tree logic never looks inside it.
#[derive(Clone, Copy, Debug, PartialEq, Eq)]
pub struct Node<B> {
    pub bounds: B,
    /// Leaf: first slot in the index array. Internal: left child; the right
    /// child is the next node.
    pub left_first: u32,
    /// Leaf: number of primitives in the run. Internal: zero.
    pub tri_count: u32,
}

impl<B> Node<B> {
    /// Returns `true` if the node is a leaf.
    pub fn is_leaf(&self) -> (r: bool)
        ensures
            r == (self.tri_count > 0),
    {
        self.tri_count > 0
    }
}

/// Node `j` is one of the two children of the internal node `i`.
pub open spec fn child_of<B>(nodes: Seq<Node<B>>, i: int, j: int) -> bool {
    &&& nodes[i].tri_count == 0
    &&& (j == nodes[i].left_first || j == nodes[i].left_first + 1)
}

/// Node `j` can be reached from the root: it is the root, or a child of a
/// reachable internal node stored before it.
pub open spec fn reachable<B>(nodes: Seq<Node<B>>, j: int) -> bool
    decreases j, j + 1,
{
    if j <= 0 {
        j == 0 && nodes.len() > 0
    } else {
        j < nodes.len() && has_parent_before(nodes, j, j)
    }
}

/// One of the nodes `0..m` is reachable and has `j` as a child.
pub open spec fn has_parent_before<B>(nodes: Seq<Node<B>>, j: int, m: int) -> bool
    decreases j, m,
{
    if m <= 0 || m > j {
        false
    } else {
        (reachable(nodes, m - 1) && child_of(nodes, m - 1, j)) || has_parent_before(nodes, j, m - 1)
    }
}

/// A node with a reachable parent among the nodes `0..m` names one.
pub proof fn lemma_reachable_parent<B>(nodes: Seq<Node<B>>, j: int, m: int) -> (w: int)
    requires
        0 < j,
        0 <= m <= j,
        has_parent_before(nodes, j, m),
    ensures
        0 <= w < m,
        reachable(nodes, w),
        child_of(nodes, w, j),
    decreases m,
{
    if reachable(nodes, m - 1) && child_of(nodes, m - 1, j) {
        m - 1
    } else {
        lemma_reachable_parent(nodes, j, m - 1)
    }
}

/// A node with a reachable parent among the nodes `0..m` has a parent before `m`.
pub proof fn lemma_parent_reachable<B>(nodes: Seq<Node<B>>, w: int, j: int, m: int)
    requires
        0 <= w < m <= j,
        reachable(nodes, w),
        child_of(nodes, w, j),
    ensures
        has_parent_before(nodes, j, m),
    decreases m,
{
    if w < m - 1 {
        lemma_parent_reachable(nodes, w, j, m - 1);
    }
}

/// Marks, for each node, whether it can be reached from the root.
pub fn reachable_marks<B>(nodes: &Vec<Node<B>>) -> (r: Vec<bool>)
    ensures
        r@.len() == nodes@.len(),
        forall|j: int| 0 <= j < nodes@.len() ==> r@[j] == reachable(nodes@, j),
{
    let n = nodes.len();
    let mut marks: Vec<bool> = Vec::new();
    let mut k: usize = 0;
    while k < n
        invariant
            k <= n,
            n == nodes@.len(),
            marks@.len() == k,
            forall|j: int| 0 <= j < k ==> marks@[j] == (j == 0),
        decreases n - k,
    {
        marks.push(k == 0);
        k = k + 1;
    }
    let mut i: usize = 0;
    while i < n
        invariant
            i <= n,
            n == nodes@.len(),
            marks@.len() == n,
            forall|j: int|
                0 <= j < n ==> marks@[j] == if j == 0 {
                    true
                } else if j <= i {
                    reachable(nodes@, j)
                } else {
                    has_parent_before(nodes@, j, i as int)
                },
        decreases n - i,
    {
        let ghost before = marks@;
        if marks[i] && nodes[i].tri_count == 0 {
            let lf = nodes[i].left_first as u64;
            if lf > i as u64 && lf < n as u64 {
                marks.set(lf as usize, true);
            }
            if lf + 1 > i as u64 && lf + 1 < n as u64 {
                marks.set((lf + 1) as usize, true);
            }
        }
        proof {
            assert(before[i as int] == reachable(nodes@, i as int));
            assert forall|j: int| 0 <= j < n implies marks@[j] == if j == 0 {
                true
            } else if j <= i + 1 {
                reachable(nodes@, j)
            } else {
                has_parent_before(nodes@, j, i + 1)
            } by {
                if j > i {
                    assert(has_parent_before(nodes@, j, i + 1) == ((reachable(nodes@, i as int)
                        && child_of(nodes@, i as int, j)) || has_parent_before(nodes@, j, i as int)));
                }
            }
        }
        i = i + 1;
    }
    marks
}

/// Layout invariant of a binary node array: the root exists, indices fit in
/// 32 bits, and each reachable internal node has its sibling pair stored
/// after it and inside the array.
pub open spec fn well_formed<B>(nodes: Seq<Node<B>>) -> bool {
    &&& 0 < nodes.len() <= u32::MAX
    &&& forall|i: int|
        0 <= i < nodes.len() && #[trigger] reachable(nodes, i) && nodes[i].tri_count == 0 ==> i
            < nodes[i].left_first && nodes[i].left_first + 1 < nodes.len()
    &&& single_parents(nodes)
}

/// No node is a child of two different reachable nodes.
pub open spec fn single_parents<B>(nodes: Seq<Node<B>>) -> bool {
    forall|w1: int, w2: int, j: int|
        0 <= w1 < nodes.len() && 0 <= w2 < nodes.len() && reachable(nodes, w1) && reachable(nodes, w2)
            && #[trigger] child_of(nodes, w1, j) && #[trigger] child_of(nodes, w2, j) ==> w1 == w2
}

/// Every slot of the array is reachable: no padding is left.
pub open spec fn dense<B>(nodes: Seq<Node<B>>) -> bool {
    forall|k: int| 0 <= k < nodes.len() ==> #[trigger] reachable(nodes, k)
}

/// Number of reachable nodes among `0..m`: the new index of node `m` once
/// the unreachable slots are dropped.
pub open spec fn rank<B>(nodes: Seq<Node<B>>, m: int) -> nat
    decreases m,
{
    if m <= 0 {
        0
    } else {
        rank(nodes, m - 1) + if reachable(nodes, m - 1) {
            1nat
        } else {
            0nat
        }
    }
}

/// `n` with its child index moved to where the left child lands after compaction.
pub open spec fn remap<B>(nodes: Seq<Node<B>>, n: Node<B>) -> Node<B> {
    if n.tri_count == 0 {
        Node { bounds: n.bounds, left_first: rank(nodes, n.left_first as int) as u32, tri_count: 0 }
    } else {
        n
    }
}

/// The reachable nodes among `0..m`, in their order, with child indices remapped.
pub open spec fn compacted_prefix<B>(nodes: Seq<Node<B>>, m: int) -> Seq<Node<B>>
    decreases m,
{
    if m <= 0 {
        Seq::empty()
    } else if reachable(nodes, m - 1) {
        compacted_prefix(nodes, m - 1).push(remap(nodes, nodes[m - 1]))
    } else {
        compacted_prefix(nodes, m - 1)
    }
}

/// The node array with every unreachable slot removed.
pub open spec fn compacted<B>(nodes: Seq<Node<B>>) -> Seq<Node<B>> {
    compacted_prefix(nodes, nodes.len() as int)
}

pub proof fn lemma_rank_bounds<B>(nodes: Seq<Node<B>>, i: int, j: int)
    requires
        0 <= i <= j,
    ensures
        rank(nodes, i) <= rank(nodes, j),
        rank(nodes, j) <= j,
        reachable(nodes, i) && i < j ==> rank(nodes, i) < rank(nodes, j),
    decreases j,
{
    if j > 0 {
        if i < j {
            lemma_rank_bounds(nodes, i, j - 1);
        } else {
            lemma_rank_bounds(nodes, j - 1, j - 1);
        }
    }
}

proof fn lemma_prefix<B>(nodes: Seq<Node<B>>, m: int)
    requires
        0 <= m,
    ensures
        compacted_prefix(nodes, m).len() == rank(nodes, m),
        forall|j: int|
            0 <= j < m && reachable(nodes, j) ==> compacted_prefix(nodes, m)[rank(nodes, j) as int]
                == remap(nodes, #[trigger] nodes[j]),
    decreases m,
{
    if m > 0 {
        lemma_prefix(nodes, m - 1);
        assert forall|j: int|
            0 <= j < m && reachable(nodes, j) implies compacted_prefix(nodes, m)[rank(nodes, j) as int]
            == remap(nodes, #[trigger] nodes[j]) by {
            if j < m - 1 {
                lemma_rank_bounds(nodes, j, m - 1);
            }
        }
    }
}

proof fn lemma_prefix_source<B>(nodes: Seq<Node<B>>, m: int, k: int) -> (j: int)
    requires
        0 <= m,
        0 <= k < rank(nodes, m),
    ensures
        0 <= j < m,
        reachable(nodes, j),
        rank(nodes, j) == k,
    decreases m,
{
    if k < rank(nodes, m - 1) {
        lemma_prefix_source(nodes, m - 1, k)
    } else {
        m - 1
    }
}

/// The children of a reachable internal node of a well-formed array are reachable.
pub proof fn lemma_children_reachable<B>(nodes: Seq<Node<B>>, w: int)
    requires
        well_formed(nodes),
        0 <= w < nodes.len(),
        reachable(nodes, w),
        nodes[w].tri_count == 0,
    ensures
        reachable(nodes, nodes[w].left_first as int),
        reachable(nodes, nodes[w].left_first + 1),
        rank(nodes, nodes[w].left_first + 1) == rank(nodes, nodes[w].left_first as int) + 1,
{
    let lf = nodes[w].left_first as int;
    lemma_parent_reachable(nodes, w, lf, lf);
    lemma_parent_reachable(nodes, w, lf + 1, lf + 1);
}

proof fn lemma_compacted_reachable<B>(nodes: Seq<Node<B>>, k: int)
    requires
        well_formed(nodes),
        0 <= k < rank(nodes, nodes.len() as int),
    ensures
        reachable(compacted(nodes), k),
    decreases k,
{
    let n = nodes.len() as int;
    let c = compacted(nodes);
    lemma_prefix(nodes, n);
    let j = lemma_prefix_source(nodes, n, k);
    if j > 0 {
        let w = lemma_reachable_parent(nodes, j, j);
        lemma_rank_bounds(nodes, w, j);
        lemma_compacted_reachable(nodes, rank(nodes, w) as int);
        lemma_children_reachable(nodes, w);
        let lf = nodes[w].left_first as int;
        lemma_rank_bounds(nodes, lf, lf);
        assert(c[rank(nodes, w) as int] == remap(nodes, nodes[w]));
        assert(child_of(c, rank(nodes, w) as int, k));
        lemma_parent_reachable(c, rank(nodes, w) as int, k, k);
    }
}

/// Compaction keeps the layout invariant and leaves no unreachable slot.
pub proof fn lemma_compacted_well_formed<B>(nodes: Seq<Node<B>>)
    requires
        well_formed(nodes),
    ensures
        well_formed(compacted(nodes)),
        dense(compacted(nodes)),
        compacted(nodes).len() <= nodes.len(),
{
    let n = nodes.len() as int;
    let c = compacted(nodes);
    lemma_prefix(nodes, n);
    lemma_rank_bounds(nodes, 0, n);
    assert forall|k: int| 0 <= k < c.len() implies #[trigger] reachable(c, k) by {
        lemma_compacted_reachable(nodes, k);
    }
    assert forall|k: int|
        0 <= k < c.len() && #[trigger] reachable(c, k) && c[k].tri_count == 0 implies k
        < c[k].left_first && c[k].left_first + 1 < c.len() by {
        let j = lemma_prefix_source(nodes, n, k);
        assert(c[k] == remap(nodes, nodes[j]));
        let lf = nodes[j].left_first as int;
        lemma_children_reachable(nodes, j);
        lemma_rank_bounds(nodes, j, lf);
        lemma_rank_bounds(nodes, lf + 1, n);
        lemma_rank_bounds(nodes, lf, lf);
    }
    assert forall|k1: int, k2: int, m: int|
        0 <= k1 < c.len() && 0 <= k2 < c.len() && reachable(c, k1) && reachable(c, k2)
            && #[trigger] child_of(c, k1, m) && #[trigger] child_of(c, k2, m) implies k1 == k2 by {
        let j1 = lemma_prefix_source(nodes, n, k1);
        let j2 = lemma_prefix_source(nodes, n, k2);
        assert(c[k1] == remap(nodes, nodes[j1]));
        assert(c[k2] == remap(nodes, nodes[j2]));
        let l1 = nodes[j1].left_first as int;
        let l2 = nodes[j2].left_first as int;
        lemma_children_reachable(nodes, j1);
        lemma_children_reachable(nodes, j2);
        let x1 = if m == rank(nodes, l1) { l1 } else { l1 + 1 };
        let x2 = if m == rank(nodes, l2) { l2 } else { l2 + 1 };
        lemma_rank_bounds(nodes, l1, l1);
        lemma_rank_bounds(nodes, l2, l2);
        if x1 < x2 {
            lemma_rank_bounds(nodes, x1, x2);
        } else if x2 < x1 {
            lemma_rank_bounds(nodes, x2, x1);
        }
        assert(x1 == x2);
        assert(child_of(nodes, j1, x1));
        assert(child_of(nodes, j2, x1));
        if j1 < j2 {
            lemma_rank_bounds(nodes, j1, j2);
        } else if j2 < j1 {
            lemma_rank_bounds(nodes, j2, j1);
        }
    }
}

proof fn lemma_dense_rank<B>(nodes: Seq<Node<B>>, m: int)
    requires
        dense(nodes),
        0 <= m <= nodes.len(),
    ensures
        rank(nodes, m) == m,
    decreases m,
{
    if m > 0 {
        lemma_dense_rank(nodes, m - 1);
        assert(reachable(nodes, m - 1));
    }
}

proof fn lemma_dense_fixed<B>(nodes: Seq<Node<B>>, m: int)
    requires
        well_formed(nodes),
        dense(nodes),
        0 <= m <= nodes.len(),
    ensures
        compacted_prefix(nodes, m) == nodes.subrange(0, m),
    decreases m,
{
    if m > 0 {
        lemma_dense_fixed(nodes, m - 1);
        assert(reachable(nodes, m - 1));
        let nd = nodes[m - 1];
        if nd.tri_count == 0 {
            lemma_dense_rank(nodes, nd.left_first as int);
        }
        assert(remap(nodes, nd) == nd);
        assert(compacted_prefix(nodes, m) =~= nodes.subrange(0, m));
    }
}

/// A well-formed array without unused slots is its own compaction.
pub proof fn lemma_dense_compacted<B>(nodes: Seq<Node<B>>)
    requires
        well_formed(nodes),
        dense(nodes),
    ensures
        compacted(nodes) == nodes,
{
    lemma_dense_fixed(nodes, nodes.len() as int);
    assert(nodes.subrange(0, nodes.len() as int) =~= nodes);
}

/// Compacting an already compacted array changes nothing.
pub proof fn lemma_compact_idempotent<B>(nodes: Seq<Node<B>>)
    requires
        well_formed(nodes),
    ensures
        compacted(compacted(nodes)) == compacted(nodes),
{
    let c = compacted(nodes);
    lemma_compacted_well_formed(nodes);
    lemma_dense_fixed(c, c.len() as int);
    assert(c.subrange(0, c.len() as int) =~= c);
}

/// Drops every unreachable slot and moves child indices to match, keeping
/// the reachable nodes in their order.
pub fn compact_nodes<B: Copy>(nodes: &Vec<Node<B>>) -> (r: Vec<Node<B>>)
    requires
        well_formed(nodes@),
    ensures
        r@ == compacted(nodes@),
{
    let n = nodes.len();
    let marks = reachable_marks(nodes);
    let mut ranks: Vec<u32> = Vec::new();
    let mut count: u32 = 0;
    let mut j: usize = 0;
    while j < n
        invariant
            j <= n,
            n == nodes@.len(),
            n <= u32::MAX,
            marks@.len() == n,
            forall|k: int| 0 <= k < n ==> marks@[k] == reachable(nodes@, k),
            count == rank(nodes@, j as int),
            ranks@.len() == j,
            forall|k: int| 0 <= k < j ==> ranks@[k] == rank(nodes@, k),
        decreases n - j,
    {
        proof {
            lemma_rank_bounds(nodes@, j as int, j as int);
        }
        ranks.push(count);
        if marks[j] {
            count = count + 1;
        }
        j = j + 1;
    }
    let mut out: Vec<Node<B>> = Vec::new();
    let mut j: usize = 0;
    while j < n
        invariant
            j <= n,
            n == nodes@.len(),
            well_formed(nodes@),
            marks@.len() == n,
            forall|k: int| 0 <= k < n ==> marks@[k] == reachable(nodes@, k),
            ranks@.len() == n,
            forall|k: int| 0 <= k < n ==> ranks@[k] == rank(nodes@, k),
            out@ == compacted_prefix(nodes@, j as int),
        decreases n - j,
    {
        if marks[j] {
            let nd = nodes[j];
            if nd.tri_count == 0 {
                let lf = nd.left_first as usize;
                out.push(Node { bounds: nd.bounds, left_first: ranks[lf], tri_count: 0 });
            } else {
                out.push(nd);
            }
        }
        j = j + 1;
    }
    out
}

/// Leaf `n` holds slot `s` of the index array.
pub open spec fn leaf_covers<B>(n: Node<B>, s: int) -> bool {
    n.tri_count > 0 && n.left_first <= s < n.left_first + n.tri_count
}

/// Number of reachable leaves among `0..m` that hold slot `s`.
pub open spec fn cover_count<B>(nodes: Seq<Node<B>>, s: int, m: int) -> nat
    decreases m,
{
    if m <= 0 {
        0
    } else {
        cover_count(nodes, s, m - 1) + if reachable(nodes, m - 1) && leaf_covers(nodes[m - 1], s) {
            1nat
        } else {
            0nat
        }
    }
}

/// Every reachable leaf's run lies inside an index array of length `p`.
pub open spec fn leaves_in_range<B>(nodes: Seq<Node<B>>, p: int) -> bool {
    forall|i: int|
        0 <= i < nodes.len() && #[trigger] reachable(nodes, i) && nodes[i].tri_count > 0
            ==> nodes[i].left_first + nodes[i].tri_count <= p
}

/// The index array lists each primitive of `0..len` exactly once.
pub open spec fn is_permutation(indices: Seq<u32>) -> bool {
    &&& forall|i: int| 0 <= i < indices.len() ==> #[trigger] indices[i] < indices.len()
    &&& forall|i: int, j: int|
        0 <= i < j < indices.len() ==> #[trigger] indices[i] != #[trigger] indices[j]
}

/// The leaf runs of the tree hold every slot of the index array exactly
/// once, each slot is reached along exactly one path from the root (so no
/// subtree hangs under two parents), and the index array names every
/// primitive exactly once.
pub open spec fn leaf_coverage<B>(nodes: Seq<Node<B>>, indices: Seq<u32>) -> bool {
    &&& indices.len() <= u32::MAX
    &&& leaves_in_range(nodes, indices.len() as int)
    &&& forall|s: int| 0 <= s < indices.len() ==> #[trigger] cover_count(nodes, s, nodes.len() as int) == 1
    &&& forall|s: int| 0 <= s < indices.len() ==> #[trigger] paths(nodes, s, 0) == 1
    &&& is_permutation(indices)
}

/// Adds to `counts[s]` the number of paths from reachable node `i` down to
/// a leaf that holds slot `s`; returns `false` instead when some count
/// would go past one.
fn add_paths<B>(nodes: &Vec<Node<B>>, i: usize, counts: &mut Vec<u8>) -> (ok: bool)
    requires
        i < nodes@.len(),
        reachable(nodes@, i as int),
        leaves_in_range(nodes@, old(counts)@.len() as int),
        forall|s: int| 0 <= s < old(counts)@.len() ==> #[trigger] old(counts)@[s] <= 1,
    ensures
        final(counts)@.len() == old(counts)@.len(),
        ok <==> forall|s: int|
            0 <= s < old(counts)@.len() ==> #[trigger] old(counts)@[s] + paths(nodes@, s, i as int) <= 1,
        ok ==> forall|s: int|
            0 <= s < old(counts)@.len() ==> #[trigger] final(counts)@[s] == old(counts)@[s] + paths(
                nodes@,
                s,
                i as int,
            ),
    decreases nodes@.len() - i,
{
    let ghost c0 = counts@;
    let cl = counts.len();
    let nd = &nodes[i];
    if nd.tri_count > 0 {
        proof {
            assert(nodes@[i as int].left_first + nodes@[i as int].tri_count <= c0.len());
        }
        let lf = nd.left_first as usize;
        let end = lf + nd.tri_count as usize;
        let mut s: usize = lf;
        while s < end
            invariant
                i < nodes@.len(),
                c0 == old(counts)@,
                lf <= s <= end <= c0.len(),
                lf == nodes@[i as int].left_first,
                end == lf + nodes@[i as int].tri_count,
                nodes@[i as int].tri_count > 0,
                counts@.len() == c0.len(),
                forall|t: int| 0 <= t < c0.len() ==> #[trigger] counts@[t] == if lf <= t < s { 1 } else { c0[t] },
                forall|t: int| lf <= t < s ==> #[trigger] c0[t] == 0,
            decreases end - s,
        {
            if counts[s] >= 1 {
                proof {
                    assert(leaf_covers(nodes@[i as int], s as int));
                    assert(c0[s as int] + paths(nodes@, s as int, i as int) > 1);
                }
                return false;
            }
            counts.set(s, 1);
            s = s + 1;
        }
        proof {
            assert forall|t: int| 0 <= t < c0.len() implies #[trigger] counts@[t] == c0[t] + paths(nodes@, t, i as int)
                && c0[t] + paths(nodes@, t, i as int) <= 1 by {
                assert(leaf_covers(nodes@[i as int], t) == (lf <= t < end));
            }
        }
        true
    } else {
        let lf = nd.left_first as usize;
        if i < lf && lf < nodes.len() - 1 {
            proof {
                lemma_parent_reachable(nodes@, i as int, lf as int, lf as int);
                lemma_parent_reachable(nodes@, i as int, lf + 1, lf + 1);
            }
            if !add_paths(nodes, lf, counts) {
                proof {
                    let t = choose|t: int| 0 <= t < c0.len() && !(#[trigger] c0[t] + paths(nodes@, t, lf as int) <= 1);
                    assert(!(c0[t] + paths(nodes@, t, i as int) <= 1));
                }
                return false;
            }
            let ghost c1 = counts@;
            let ok = add_paths(nodes, lf + 1, counts);
            proof {
                if !ok {
                    let t = choose|t: int| 0 <= t < c1.len() && !(#[trigger] c1[t] + paths(nodes@, t, lf + 1) <= 1);
                    assert(!(c0[t] + paths(nodes@, t, i as int) <= 1));
                }
            }
            proof {
                if ok {
                    assert forall|t: int| 0 <= t < c0.len() implies #[trigger] c0[t] + paths(nodes@, t, i as int) <= 1 by {
                        assert(counts@[t] == c1[t] + paths(nodes@, t, lf + 1));
                    }
                }
            }
            ok
        } else {
            true
        }
    }
}

/// Returns `true` exactly when `indices` lists each of `0..len` once.
pub fn check_permutation(indices: &Vec<u32>) -> (r: bool)
    ensures
        r == is_permutation(indices@),
{
    let n = indices.len();
    let mut seen: Vec<bool> = Vec::new();
    let mut k: usize = 0;
    while k < n
        invariant
            k <= n,
            seen@.len() == k,
            forall|v: int| 0 <= v < k ==> !seen@[v],
        decreases n - k,
    {
        seen.push(false);
        k = k + 1;
    }
    let mut i: usize = 0;
    while i < n
        invariant
            i <= n,
            n == indices@.len(),
            seen@.len() == n,
            forall|a: int| 0 <= a < i ==> #[trigger] indices@[a] < n,
            forall|a: int, b: int| 0 <= a < b < i ==> #[trigger] indices@[a] != #[trigger] indices@[b],
            forall|v: int| 0 <= v < n ==> (seen@[v] <==> exists|a: int| 0 <= a < i && #[trigger] indices@[a] == v),
        decreases n - i,
    {
        let v = indices[i] as usize;
        if v >= n {
            return false;
        }
        if seen[v] {
            proof {
                let a = choose|a: int| 0 <= a < i && #[trigger] indices@[a] == v;
                assert(indices@[a] == indices@[i as int]);
            }
            return false;
        }
        seen.set(v, true);
        proof {
            assert forall|w: int| 0 <= w < n implies (seen@[w] <==> exists|a: int| 0 <= a < i + 1 && #[trigger] indices@[a] == w) by {
                if w == v {
                    assert(indices@[i as int] == w);
                } else if seen@[w] {
                    let a = choose|a: int| 0 <= a < i && #[trigger] indices@[a] == w;
                    assert(0 <= a < i + 1 && indices@[a] == w);
                } else {
                    assert forall|a: int| 0 <= a < i + 1 implies #[trigger] indices@[a] != w by {
                        if a < i && indices@[a] == w {
                            assert(exists|a2: int| 0 <= a2 < i && #[trigger] indices@[a2] == w);
                        }
                    }
                }
            }
            assert forall|a: int, b: int| 0 <= a < b < i + 1 implies #[trigger] indices@[a] != #[trigger] indices@[b] by {
                if b == i && indices@[a] == indices@[b] {
                    assert(exists|a2: int| 0 <= a2 < i && #[trigger] indices@[a2] == v);
                }
            }
        }
        i = i + 1;
    }
    true
}

/// Returns `true` exactly when the tree's leaves hold every slot of
/// `indices` once and `indices` names every primitive once.
pub fn check_leaf_coverage<B>(nodes: &Vec<Node<B>>, indices: &Vec<u32>) -> (r: bool)
    ensures
        r == leaf_coverage(nodes@, indices@),
{
    let n = nodes.len();
    let p = indices.len();
    if p > u32::MAX as usize {
        return false;
    }
    let marks = reachable_marks(nodes);
    let mut counts: Vec<u8> = Vec::new();
    let mut k: usize = 0;
    while k < p
        invariant
            k <= p,
            counts@.len() == k,
            forall|s: int| 0 <= s < k ==> counts@[s] == 0,
        decreases p - k,
    {
        counts.push(0);
        k = k + 1;
    }
    let mut i: usize = 0;
    while i < n
        invariant
            i <= n,
            n == nodes@.len(),
            p == indices@.len(),
            marks@.len() == n,
            forall|k: int| 0 <= k < n ==> marks@[k] == reachable(nodes@, k),
            counts@.len() == p,
            forall|s: int| 0 <= s < p ==> #[trigger] counts@[s] == if cover_count(nodes@, s, i as int) < 2 {
                cover_count(nodes@, s, i as int)
            } else {
                2
            },
            forall|a: int|
                0 <= a < i && #[trigger] reachable(nodes@, a) && nodes@[a].tri_count > 0
                    ==> nodes@[a].left_first + nodes@[a].tri_count <= p,
        decreases n - i,
    {
        let lf = nodes[i].left_first as u64;
        let tc = nodes[i].tri_count as u64;
        if marks[i] && tc > 0 {
            if lf + tc > p as u64 {
                return false;
            }
            let mut s: usize = lf as usize;
            while s < (lf + tc) as usize
                invariant
                    lf <= s <= lf + tc <= p,
                    tc > 0,
                    tc == nodes@[i as int].tri_count,
                    lf == nodes@[i as int].left_first,
                    reachable(nodes@, i as int),
                    counts@.len() == p,
                    forall|t: int| 0 <= t < p ==> #[trigger] counts@[t] == {
                        let c = if lf <= t < s {
                            cover_count(nodes@, t, i + 1)
                        } else {
                            cover_count(nodes@, t, i as int)
                        };
                        if c < 2 {
                            c
                        } else {
                            2
                        }
                    },
                decreases lf + tc - s,
            {
                let c = counts[s];
                if c < 2 {
                    counts.set(s, c + 1);
                }
                s = s + 1;
            }
        }
        i = i + 1;
    }
    let mut s: usize = 0;
    while s < p
        invariant
            s <= p,
            p == indices@.len(),
            n == nodes@.len(),
            counts@.len() == p,
            forall|t: int| 0 <= t < p ==> #[trigger] counts@[t] == if cover_count(nodes@, t, n as int) < 2 {
                cover_count(nodes@, t, n as int)
            } else {
                2
            },
            forall|t: int| 0 <= t < s ==> #[trigger] cover_count(nodes@, t, n as int) == 1,
        decreases p - s,
    {
        if counts[s] != 1 {
            return false;
        }
        s = s + 1;
    }
    let mut reached: Vec<u8> = Vec::new();
    let mut k: usize = 0;
    while k < p
        invariant
            k <= p,
            reached@.len() == k,
            forall|t: int| 0 <= t < k ==> #[trigger] reached@[t] == 0,
        decreases p - k,
    {
        reached.push(0);
        k = k + 1;
    }
    if n == 0 {
        if p > 0 {
            proof {
                assert(paths(nodes@, 0, 0) == 0);
            }
            return false;
        }
    } else {
        proof {
            assert(reachable(nodes@, 0));
        }
        if !add_paths(nodes, 0, &mut reached) {
            return false;
        }
        let mut s: usize = 0;
        while s < p
            invariant
                s <= p,
                p == indices@.len(),
                reached@.len() == p,
                forall|t: int| 0 <= t < p ==> #[trigger] reached@[t] == paths(nodes@, t, 0),
                forall|t: int| 0 <= t < s ==> #[trigger] paths(nodes@, t, 0) == 1,
            decreases p - s,
        {
            if reached[s] != 1 {
                return false;
            }
            s = s + 1;
        }
    }
    check_permutation(indices)
}

/// Number of leaves among `0..k` that hold slot `s`, reachable or not.
spec fn any_cover_count<B>(nodes: Seq<Node<B>>, s: int, k: int) -> nat
    decreases k,
{
    if k <= 0 {
        0
    } else {
        any_cover_count(nodes, s, k - 1) + if leaf_covers(nodes[k - 1], s) {
            1nat
        } else {
            0nat
        }
    }
}

proof fn lemma_any_cover_push<B>(nodes: Seq<Node<B>>, x: Node<B>, s: int, k: int)
    requires
        0 <= k <= nodes.len(),
    ensures
        any_cover_count(nodes.push(x), s, k) == any_cover_count(nodes, s, k),
    decreases k,
{
    if k > 0 {
        lemma_any_cover_push(nodes, x, s, k - 1);
        assert(nodes.push(x)[k - 1] == nodes[k - 1]);
    }
}

proof fn lemma_dense_cover<B>(nodes: Seq<Node<B>>, s: int, k: int)
    requires
        dense(nodes),
        0 <= k <= nodes.len(),
    ensures
        cover_count(nodes, s, k) == any_cover_count(nodes, s, k),
    decreases k,
{
    if k > 0 {
        lemma_dense_cover(nodes, s, k - 1);
        assert(reachable(nodes, k - 1));
    }
}

proof fn lemma_cover_prefix<B>(nodes: Seq<Node<B>>, s: int, m: int)
    requires
        0 <= m <= nodes.len(),
    ensures
        cover_count(nodes, s, m) == any_cover_count(compacted_prefix(nodes, m), s, rank(nodes, m) as int),
    decreases m,
{
    if m > 0 {
        lemma_cover_prefix(nodes, s, m - 1);
        if reachable(nodes, m - 1) {
            let prev = compacted_prefix(nodes, m - 1);
            lemma_prefix(nodes, m - 1);
            lemma_any_cover_push(prev, remap(nodes, nodes[m - 1]), s, rank(nodes, m - 1) as int);
        }
    }
}

/// Compaction keeps every leaf run: the leaves of the compacted tree hold
/// each slot of the index array exactly as often as those of the input tree.
pub proof fn lemma_compact_keeps_coverage<B>(nodes: Seq<Node<B>>, indices: Seq<u32>)
    requires
        well_formed(nodes),
    ensures
        forall|s: int|
            #![trigger cover_count(nodes, s, nodes.len() as int)]
            cover_count(compacted(nodes), s, compacted(nodes).len() as int)
                == cover_count(nodes, s, nodes.len() as int),
        leaves_in_range(nodes, indices.len() as int) ==> leaves_in_range(compacted(nodes), indices.len() as int),
        leaf_coverage(nodes, indices) ==> leaf_coverage(compacted(nodes), indices),
{
    let n = nodes.len() as int;
    let c = compacted(nodes);
    lemma_compacted_well_formed(nodes);
    lemma_prefix(nodes, n);
    assert forall|s: int|
        #![trigger cover_count(nodes, s, nodes.len() as int)]
        cover_count(c, s, c.len() as int) == cover_count(nodes, s, n) by {
        lemma_cover_prefix(nodes, s, n);
        lemma_dense_cover(c, s, c.len() as int);
    }
    if leaves_in_range(nodes, indices.len() as int) {
        assert forall|k: int|
            0 <= k < c.len() && #[trigger] reachable(c, k) && c[k].tri_count > 0
                implies c[k].left_first + c[k].tri_count <= indices.len() by {
            let j = lemma_prefix_source(nodes, n, k);
            assert(c[k] == remap(nodes, nodes[j]));
        }
    }
    if leaf_coverage(nodes, indices) {
        assert forall|s: int| 0 <= s < indices.len() implies #[trigger] cover_count(c, s, c.len() as int) == 1 by {
            assert(cover_count(nodes, s, n) == 1);
        }
        assert(reachable(nodes, 0));
        assert forall|s: int| 0 <= s < indices.len() implies #[trigger] paths(c, s, 0) == 1 by {
            lemma_compact_paths(nodes, s, 0);
            assert(paths(nodes, s, 0) == 1);
        }
    }
}

/// Number of primitives in the subtree under node `i`.
pub open spec fn subtree_prims<B>(nodes: Seq<Node<B>>, i: int) -> nat
    decreases nodes.len() - i,
{
    if i < 0 || i >= nodes.len() {
        0
    } else if nodes[i].tri_count > 0 {
        nodes[i].tri_count as nat
    } else if i < nodes[i].left_first && nodes[i].left_first + 1 < nodes.len() {
        subtree_prims(nodes, nodes[i].left_first as int) + subtree_prims(nodes, nodes[i].left_first + 1)
    } else {
        0
    }
}

/// Counts the primitives in the subtree under node `id`.
pub fn subtree_primitive_count<B>(nodes: &Vec<Node<B>>, id: usize) -> (r: u32)
    requires
        id < nodes@.len(),
        subtree_prims(nodes@, id as int) <= u32::MAX,
    ensures
        r == subtree_prims(nodes@, id as int),
    decreases nodes@.len() - id,
{
    let nd = &nodes[id];
    if nd.tri_count > 0 {
        nd.tri_count
    } else {
        let lf = nd.left_first as usize;
        if id < lf && lf < nodes.len() - 1 {
            let a = subtree_primitive_count(nodes, lf);
            let b = subtree_primitive_count(nodes, lf + 1);
            a + b
        } else {
            0
        }
    }
}

/// Why a node array and index array were refused as a tree.
#[derive(Clone, Copy, Debug, PartialEq, Eq, Structural)]
pub enum BVHLayoutError {
    /// The root is missing, there are more than 2^32 - 1 nodes, a
    /// reachable internal node points at or before itself or past the end,
    /// or two reachable nodes share a child.
    MalformedNodes,
    /// The leaf runs do not hold each slot of the index array exactly once
    /// along exactly one path, the index array is longer than 2^32 - 1, or
    /// it is not a permutation of the primitives.
    IncompleteCoverage,
}

/// Binary tree of nodes in sibling pairs, with the index array that maps
/// leaf slots to primitives.
pub struct BVH<B> {
    nodes: Vec<Node<B>>,
    indices: Vec<u32>,
}

impl<B: Copy> BVH<B> {
    pub closed spec fn nodes_view(&self) -> Seq<Node<B>> {
        self.nodes@
    }

    pub closed spec fn indices_view(&self) -> Seq<u32> {
        self.indices@
    }

    /// The layout invariant and the leaf coverage that every tree keeps.
    pub open spec fn wf(&self) -> bool {
        well_formed(self.nodes_view()) && leaf_coverage(self.nodes_view(), self.indices_view())
    }

    /// Takes a node array and index array, such as a builder produces.
    pub fn from_parts(nodes: Vec<Node<B>>, indices: Vec<u32>) -> (r: Result<Self, BVHLayoutError>)
        ensures
            !well_formed(nodes@) ==> r == Err::<Self, BVHLayoutError>(BVHLayoutError::MalformedNodes),
            well_formed(nodes@) && !leaf_coverage(nodes@, indices@) ==> r == Err::<Self, BVHLayoutError>(
                BVHLayoutError::IncompleteCoverage,
            ),
            well_formed(nodes@) && leaf_coverage(nodes@, indices@) ==> r is Ok,
            r matches Ok(b) ==> b.wf() && b.nodes_view() == nodes@ && b.indices_view() == indices@,
    {
        if !check_well_formed(&nodes) {
            return Err(BVHLayoutError::MalformedNodes);
        }
        if !check_leaf_coverage(&nodes, &indices) {
            return Err(BVHLayoutError::IncompleteCoverage);
        }
        Ok(BVH { nodes, indices })
    }

    /// A tree of one leaf that holds all `prim_count` primitives, in input order.
    pub fn single_leaf(bounds: B, prim_count: u32) -> (r: Self)
        requires
            prim_count > 0,
        ensures
            r.wf(),
            r.nodes_view() == seq![Node { bounds, left_first: 0, tri_count: prim_count }],
            r.indices_view().len() == prim_count,
            forall|i: int| 0 <= i < prim_count ==> #[trigger] r.indices_view()[i] == i,
    {
        let indices = crate::primitives::identity_indices(prim_count);
        let mut nodes: Vec<Node<B>> = Vec::new();
        nodes.push(Node { bounds, left_first: 0, tri_count: prim_count });
        let ghost ns = nodes@;
        proof {
            assert(ns =~= seq![Node { bounds, left_first: 0, tri_count: prim_count }]);
            assert(reachable(ns, 0));
            assert forall|s: int| 0 <= s < prim_count implies #[trigger] cover_count(ns, s, 1) == 1 by {
                assert(cover_count(ns, s, 0) == 0);
            }
            assert forall|i: int, j: int| 0 <= i < j < prim_count implies #[trigger] indices@[i]
                != #[trigger] indices@[j] by {
            }
        }
        BVH { nodes, indices }
    }

    /// Wraps arrays already known to meet the invariant.
    pub(crate) fn assemble(nodes: Vec<Node<B>>, indices: Vec<u32>) -> (r: Self)
        requires
            well_formed(nodes@),
            leaf_coverage(nodes@, indices@),
        ensures
            r.wf(),
            r.nodes_view() == nodes@,
            r.indices_view() == indices@,
    {
        BVH { nodes, indices }
    }

    /// Gives up the node array and the index array.
    pub fn into_parts(self) -> (r: (Vec<Node<B>>, Vec<u32>))
        ensures
            r.0@ == self.nodes_view(),
            r.1@ == self.indices_view(),
    {
        (self.nodes, self.indices)
    }

    /// Holds the tree apart from the primitives it was built over, so that
    /// they can be changed and the storage handed to a rebuild.
    pub fn capture(self) -> (r: Capture<BVH<B>>)
        ensures
            r.view_inner() == self,
    {
        Capture::new(self)
    }

    /// The node array.
    pub fn nodes(&self) -> (r: &Vec<Node<B>>)
        ensures
            r@ == self.nodes_view(),
    {
        &self.nodes
    }

    /// The index array: leaf slot to primitive index.
    pub fn indices(&self) -> (r: &Vec<u32>)
        ensures
            r@ == self.indices_view(),
    {
        &self.indices
    }

    /// Number of primitives under reachable node `id`; the root holds all.
    pub fn primitive_count(&self, id: u32) -> (r: u32)
        requires
            self.wf(),
            id < self.nodes_view().len(),
            reachable(self.nodes_view(), id as int),
        ensures
            r == subtree_prims(self.nodes_view(), id as int),
            r <= self.indices_view().len(),
            id == 0 ==> r == self.indices_view().len(),
    {
        proof {
            lemma_primitive_counts(self.nodes@, self.indices@, id as int);
        }
        subtree_primitive_count(&self.nodes, id as usize)
    }

    /// Removes unused nodes and reduces the size of the node array.
    pub fn compact(&mut self)
        requires
            old(self).wf(),
        ensures
            final(self).wf(),
            final(self).nodes_view() == compacted(old(self).nodes_view()),
            final(self).indices_view() == old(self).indices_view(),
            dense(final(self).nodes_view()),
    {
        proof {
            lemma_compacted_well_formed(self.nodes@);
            lemma_compact_keeps_coverage(self.nodes@, self.indices@);
        }
        self.nodes = compact_nodes(&self.nodes);
    }
}

/// Returns `true` exactly when the node array meets the layout invariant.
pub fn check_well_formed<B>(nodes: &Vec<Node<B>>) -> (r: bool)
    ensures
        r == well_formed(nodes@),
{
    let n = nodes.len();
    if n == 0 || n > u32::MAX as usize {
        return false;
    }
    let marks = reachable_marks(nodes);
    let mut owner: Vec<u32> = Vec::new();
    let mut k: usize = 0;
    while k < n
        invariant
            k <= n,
            owner@.len() == k,
            forall|j: int| 0 <= j < k ==> #[trigger] owner@[j] == u32::MAX,
        decreases n - k,
    {
        owner.push(u32::MAX);
        k = k + 1;
    }
    let mut i: usize = 0;
    while i < n
        invariant
            i <= n,
            n == nodes@.len(),
            n <= u32::MAX,
            marks@.len() == n,
            owner@.len() == n,
            forall|k: int| 0 <= k < n ==> marks@[k] == reachable(nodes@, k),
            forall|k: int|
                0 <= k < i && #[trigger] reachable(nodes@, k) && nodes@[k].tri_count == 0 ==> k
                    < nodes@[k].left_first && nodes@[k].left_first + 1 < n,
            forall|j: int|
                0 <= j < n && #[trigger] owner@[j] != u32::MAX ==> owner@[j] < i && reachable(
                    nodes@,
                    owner@[j] as int,
                ) && child_of(nodes@, owner@[j] as int, j),
            forall|w: int, j: int|
                0 <= w < i && 0 <= j < n && reachable(nodes@, w) && #[trigger] child_of(nodes@, w, j)
                    ==> owner@[j] != u32::MAX,
            forall|w1: int, w2: int, j: int|
                0 <= w1 < i && 0 <= w2 < i && reachable(nodes@, w1) && reachable(nodes@, w2) && #[trigger] child_of(
                    nodes@,
                    w1,
                    j,
                ) && #[trigger] child_of(nodes@, w2, j) ==> w1 == w2,
        decreases n - i,
    {
        if marks[i] && nodes[i].tri_count == 0 {
            let lf = nodes[i].left_first as u64;
            if !(i as u64 <= lf && lf != i as u64 && lf + 1 < n as u64) {
                return false;
            }
            let l = lf as usize;
            if owner[l] != u32::MAX || owner[l + 1] != u32::MAX {
                proof {
                    let j = if owner@[l as int] != u32::MAX { l as int } else { l + 1 };
                    let w = owner@[j] as int;
                    assert(child_of(nodes@, i as int, j));
                    assert(child_of(nodes@, w, j));
                    assert(w != i);
                }
                return false;
            }
            owner.set(l, i as u32);
            owner.set(l + 1, i as u32);
            proof {
                assert forall|w1: int, w2: int, j: int|
                    0 <= w1 < i + 1 && 0 <= w2 < i + 1 && reachable(nodes@, w1) && reachable(nodes@, w2)
                        && #[trigger] child_of(nodes@, w1, j) && #[trigger] child_of(nodes@, w2, j) implies w1
                    == w2 by {
                    if w1 == i && w2 < i {
                        assert(owner@[j] != u32::MAX || j == l || j == l + 1);
                    } else if w2 == i && w1 < i {
                        assert(owner@[j] != u32::MAX || j == l || j == l + 1);
                    }
                }
            }
        }
        i = i + 1;
    }
    true
}

/// Number of paths from binary node `i` down to a leaf that holds slot `s`.
pub open spec fn paths<B>(nodes: Seq<Node<B>>, s: int, i: int) -> nat
    decreases nodes.len() - i,
{
    if i < 0 || i >= nodes.len() {
        0
    } else if nodes[i].tri_count > 0 {
        if leaf_covers(nodes[i], s) {
            1
        } else {
            0
        }
    } else if i < nodes[i].left_first && nodes[i].left_first + 1 < nodes.len() {
        paths(nodes, s, nodes[i].left_first as int) + paths(nodes, s, nodes[i].left_first + 1)
    } else {
        0
    }
}

/// Compaction keeps, for every slot, the number of paths from each
/// reachable node down to a leaf that holds it.
pub proof fn lemma_compact_paths<B>(nodes: Seq<Node<B>>, s: int, j: int)
    requires
        well_formed(nodes),
        0 <= j < nodes.len(),
        reachable(nodes, j),
    ensures
        paths(compacted(nodes), s, rank(nodes, j) as int) == paths(nodes, s, j),
    decreases nodes.len() - j,
{
    let n = nodes.len() as int;
    let c = compacted(nodes);
    lemma_prefix(nodes, n);
    lemma_compacted_well_formed(nodes);
    lemma_rank_bounds(nodes, j, n);
    assert(c[rank(nodes, j) as int] == remap(nodes, nodes[j]));
    if nodes[j].tri_count == 0 {
        let lf = nodes[j].left_first as int;
        lemma_children_reachable(nodes, j);
        lemma_rank_bounds(nodes, j, lf);
        lemma_rank_bounds(nodes, lf, lf);
        lemma_rank_bounds(nodes, lf + 1, n);
        lemma_compact_paths(nodes, s, lf);
        lemma_compact_paths(nodes, s, lf + 1);
    }
}

/// Sum over the slots `0..m` of the paths from node `j` to them.
pub open spec fn path_total<B>(nodes: Seq<Node<B>>, j: int, m: int) -> nat
    decreases m,
{
    if m <= 0 {
        0
    } else {
        path_total(nodes, j, m - 1) + paths(nodes, m - 1, j)
    }
}

proof fn lemma_leaf_total<B>(nodes: Seq<Node<B>>, j: int, m: int)
    requires
        0 <= j < nodes.len(),
        nodes[j].tri_count > 0,
        nodes[j].left_first + nodes[j].tri_count <= m,
    ensures
        path_total(nodes, j, m) == nodes[j].tri_count,
    decreases m,
{
    let lf = nodes[j].left_first as int;
    let tc = nodes[j].tri_count as int;
    assert(paths(nodes, m - 1, j) == if lf <= m - 1 < lf + tc { 1nat } else { 0nat });
    if m - 1 >= lf + tc {
        lemma_leaf_total(nodes, j, m - 1);
    } else {
        lemma_leaf_prefix(nodes, j, m - 1);
    }
}

proof fn lemma_leaf_prefix<B>(nodes: Seq<Node<B>>, j: int, m: int)
    requires
        0 <= j < nodes.len(),
        nodes[j].tri_count > 0,
        0 <= m <= nodes[j].left_first + nodes[j].tri_count,
    ensures
        path_total(nodes, j, m) == if m <= nodes[j].left_first { 0 } else { m - nodes[j].left_first },
    decreases m,
{
    if m > 0 {
        lemma_leaf_prefix(nodes, j, m - 1);
        assert(paths(nodes, m - 1, j) == if leaf_covers(nodes[j], m - 1) { 1nat } else { 0nat });
    }
}

proof fn lemma_total_split<B>(nodes: Seq<Node<B>>, j: int, m: int)
    requires
        0 <= j < nodes.len(),
        nodes[j].tri_count == 0,
        j < nodes[j].left_first,
        nodes[j].left_first + 1 < nodes.len(),
        0 <= m,
    ensures
        path_total(nodes, j, m) == path_total(nodes, nodes[j].left_first as int, m) + path_total(
            nodes,
            nodes[j].left_first + 1,
            m,
        ),
    decreases m,
{
    if m > 0 {
        lemma_total_split(nodes, j, m - 1);
    }
}

proof fn lemma_total_le<B>(nodes: Seq<Node<B>>, j: int, m: int)
    requires
        0 <= m,
        forall|s: int| 0 <= s < m ==> #[trigger] paths(nodes, s, j) <= paths(nodes, s, 0),
    ensures
        path_total(nodes, j, m) <= path_total(nodes, 0, m),
    decreases m,
{
    if m > 0 {
        lemma_total_le(nodes, j, m - 1);
        assert(paths(nodes, m - 1, j) <= paths(nodes, m - 1, 0));
    }
}

proof fn lemma_total_ones<B>(nodes: Seq<Node<B>>, m: int)
    requires
        0 <= m,
        forall|s: int| 0 <= s < m ==> #[trigger] paths(nodes, s, 0) == 1,
    ensures
        path_total(nodes, 0, m) == m,
    decreases m,
{
    if m > 0 {
        lemma_total_ones(nodes, m - 1);
        assert(paths(nodes, m - 1, 0) == 1);
    }
}

/// In a well-formed tree, a reachable node reaches each slot along no more
/// paths than the root does.
pub proof fn lemma_paths_below_root<B>(nodes: Seq<Node<B>>, s: int, j: int)
    requires
        well_formed(nodes),
        0 <= j < nodes.len(),
        reachable(nodes, j),
    ensures
        paths(nodes, s, j) <= paths(nodes, s, 0),
    decreases j,
{
    if j > 0 {
        let w = lemma_reachable_parent(nodes, j, j);
        lemma_paths_below_root(nodes, s, w);
        assert(paths(nodes, s, w) == paths(nodes, s, nodes[w].left_first as int) + paths(
            nodes,
            s,
            nodes[w].left_first + 1,
        ));
    }
}

/// The primitive count of a reachable node is the number of paths from it
/// to the slots of the index array.
proof fn lemma_prims_total<B>(nodes: Seq<Node<B>>, p: int, j: int)
    requires
        well_formed(nodes),
        0 <= p,
        leaves_in_range(nodes, p),
        0 <= j < nodes.len(),
        reachable(nodes, j),
    ensures
        subtree_prims(nodes, j) == path_total(nodes, j, p),
    decreases nodes.len() - j,
{
    if nodes[j].tri_count > 0 {
        lemma_leaf_total(nodes, j, p);
    } else {
        lemma_children_reachable(nodes, j);
        lemma_prims_total(nodes, p, nodes[j].left_first as int);
        lemma_prims_total(nodes, p, nodes[j].left_first + 1);
        lemma_total_split(nodes, j, p);
    }
}

/// In a tree that meets the invariant and covers its index array, every
/// reachable node counts at most as many primitives as there are, and the
/// root counts exactly that many.
pub proof fn lemma_primitive_counts<B>(nodes: Seq<Node<B>>, indices: Seq<u32>, j: int)
    requires
        well_formed(nodes),
        leaf_coverage(nodes, indices),
        0 <= j < nodes.len(),
        reachable(nodes, j),
    ensures
        subtree_prims(nodes, j) <= indices.len(),
        subtree_prims(nodes, 0) == indices.len(),
{
    let p = indices.len() as int;
    assert(reachable(nodes, 0));
    lemma_prims_total(nodes, p, j);
    lemma_prims_total(nodes, p, 0);
    lemma_total_ones(nodes, p);
    assert forall|s: int| 0 <= s < p implies #[trigger] paths(nodes, s, j) <= paths(nodes, s, 0) by {
        lemma_paths_below_root(nodes, s, j);
    }
    lemma_total_le(nodes, j, p);
}

} // verus!
