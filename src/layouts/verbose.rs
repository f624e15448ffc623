use vstd::prelude::*;

use super::wald;
use super::wald::{compacted, reachable, child_of, dense, well_formed};

verus! {

/// Parent index of the root.
pub const NO_PARENT: u32 = 0xffff_ffff;

/// Node with explicit child and parent links, used while a tree is edited
/// in place (refit, rotations).
#[derive(Clone, Copy, Debug, PartialEq, Eq)]
pub struct Node<B> {
    pub bounds: B,
    /// Left child (internal nodes).
    pub left: u32,
    /// Right child (internal nodes).
    pub right: u32,
    /// Number of primitives (leaves); zero for internal nodes.
    pub tri_count: u32,
    /// First slot of the primitive run (leaves).
    pub first_tri: u32,
    /// Parent node, or `NO_PARENT` for the root.
    pub parent: u32,
}

impl<B> Node<B> {
    /// Returns `true` if the node is a leaf.
    pub fn is_leaf(&self) -> (r: bool)
        ensures
            r == (self.tri_count > 0),
    {
        self.tri_count > 0
    }
}

/// Options of a rotation pass.
pub struct OptimizeOptions {
    iterations: u32,
    extreme: bool,
}

impl OptimizeOptions {
    /// Options with the given number of passes and search breadth.
    pub fn new(iterations: u32, extreme: bool) -> (r: Self)
        ensures
            r.iterations() == iterations,
            r.extreme() == extreme,
    {
        OptimizeOptions { iterations, extreme }
    }

    pub closed spec fn iterations(&self) -> u32 {
        self.iterations
    }

    pub closed spec fn extreme(&self) -> bool {
        self.extreme
    }

    /// Number of rotation passes.
    pub fn get_iterations(&self) -> (r: u32)
        ensures
            r == self.iterations(),
    {
        self.iterations
    }

    /// Whether each pass tries more candidate rotations.
    pub fn get_extreme(&self) -> (r: bool)
        ensures
            r == self.extreme(),
    {
        self.extreme
    }
}

impl Default for OptimizeOptions {
    /// Twenty-five passes of the ordinary search.
    fn default() -> (r: Self)
        ensures
            r.iterations() == 25,
            !r.extreme(),
    {
        OptimizeOptions { iterations: 25, extreme: false }
    }
}

/// The verbose form of binary node `n`, with parent link `parent`.
pub open spec fn from_binary<B>(n: wald::Node<B>, parent: u32) -> Node<B> {
    if n.tri_count > 0 {
        Node { bounds: n.bounds, left: 0, right: 0, tri_count: n.tri_count, first_tri: n.left_first, parent }
    } else {
        Node {
            bounds: n.bounds,
            left: n.left_first,
            right: (n.left_first + 1) as u32,
            tri_count: 0,
            first_tri: 0,
            parent,
        }
    }
}

/// Layout invariant of a verbose node array: children come after their
/// parent, in a sibling pair, inside the array, and name it as their
/// parent; each node but the root names an internal parent that has it as
/// a child.
pub open spec fn verbose_wf<B>(nodes: Seq<Node<B>>) -> bool {
    &&& 0 < nodes.len() <= u32::MAX
    &&& nodes[0].parent == NO_PARENT
    &&& forall|i: int|
        0 < i < nodes.len() ==> {
            let p = #[trigger] nodes[i].parent as int;
            &&& p < i
            &&& nodes[p].tri_count == 0
            &&& (nodes[p].left == i || nodes[p].right == i)
        }
    &&& forall|i: int|
        0 <= i < nodes.len() && #[trigger] nodes[i].tri_count == 0 ==> i < nodes[i].left && nodes[i].right
            == nodes[i].left + 1 && nodes[i].right < nodes.len()
    &&& forall|i: int|
        0 <= i < nodes.len() && #[trigger] nodes[i].tri_count == 0 ==> nodes[nodes[i].left as int].parent == i
            && nodes[nodes[i].right as int].parent == i
}

/// The two arrays differ at most in the boxes.
pub open spec fn same_shape<B>(a: Seq<Node<B>>, b: Seq<Node<B>>) -> bool {
    &&& a.len() == b.len()
    &&& forall|i: int|
        0 <= i < a.len() ==> {
            &&& (#[trigger] a[i]).left == b[i].left
            &&& a[i].right == b[i].right
            &&& a[i].tri_count == b[i].tri_count
            &&& a[i].first_tri == b[i].first_tri
            &&& a[i].parent == b[i].parent
        }
}

/// The box of internal node `i` is what `union` gives for its children's boxes.
pub open spec fn refitted_at<B, F: Fn(B, B) -> B>(nodes: Seq<Node<B>>, union: F, i: int) -> bool {
    nodes[i].tri_count == 0 ==> call_ensures(
        union,
        (nodes[nodes[i].left as int].bounds, nodes[nodes[i].right as int].bounds),
        nodes[i].bounds,
    )
}

/// Node `k` lies on the chain of parents from `from` up to the root.
#[verifier::opaque]
pub open spec fn on_path<B>(nodes: Seq<Node<B>>, from: int, k: int) -> bool
    decreases from,
{
    if from < 0 || from >= nodes.len() {
        false
    } else if k == from {
        true
    } else {
        from > 0 && nodes[from].parent < from && on_path(nodes, nodes[from].parent as int, k)
    }
}

proof fn lemma_path_unfold<B>(nodes: Seq<Node<B>>, from: int, k: int)
    ensures
        on_path(nodes, from, k) == if from < 0 || from >= nodes.len() {
            false
        } else if k == from {
            true
        } else {
            from > 0 && nodes[from].parent < from && on_path(nodes, nodes[from].parent as int, k)
        },
{
    reveal(on_path);
}

proof fn lemma_path_below<B>(nodes: Seq<Node<B>>, from: int, k: int)
    requires
        on_path(nodes, from, k),
    ensures
        0 <= k <= from < nodes.len(),
    decreases from,
{
    lemma_path_unfold(nodes, from, k);
    if k != from {
        lemma_path_below(nodes, nodes[from].parent as int, k);
    }
}

proof fn lemma_path_order<B>(nodes: Seq<Node<B>>, from: int, a: int, b: int)
    requires
        on_path(nodes, from, a),
        on_path(nodes, from, b),
    ensures
        on_path(nodes, a, b) || on_path(nodes, b, a),
    decreases from,
{
    lemma_path_unfold(nodes, from, a);
    lemma_path_unfold(nodes, from, b);
    lemma_path_unfold(nodes, a, b);
    lemma_path_unfold(nodes, b, a);
    if a != from && b != from {
        lemma_path_order(nodes, nodes[from].parent as int, a, b);
    }
}

proof fn lemma_path_trans<B>(nodes: Seq<Node<B>>, a: int, b: int, c: int)
    requires
        on_path(nodes, a, b),
        on_path(nodes, b, c),
    ensures
        on_path(nodes, a, c),
    decreases a,
{
    lemma_path_unfold(nodes, a, b);
    lemma_path_unfold(nodes, a, c);
    lemma_path_below(nodes, b, c);
    if a != b {
        lemma_path_trans(nodes, nodes[a].parent as int, b, c);
    }
}

/// Going one step up the chain from `cur` skips no node of the chain.
proof fn lemma_path_gap<B>(nodes: Seq<Node<B>>, from: int, cur: int)
    requires
        verbose_wf(nodes),
        on_path(nodes, from, cur),
        cur > 0,
    ensures
        on_path(nodes, from, nodes[cur].parent as int),
        forall|k: int| on_path(nodes, from, k) && k > nodes[cur].parent ==> k >= cur,
{
    lemma_path_below(nodes, from, cur);
    let p = nodes[cur].parent as int;
    assert forall|k: int| on_path(nodes, from, k) && k > p implies k >= cur by {
        lemma_path_order(nodes, from, cur, k);
        lemma_path_unfold(nodes, cur, k);
        if on_path(nodes, cur, k) {
            if k != cur {
                lemma_path_below(nodes, p, k);
            }
        } else {
            lemma_path_below(nodes, k, cur);
        }
    }
    lemma_path_unfold(nodes, cur, p);
    lemma_path_unfold(nodes, p, p);
    lemma_path_trans(nodes, from, cur, p);
}

/// After a refit with a `union` whose result contains both of its inputs,
/// under a reflexive and transitive containment, the box of every node
/// contains the box of every node below it (every node whose chain of
/// parents passes through it), leaves included.
pub proof fn lemma_refit_contains<B, F: Fn(B, B) -> B>(
    nodes: Seq<Node<B>>,
    union: F,
    contains: spec_fn(B, B) -> bool,
    d: int,
    k: int,
)
    requires
        verbose_wf(nodes),
        forall|i: int| 0 <= i < nodes.len() ==> #[trigger] refitted_at(nodes, union, i),
        forall|a: B, b: B, r: B| #[trigger] union.ensures((a, b), r) ==> contains(r, a) && contains(r, b),
        forall|a: B| #[trigger] contains(a, a),
        forall|a: B, b: B, c: B| #[trigger] contains(a, b) && #[trigger] contains(b, c) ==> contains(a, c),
        on_path(nodes, d, k),
    ensures
        contains(nodes[k].bounds, nodes[d].bounds),
    decreases d,
{
    lemma_path_unfold(nodes, d, k);
    if k != d {
        let p = nodes[d].parent as int;
        lemma_refit_contains(nodes, union, contains, p, k);
        assert(refitted_at(nodes, union, p));
        assert(contains(nodes[p].bounds, nodes[d].bounds));
        assert(contains(nodes[k].bounds, nodes[p].bounds));
    }
}

/// Binary tree with explicit parent links.
pub struct BVH<B> {
    nodes: Vec<Node<B>>,
}

proof fn lemma_shape_wf<B>(a: Seq<Node<B>>, b: Seq<Node<B>>)
    requires
        verbose_wf(a),
        same_shape(a, b),
    ensures
        verbose_wf(b),
{
    assert forall|i: int| 0 < i < b.len() implies {
        let p = #[trigger] b[i].parent as int;
        &&& p < i
        &&& b[p].tri_count == 0
        &&& (b[p].left == i || b[p].right == i)
    } by {
        assert(a[i].parent == b[i].parent);
        let p = a[i].parent as int;
        assert(a[p].left == b[p].left);
    }
    assert forall|i: int| 0 <= i < b.len() && #[trigger] b[i].tri_count == 0 implies i < b[i].left
        && b[i].right == b[i].left + 1 && b[i].right < b.len() by {
        assert(a[i].left == b[i].left);
    }
    assert forall|i: int| 0 <= i < b.len() && #[trigger] b[i].tri_count == 0 implies b[b[i].left as int].parent
        == i && b[b[i].right as int].parent == i by {
        assert(a[i].left == b[i].left && a[i].tri_count == b[i].tri_count);
        assert(a[a[i].left as int].parent == b[a[i].left as int].parent);
        assert(a[a[i].right as int].parent == b[a[i].right as int].parent);
    }
}

impl<B: Copy> BVH<B> {
    pub closed spec fn nodes_view(&self) -> Seq<Node<B>> {
        self.nodes@
    }

    /// Converts a binary tree, dropping its unused slots, and links each
    /// node to its parent.
    pub fn build(original: &wald::BVH<B>) -> (r: Self)
        requires
            original.wf(),
        ensures
            verbose_wf(r.nodes_view()),
            r.nodes_view().len() == compacted(original.nodes_view()).len(),
            forall|i: int|
                0 <= i < r.nodes_view().len() ==> #[trigger] r.nodes_view()[i] == from_binary(
                    compacted(original.nodes_view())[i],
                    r.nodes_view()[i].parent,
                ),
    {
        proof {
            wald::lemma_compacted_well_formed(original.nodes_view());
        }
        let c = wald::compact_nodes(original.nodes());
        let n = c.len();
        let mut par: Vec<u32> = Vec::new();
        let mut k: usize = 0;
        while k < n
            invariant
                k <= n,
                par@.len() == k,
                forall|j: int| 0 <= j < k ==> par@[j] == NO_PARENT,
            decreases n - k,
        {
            par.push(NO_PARENT);
            k = k + 1;
        }
        let mut i: usize = 0;
        while i < n
            invariant
                i <= n,
                n == c@.len(),
                well_formed(c@),
                dense(c@),
                par@.len() == n,
                forall|j: int|
                    0 <= j < n && #[trigger] par@[j] != NO_PARENT ==> par@[j] < i && child_of(c@, par@[j] as int, j),
                forall|w: int, j: int|
                    0 <= w < i && 0 <= j < n && #[trigger] child_of(c@, w, j) ==> #[trigger] par@[j] != NO_PARENT,
            decreases n - i,
        {
            let nd = c[i];
            if nd.tri_count == 0 {
                proof {
                    assert(reachable(c@, i as int));
                }
                let lf = nd.left_first as usize;
                par.set(lf, i as u32);
                par.set(lf + 1, i as u32);
            }
            i = i + 1;
        }
        let mut out: Vec<Node<B>> = Vec::new();
        let mut i: usize = 0;
        while i < n
            invariant
                i <= n,
                n == c@.len(),
                well_formed(c@),
                dense(c@),
                par@.len() == n,
                out@.len() == i,
                forall|j: int| 0 <= j < i ==> #[trigger] out@[j] == from_binary(c@[j], par@[j]),
            decreases n - i,
        {
            let nd = c[i];
            if nd.tri_count > 0 {
                out.push(Node { bounds: nd.bounds, left: 0, right: 0, tri_count: nd.tri_count, first_tri: nd.left_first, parent: par[i] });
            } else {
                proof {
                    assert(reachable(c@, i as int));
                }
                out.push(Node { bounds: nd.bounds, left: nd.left_first, right: nd.left_first + 1, tri_count: 0, first_tri: 0, parent: par[i] });
            }
            i = i + 1;
        }
        proof {
            assert(reachable(c@, 0));
            if par@[0] != NO_PARENT {
                assert(reachable(c@, par@[0] as int));
            }
            assert forall|j: int| 0 < j < n implies {
                let p = #[trigger] out@[j].parent as int;
                &&& p < j
                &&& out@[p].tri_count == 0
                &&& (out@[p].left == j || out@[p].right == j)
            } by {
                assert(reachable(c@, j));
                let w = wald::lemma_reachable_parent(c@, j, j);
                assert(child_of(c@, w, j));
                assert(par@[j] != NO_PARENT);
                let p = par@[j] as int;
                assert(reachable(c@, p));
                assert(out@[p] == from_binary(c@[p], par@[p]));
            }
            assert forall|j: int| 0 <= j < n && #[trigger] out@[j].tri_count == 0 implies j < out@[j].left
                && out@[j].right == out@[j].left + 1 && out@[j].right < n by {
                assert(reachable(c@, j));
            }
            assert forall|j: int| 0 <= j < n && #[trigger] out@[j].tri_count == 0 implies out@[out@[j].left as int].parent
                == j && out@[out@[j].right as int].parent == j by {
                assert(reachable(c@, j));
                let l = c@[j].left_first as int;
                assert(child_of(c@, j, l));
                assert(child_of(c@, j, l + 1));
                assert(par@[l] != NO_PARENT);
                assert(par@[l + 1] != NO_PARENT);
                assert(reachable(c@, par@[l] as int));
                assert(reachable(c@, par@[l + 1] as int));
                assert(out@[l] == from_binary(c@[l], par@[l]));
                assert(out@[l + 1] == from_binary(c@[l + 1], par@[l + 1]));
            }
        }
        BVH { nodes: out }
    }

    /// Recomputes the box of every internal node from its children, from the
    /// last node back to the root; leaf boxes are taken as they are.
    pub fn refit<F: Fn(B, B) -> B>(&mut self, union: F)
        requires
            verbose_wf(old(self).nodes_view()),
            forall|a: B, b: B| #[trigger] union.requires((a, b)),
        ensures
            verbose_wf(final(self).nodes_view()),
            same_shape(old(self).nodes_view(), final(self).nodes_view()),
            forall|i: int|
                0 <= i < final(self).nodes_view().len() && old(self).nodes_view()[i].tri_count > 0
                    ==> #[trigger] final(self).nodes_view()[i].bounds == old(self).nodes_view()[i].bounds,
            forall|i: int|
                0 <= i < final(self).nodes_view().len() ==> #[trigger] refitted_at(
                    final(self).nodes_view(),
                    union,
                    i,
                ),
    {
        let ghost start = self.nodes@;
        let n = self.nodes.len();
        let mut i: usize = n;
        while i > 0
            invariant
                i <= n,
                n == self.nodes@.len(),
                verbose_wf(start),
                same_shape(start, self.nodes@),
                forall|a: B, b: B| #[trigger] union.requires((a, b)),
                forall|k: int|
                    0 <= k < n && start[k].tri_count > 0 ==> #[trigger] self.nodes@[k].bounds == start[k].bounds,
                forall|k: int| i <= k < n ==> #[trigger] refitted_at(self.nodes@, union, k),
            decreases i,
        {
            i = i - 1;
            proof {
                lemma_shape_wf(start, self.nodes@);
            }
            let nd = self.nodes[i];
            if nd.tri_count == 0 {
                let lb = self.nodes[nd.left as usize].bounds;
                let rb = self.nodes[nd.right as usize].bounds;
                let b = union(lb, rb);
                let ghost before = self.nodes@;
                self.nodes.set(i, Node { bounds: b, ..nd });
                proof {
                    assert forall|k: int| i <= k < n implies #[trigger] refitted_at(self.nodes@, union, k) by {
                        if k > i {
                            assert(refitted_at(before, union, k));
                        }
                    }
                }
            }
        }
        proof {
            lemma_shape_wf(start, self.nodes@);
        }
    }

    /// Sets the box of every leaf to what `leaf_bounds` gives for its run
    /// (first slot, count); internal boxes are left as they are.
    pub fn refit_leaves<G: Fn(u32, u32) -> B>(&mut self, leaf_bounds: G)
        requires
            verbose_wf(old(self).nodes_view()),
            forall|f: u32, c: u32| #[trigger] leaf_bounds.requires((f, c)),
        ensures
            verbose_wf(final(self).nodes_view()),
            same_shape(old(self).nodes_view(), final(self).nodes_view()),
            forall|i: int|
                0 <= i < final(self).nodes_view().len() && old(self).nodes_view()[i].tri_count > 0
                    ==> leaf_bounds.ensures(
                    (old(self).nodes_view()[i].first_tri, old(self).nodes_view()[i].tri_count),
                    #[trigger] final(self).nodes_view()[i].bounds,
                ),
            forall|i: int|
                0 <= i < final(self).nodes_view().len() && old(self).nodes_view()[i].tri_count == 0
                    ==> #[trigger] final(self).nodes_view()[i].bounds == old(self).nodes_view()[i].bounds,
    {
        let ghost start = self.nodes@;
        let n = self.nodes.len();
        let mut i: usize = 0;
        while i < n
            invariant
                i <= n,
                n == self.nodes@.len(),
                verbose_wf(start),
                same_shape(start, self.nodes@),
                forall|f: u32, c: u32| #[trigger] leaf_bounds.requires((f, c)),
                forall|k: int|
                    0 <= k < i && start[k].tri_count > 0 ==> leaf_bounds.ensures(
                        (start[k].first_tri, start[k].tri_count),
                        #[trigger] self.nodes@[k].bounds,
                    ),
                forall|k: int|
                    0 <= k < n && (k >= i || start[k].tri_count == 0) ==> #[trigger] self.nodes@[k].bounds
                        == start[k].bounds,
            decreases n - i,
        {
            let nd = self.nodes[i];
            if nd.tri_count > 0 {
                let b = leaf_bounds(nd.first_tri, nd.tri_count);
                self.nodes.set(i, Node { bounds: b, ..nd });
            }
            i = i + 1;
        }
        proof {
            lemma_shape_wf(start, self.nodes@);
        }
    }

    /// Recomputes every box: leaves from `leaf_bounds`, then every internal
    /// node from its children with `union`.
    pub fn refit_full<F: Fn(B, B) -> B, G: Fn(u32, u32) -> B>(&mut self, union: F, leaf_bounds: G)
        requires
            verbose_wf(old(self).nodes_view()),
            forall|a: B, b: B| #[trigger] union.requires((a, b)),
            forall|f: u32, c: u32| #[trigger] leaf_bounds.requires((f, c)),
        ensures
            verbose_wf(final(self).nodes_view()),
            same_shape(old(self).nodes_view(), final(self).nodes_view()),
            forall|i: int|
                0 <= i < final(self).nodes_view().len() && old(self).nodes_view()[i].tri_count > 0
                    ==> leaf_bounds.ensures(
                    (old(self).nodes_view()[i].first_tri, old(self).nodes_view()[i].tri_count),
                    #[trigger] final(self).nodes_view()[i].bounds,
                ),
            forall|i: int|
                0 <= i < final(self).nodes_view().len() ==> #[trigger] refitted_at(
                    final(self).nodes_view(),
                    union,
                    i,
                ),
    {
        let ghost start = self.nodes@;
        self.refit_leaves(leaf_bounds);
        let ghost mid = self.nodes@;
        self.refit(union);
        proof {
            assert forall|i: int|
                0 <= i < self.nodes@.len() && start[i].tri_count > 0 implies leaf_bounds.ensures(
                (start[i].first_tri, start[i].tri_count),
                #[trigger] self.nodes@[i].bounds,
            ) by {
                assert(mid[i].tri_count == start[i].tri_count);
                assert(self.nodes@[i].bounds == mid[i].bounds);
            }
            assert forall|i: int| 0 <= i < start.len() implies {
                &&& (#[trigger] start[i]).left == self.nodes@[i].left
                &&& start[i].right == self.nodes@[i].right
                &&& start[i].tri_count == self.nodes@[i].tri_count
                &&& start[i].first_tri == self.nodes@[i].first_tri
                &&& start[i].parent == self.nodes@[i].parent
            } by {
                assert(mid[i] == mid[i]);
            }
        }
    }

    /// Recomputes the boxes on the chain from `node` up to the root, each
    /// from its children; every other box is left as it was.
    #[verifier::rlimit(40)]
    pub fn refit_node<F: Fn(B, B) -> B>(&mut self, node: u32, union: F)
        requires
            verbose_wf(old(self).nodes_view()),
            node < old(self).nodes_view().len(),
            forall|a: B, b: B| #[trigger] union.requires((a, b)),
        ensures
            verbose_wf(final(self).nodes_view()),
            same_shape(old(self).nodes_view(), final(self).nodes_view()),
            forall|k: int|
                0 <= k < final(self).nodes_view().len() && (old(self).nodes_view()[k].tri_count > 0
                    || !on_path(old(self).nodes_view(), node as int, k))
                    ==> #[trigger] final(self).nodes_view()[k].bounds == old(self).nodes_view()[k].bounds,
            forall|k: int|
                on_path(old(self).nodes_view(), node as int, k) ==> #[trigger] refitted_at(
                    final(self).nodes_view(),
                    union,
                    k,
                ),
    {
        let ghost start = self.nodes@;
        let n = self.nodes.len();
        let mut cur: usize = node as usize;
        proof {
            lemma_path_unfold(start, node as int, node as int);
            assert forall|k: int| on_path(start, node as int, k) implies k <= node by {
                lemma_path_below(start, node as int, k);
            }
        }
        loop
            invariant_except_break
                cur < n,
                on_path(start, node as int, cur as int),
            invariant
                n == self.nodes@.len(),
                verbose_wf(start),
                same_shape(start, self.nodes@),
                forall|a: B, b: B| #[trigger] union.requires((a, b)),
                forall|k: int|
                    0 <= k < n && (start[k].tri_count > 0 || !(on_path(start, node as int, k) && k >= cur))
                        ==> #[trigger] self.nodes@[k].bounds == start[k].bounds,
                forall|k: int|
                    on_path(start, node as int, k) && k > cur ==> #[trigger] refitted_at(self.nodes@, union, k),
            ensures
                cur == 0,
                forall|k: int| on_path(start, node as int, k) ==> #[trigger] refitted_at(self.nodes@, union, k),
            decreases cur,
        {
            proof {
                lemma_shape_wf(start, self.nodes@);
            }
            let nd = self.nodes[cur];
            if nd.tri_count == 0 {
                let lb = self.nodes[nd.left as usize].bounds;
                let rb = self.nodes[nd.right as usize].bounds;
                let b = union(lb, rb);
                let ghost before = self.nodes@;
                self.nodes.set(cur, Node { bounds: b, ..nd });
                proof {
                    assert forall|k: int| on_path(start, node as int, k) && k > cur implies #[trigger] refitted_at(
                        self.nodes@,
                        union,
                        k,
                    ) by {
                        lemma_path_below(start, node as int, k);
                        assert(self.nodes@[k] == before[k]);
                        if before[k].tri_count == 0 {
                            assert(k < before[k].left);
                            assert(self.nodes@[before[k].left as int] == before[before[k].left as int]);
                            assert(self.nodes@[before[k].right as int] == before[before[k].right as int]);
                        }
                        assert(refitted_at(before, union, k));
                    }
                }
            }
            if cur == 0 {
                proof {
                    assert forall|k: int| on_path(start, node as int, k) implies #[trigger] refitted_at(
                        self.nodes@,
                        union,
                        k,
                    ) by {
                        lemma_path_below(start, node as int, k);
                    }
                }
                break;
            }
            let p = self.nodes[cur].parent as usize;
            proof {
                assert(start[cur as int].parent == self.nodes@[cur as int].parent);
                lemma_path_gap(start, node as int, cur as int);
            }
            cur = p;
        }
        proof {
            lemma_shape_wf(start, self.nodes@);
        }
    }

    /// Replaces the box of node `id`, as when the primitives under it moved.
    pub fn set_bounds(&mut self, id: u32, bounds: B)
        requires
            id < old(self).nodes_view().len(),
        ensures
            final(self).nodes_view() == old(self).nodes_view().update(
                id as int,
                Node { bounds, ..old(self).nodes_view()[id as int] },
            ),
            same_shape(old(self).nodes_view(), final(self).nodes_view()),
            verbose_wf(old(self).nodes_view()) ==> verbose_wf(final(self).nodes_view()),
    {
        let nd = self.nodes[id as usize];
        self.nodes.set(id as usize, Node { bounds, ..nd });
        proof {
            if verbose_wf(old(self).nodes_view()) {
                lemma_shape_wf(old(self).nodes_view(), self.nodes@);
            }
        }
    }

    /// The node array.
    pub fn nodes(&self) -> (r: &Vec<Node<B>>)
        ensures
            r@ == self.nodes_view(),
    {
        &self.nodes
    }
}

} // verus!
