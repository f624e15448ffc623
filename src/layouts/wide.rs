use vstd::prelude::*;

use super::wald;
use super::wald::{compacted, dense, paths, reachable, well_formed};

verus! {

/// Node of a `W`-wide layout: a box, and either a primitive run (leaf) or
/// two to `W` children.
#[derive(Clone, Copy, Debug, PartialEq, Eq)]
pub struct WideNode<B, const W: usize> {
    pub bounds: B,
    /// Leaf: first slot in the index array.
    pub first_tri: u32,
    /// Leaf: number of primitives in the run. Internal: zero.
    pub tri_count: u32,
    /// Children, the first `child_count` of them in use.
    pub child: [u32; W],
    pub child_count: u32,
}

/// Node of the 4-wide layout.
pub type Node4<B> = WideNode<B, 4>;

/// Node of the 8-wide layout.
pub type Node8<B> = WideNode<B, 8>;

impl<B, const W: usize> WideNode<B, W> {
    /// Returns `true` if the node is a leaf.
    pub fn is_leaf(&self) -> (r: bool)
        ensures
            r == (self.tri_count > 0),
    {
        self.tri_count > 0
    }
}

/// Paths to slot `s` summed over the first `cnt` binary nodes listed in `ch`.
pub open spec fn frontier_paths<B>(nodes: Seq<wald::Node<B>>, ch: Seq<u32>, cnt: int, s: int) -> nat
    decreases cnt,
{
    if cnt <= 0 {
        0
    } else {
        frontier_paths(nodes, ch, cnt - 1, s) + paths(nodes, s, ch[cnt - 1] as int)
    }
}

/// Number of paths from wide node `i` down to a leaf that holds slot `s`.
pub open spec fn paths_wide<B, const W: usize>(nodes: Seq<WideNode<B, W>>, s: int, i: int) -> nat
    decreases nodes.len() - i, W + 1,
{
    if i < 0 || i >= nodes.len() {
        0
    } else if nodes[i].tri_count > 0 {
        if nodes[i].first_tri <= s < nodes[i].first_tri + nodes[i].tri_count {
            1
        } else {
            0
        }
    } else {
        child_paths(nodes, s, i, if nodes[i].child_count <= W { nodes[i].child_count as int } else { W as int })
    }
}

/// Paths to slot `s` summed over the first `k` children of wide node `i`.
pub open spec fn child_paths<B, const W: usize>(nodes: Seq<WideNode<B, W>>, s: int, i: int, k: int) -> nat
    decreases nodes.len() - i, k,
{
    if k <= 0 || k > W || i < 0 || i >= nodes.len() {
        0
    } else {
        let c = nodes[i].child@[k - 1] as int;
        child_paths(nodes, s, i, k - 1) + if i < c < nodes.len() {
            paths_wide(nodes, s, c)
        } else {
            0
        }
    }
}

proof fn lemma_frontier_update<B>(nodes: Seq<wald::Node<B>>, ch: Seq<u32>, cnt: int, b: int, v: u32, s: int)
    requires
        0 <= b < ch.len(),
        0 <= cnt <= ch.len(),
    ensures
        b < cnt ==> frontier_paths(nodes, ch.update(b, v), cnt, s) + paths(nodes, s, ch[b] as int)
            == frontier_paths(nodes, ch, cnt, s) + paths(nodes, s, v as int),
        b >= cnt ==> frontier_paths(nodes, ch.update(b, v), cnt, s) == frontier_paths(nodes, ch, cnt, s),
    decreases cnt,
{
    if cnt > 0 {
        lemma_frontier_update(nodes, ch, cnt - 1, b, v, s);
        assert(ch.update(b, v)[cnt - 1] == if b == cnt - 1 { v } else { ch[cnt - 1] });
    }
}

/// `larger` answers as a strict ranking: one answer per pair, transitive,
/// and never true both ways.
pub open spec fn strict_ranking<B, F: Fn(B, B) -> bool>(larger: F) -> bool {
    &&& forall|a: B, b: B| #[trigger] larger.requires((a, b))
    &&& forall|a: B, b: B, r1: bool, r2: bool|
        #[trigger] larger.ensures((a, b), r1) && #[trigger] larger.ensures((a, b), r2) ==> r1 == r2
    &&& forall|a: B, b: B, c: B|
        #[trigger] larger.ensures((a, b), true) && #[trigger] larger.ensures((b, c), true) ==> larger.ensures(
            (a, c),
            true,
        )
    &&& forall|a: B, b: B| #[trigger] larger.ensures((a, b), true) ==> !larger.ensures((b, a), true)
}

/// Entry `b` of the first `cnt` entries of `cur` is an internal node, and
/// `larger` ranks no other internal entry above it.
pub open spec fn top_ranked<B, F: Fn(B, B) -> bool>(
    nodes: Seq<wald::Node<B>>,
    larger: F,
    cur: Seq<u32>,
    cnt: int,
    b: int,
) -> bool {
    &&& 0 <= b < cnt
    &&& nodes[cur[b] as int].tri_count == 0
    &&& forall|q: int|
        0 <= q < cnt && q != b && nodes[#[trigger] cur[q] as int].tri_count == 0 ==> !larger.ensures(
            (nodes[cur[q] as int].bounds, nodes[cur[b] as int].bounds),
            true,
        )
}

/// `cur`, of which the first `cnt` entries are in use, with entry `b`
/// replaced by its left child and its right child appended.
pub open spec fn opened<B>(nodes: Seq<wald::Node<B>>, cur: Seq<u32>, cnt: int, b: int) -> Seq<u32> {
    let c = nodes[cur[b] as int];
    cur.update(b, c.left_first).update(cnt, (c.left_first + 1) as u32)
}

/// `trace` is the greedy collapse of internal node `i`: it starts from its
/// two children, and step `t` opens entry `picks[t]`, a top-ranked one.
pub open spec fn greedy_trace<B, F: Fn(B, B) -> bool>(
    nodes: Seq<wald::Node<B>>,
    larger: F,
    i: int,
    trace: Seq<Seq<u32>>,
    picks: Seq<int>,
) -> bool {
    &&& trace.len() >= 1
    &&& picks.len() == trace.len() - 1
    &&& trace[0].len() >= 2
    &&& trace[0][0] == nodes[i].left_first
    &&& trace[0][1] == nodes[i].left_first + 1
    &&& forall|t: int|
        0 <= t < picks.len() ==> top_ranked(nodes, larger, trace[t], t + 2, #[trigger] picks[t]) && trace[t + 1]
            == opened(nodes, trace[t], t + 2, picks[t])
}

/// Children for internal binary node `i` of a dense tree: start from its
/// two children and, while there is room for one more, replace the
/// internal child that `larger` ranks first (larger surface area) by its
/// own two children.
fn collapse<B: Copy, F: Fn(B, B) -> bool, const W: usize>(nodes: &Vec<wald::Node<B>>, i: usize, larger: &F) -> (r: (
    [u32; W],
    u32,
))
    requires
        2 <= W <= u32::MAX,
        well_formed(nodes@),
        dense(nodes@),
        i < nodes@.len(),
        nodes@[i as int].tri_count == 0,
        strict_ranking(*larger),
    ensures
        2 <= r.1 <= W,
        exists|trace: Seq<Seq<u32>>, picks: Seq<int>|
            #[trigger] greedy_trace(nodes@, *larger, i as int, trace, picks) && trace.last() == r.0@ && r.1
                == trace.len() + 1,
        forall|k: int| 0 <= k < r.1 ==> i < #[trigger] r.0@[k] < nodes@.len(),
        forall|s: int| #[trigger] frontier_paths(nodes@, r.0@, r.1 as int, s) == paths(nodes@, s, i as int),
        r.1 < W ==> forall|k: int| 0 <= k < r.1 ==> nodes@[#[trigger] r.0@[k] as int].tri_count > 0,
{
    let n = nodes.len();
    proof {
        assert(reachable(nodes@, i as int));
    }
    let lf = nodes[i].left_first;
    let mut ch: [u32; W] = [0u32; W];
    ch.set(0, lf);
    ch.set(1, lf + 1);
    let mut cnt: usize = 2;
    let ghost mut trace: Seq<Seq<u32>> = seq![ch@];
    let ghost mut picks: Seq<int> = Seq::empty();
    proof {
        assert forall|s: int| #[trigger] frontier_paths(nodes@, ch@, cnt as int, s) == paths(nodes@, s, i as int) by {
            assert(ch@[0] == lf && ch@[1] == lf + 1);
            assert(frontier_paths(nodes@, ch@, 0, s) == 0);
            assert(frontier_paths(nodes@, ch@, 1, s) == paths(nodes@, s, lf as int));
            assert(i < lf && lf + 1 < n);
        }
    }
    while cnt < W
        invariant
            n == nodes@.len(),
            well_formed(nodes@),
            dense(nodes@),
            2 <= cnt <= W,
            ch@.len() == W,
            forall|k: int| 0 <= k < cnt ==> i < #[trigger] ch@[k] < n,
            forall|s: int| #[trigger] frontier_paths(nodes@, ch@, cnt as int, s) == paths(nodes@, s, i as int),
            strict_ranking(*larger),
            i < n,
            greedy_trace(nodes@, *larger, i as int, trace, picks),
            trace.last() == ch@,
            cnt == trace.len() + 1,
        ensures
            2 <= cnt <= W,
            greedy_trace(nodes@, *larger, i as int, trace, picks),
            trace.last() == ch@,
            cnt == trace.len() + 1,
            cnt < W ==> forall|q: int| 0 <= q < cnt ==> nodes@[#[trigger] ch@[q] as int].tri_count > 0,
        decreases W - cnt,
    {
        let mut best: usize = W;
        let mut k: usize = 0;
        while k < cnt
            invariant
                n == nodes@.len(),
                2 <= cnt < W,
                ch@.len() == W,
                k <= cnt,
                forall|q: int| 0 <= q < cnt ==> i < #[trigger] ch@[q] < n,
                best == W || (best < cnt && nodes@[ch@[best as int] as int].tri_count == 0),
                best == W ==> forall|q: int| 0 <= q < k ==> nodes@[#[trigger] ch@[q] as int].tri_count > 0,
                best != W ==> forall|q: int|
                    0 <= q < k && q != best && nodes@[#[trigger] ch@[q] as int].tri_count == 0 ==> !larger.ensures(
                        (nodes@[ch@[q] as int].bounds, nodes@[ch@[best as int] as int].bounds),
                        true,
                    ),
                strict_ranking(*larger),
            decreases cnt - k,
        {
            let c = ch[k] as usize;
            if nodes[c].tri_count == 0 {
                if best == W {
                    best = k;
                } else {
                    let ghost old_best = best;
                    let cb = nodes[c].bounds;
                    let bb = nodes[ch[best] as usize].bounds;
                    let above = larger(cb, bb);
                    if above {
                        best = k;
                        proof {
                            assert forall|q: int|
                                0 <= q < k + 1 && q != best && nodes@[#[trigger] ch@[q] as int].tri_count == 0
                                    implies !larger.ensures((nodes@[ch@[q] as int].bounds, cb), true) by {
                                let qb = nodes@[ch@[q] as int].bounds;
                                if q == old_best {
                                    assert(larger.ensures((cb, bb), true));
                                } else if larger.ensures((qb, cb), true) {
                                    assert(larger.ensures((qb, bb), true));
                                }
                            }
                        }
                    } else {
                        proof {
                            if larger.ensures((cb, bb), true) {
                                assert(larger.ensures((cb, bb), false));
                            }
                        }
                    }
                }
            }
            k = k + 1;
        }
        if best == W {
            break;
        }
        let c = ch[best] as usize;
        let clf = nodes[c].left_first;
        proof {
            assert(reachable(nodes@, c as int));
        }
        let ghost before = ch@;
        ch.set(best, clf);
        let ghost mid = ch@;
        ch.set(cnt, clf + 1);
        proof {
            let t = picks.len() as int;
            assert(ch@ =~= opened(nodes@, before, cnt as int, best as int));
            assert(top_ranked(nodes@, *larger, before, cnt as int, best as int));
            let old_trace = trace;
            let old_picks = picks;
            trace = old_trace.push(ch@);
            picks = old_picks.push(best as int);
            assert forall|u: int| 0 <= u < picks.len() implies top_ranked(nodes@, *larger, trace[u], u + 2, #[trigger] picks[u])
                && trace[u + 1] == opened(nodes@, trace[u], u + 2, picks[u]) by {
                if u < t {
                    assert(old_picks[u] == picks[u]);
                    assert(top_ranked(nodes@, *larger, old_trace[u], u + 2, old_picks[u]));
                }
            }
        }
        proof {
            assert forall|s: int| #[trigger] frontier_paths(nodes@, ch@, cnt + 1, s) == paths(nodes@, s, i as int) by {
                lemma_frontier_update(nodes@, before, cnt as int, best as int, clf, s);
                lemma_frontier_update(nodes@, mid, cnt as int, cnt as int, (clf + 1) as u32, s);
                assert(paths(nodes@, s, c as int) == paths(nodes@, s, clf as int) + paths(nodes@, s, clf + 1));
            }
        }
        cnt = cnt + 1;
    }
    proof {
        assert(greedy_trace(nodes@, *larger, i as int, trace, picks));
    }
    (ch, cnt as u32)
}

/// `wide` is `bin` in a `W`-wide layout: same boxes and leaf runs, and each
/// internal node lists two to `W` binary descendants that together lead to
/// every slot along exactly as many paths as the binary node does; fewer
/// than `W` only when all of them are leaves, so none could be opened.
pub open spec fn widened<B, const W: usize>(bin: Seq<wald::Node<B>>, wide: Seq<WideNode<B, W>>) -> bool {
    &&& wide.len() == bin.len()
    &&& forall|i: int|
        0 <= i < bin.len() ==> {
            &&& (#[trigger] wide[i]).bounds == bin[i].bounds
            &&& wide[i].tri_count == bin[i].tri_count
            &&& (bin[i].tri_count > 0 ==> wide[i].first_tri == bin[i].left_first)
            &&& (bin[i].tri_count == 0 ==> {
                &&& 2 <= wide[i].child_count <= W
                &&& (wide[i].child_count < W ==> forall|k: int|
                    0 <= k < wide[i].child_count ==> bin[#[trigger] wide[i].child@[k] as int].tri_count > 0)
                &&& forall|k: int| 0 <= k < wide[i].child_count ==> i < #[trigger] wide[i].child@[k] < bin.len()
                &&& forall|s: int|
                    #[trigger] frontier_paths(bin, wide[i].child@, wide[i].child_count as int, s) == paths(
                        bin,
                        s,
                        i,
                    )
            })
        }
}

proof fn lemma_widened_paths<B, const W: usize>(bin: Seq<wald::Node<B>>, wide: Seq<WideNode<B, W>>, s: int, i: int)
    requires
        widened(bin, wide),
        0 <= i < bin.len(),
    ensures
        paths_wide(wide, s, i) == paths(bin, s, i),
    decreases bin.len() - i, W + 1,
{
    assert(wide[i] == wide[i]);
    if wide[i].tri_count == 0 {
        lemma_widened_children(bin, wide, s, i, wide[i].child_count as int);
    }
}

proof fn lemma_widened_children<B, const W: usize>(
    bin: Seq<wald::Node<B>>,
    wide: Seq<WideNode<B, W>>,
    s: int,
    i: int,
    k: int,
)
    requires
        widened(bin, wide),
        0 <= i < bin.len(),
        bin[i].tri_count == 0,
        0 <= k <= wide[i].child_count,
    ensures
        child_paths(wide, s, i, k) == frontier_paths(bin, wide[i].child@, k, s),
    decreases bin.len() - i, k,
{
    assert(wide[i] == wide[i]);
    if k > 0 {
        lemma_widened_children(bin, wide, s, i, k - 1);
        let c = wide[i].child@[k - 1] as int;
        assert(i < c < bin.len());
        lemma_widened_paths(bin, wide, s, c);
    }
}

/// Converting to a wide layout keeps, for every slot of the index array,
/// the number of root-to-leaf paths that reach it: no primitive is lost or
/// repeated.
pub proof fn lemma_widened_keeps_paths<B, const W: usize>(original: Seq<wald::Node<B>>, wide: Seq<WideNode<B, W>>)
    requires
        well_formed(original),
        widened(compacted(original), wide),
    ensures
        forall|s: int| #[trigger] paths_wide(wide, s, 0) == paths(original, s, 0),
{
    assert forall|s: int| #[trigger] paths_wide(wide, s, 0) == paths(original, s, 0) by {
        wald::lemma_compacted_well_formed(original);
        lemma_widened_paths(compacted(original), wide, s, 0);
        wald::lemma_compact_paths(original, s, 0);
    }
}

/// A wide tree converted from a binary tree that reaches each slot of its
/// index array along exactly one path does the same: every primitive is
/// reached exactly once, none is lost or repeated.
pub proof fn lemma_widened_covers_once<B, const W: usize>(
    original: Seq<wald::Node<B>>,
    indices: Seq<u32>,
    wide: Seq<WideNode<B, W>>,
)
    requires
        well_formed(original),
        wald::leaf_coverage(original, indices),
        widened(compacted(original), wide),
    ensures
        forall|s: int| 0 <= s < indices.len() ==> #[trigger] paths_wide(wide, s, 0) == 1,
{
    lemma_widened_keeps_paths(original, wide);
    assert forall|s: int| 0 <= s < indices.len() implies #[trigger] paths_wide(wide, s, 0) == 1 by {
        assert(paths_wide(wide, s, 0) == paths(original, s, 0));
    }
}

/// `W`-wide tree with the index array of the binary tree it came from.
pub struct WideBVH<B, const W: usize> {
    nodes: Vec<WideNode<B, W>>,
    indices: Vec<u32>,
}

/// 4-wide tree.
pub type BVH4<B> = WideBVH<B, 4>;

/// 8-wide tree.
pub type BVH8<B> = WideBVH<B, 8>;

impl<B: Copy, const W: usize> WideBVH<B, W> {
    pub closed spec fn nodes_view(&self) -> Seq<WideNode<B, W>> {
        self.nodes@
    }

    pub closed spec fn indices_view(&self) -> Seq<u32> {
        self.indices@
    }

    /// Converts a binary tree, dropping its unused slots first; `larger`
    /// tells whether the first box has the larger surface area. Each
    /// internal node takes the children of the greedy collapse.
    pub fn convert_from<F: Fn(B, B) -> bool>(original: &wald::BVH<B>, larger: F) -> (r: Self)
        requires
            2 <= W <= u32::MAX,
            original.wf(),
            strict_ranking(larger),
        ensures
            widened(compacted(original.nodes_view()), r.nodes_view()),
            r.indices_view() == original.indices_view(),
            forall|i: int|
                0 <= i < r.nodes_view().len() && compacted(original.nodes_view())[i].tri_count == 0 ==> exists|
                    trace: Seq<Seq<u32>>,
                    picks: Seq<int>,
                |
                    #[trigger] greedy_trace(compacted(original.nodes_view()), larger, i, trace, picks)
                        && trace.last() == r.nodes_view()[i].child@ && r.nodes_view()[i].child_count == trace.len() + 1,
    {
        proof {
            wald::lemma_compacted_well_formed(original.nodes_view());
        }
        let c = wald::compact_nodes(original.nodes());
        let n = c.len();
        let mut out: Vec<WideNode<B, W>> = Vec::new();
        let mut i: usize = 0;
        while i < n
            invariant
                2 <= W <= u32::MAX,
                i <= n,
                n == c@.len(),
                well_formed(c@),
                dense(c@),
                strict_ranking(larger),
                out@.len() == i,
                forall|j: int|
                    0 <= j < i && c@[j].tri_count == 0 ==> exists|trace: Seq<Seq<u32>>, picks: Seq<int>|
                        #[trigger] greedy_trace(c@, larger, j, trace, picks) && trace.last() == out@[j].child@
                            && out@[j].child_count == trace.len() + 1,
                forall|j: int|
                    0 <= j < i ==> {
                        &&& (#[trigger] out@[j]).bounds == c@[j].bounds
                        &&& out@[j].tri_count == c@[j].tri_count
                        &&& (c@[j].tri_count > 0 ==> out@[j].first_tri == c@[j].left_first)
                        &&& (c@[j].tri_count == 0 ==> {
                            &&& 2 <= out@[j].child_count <= W
                            &&& (out@[j].child_count < W ==> forall|k: int|
                                0 <= k < out@[j].child_count ==> c@[#[trigger] out@[j].child@[k] as int].tri_count
                                    > 0)
                            &&& forall|k: int|
                                0 <= k < out@[j].child_count ==> j < #[trigger] out@[j].child@[k] < n
                            &&& forall|s: int|
                                #[trigger] frontier_paths(c@, out@[j].child@, out@[j].child_count as int, s)
                                    == paths(c@, s, j)
                        })
                    },
            decreases n - i,
        {
            let nd = c[i];
            if nd.tri_count > 0 {
                out.push(WideNode { bounds: nd.bounds, first_tri: nd.left_first, tri_count: nd.tri_count, child: [0u32; W], child_count: 0 });
            } else {
                let (ch, cnt) = collapse(&c, i, &larger);
                out.push(WideNode { bounds: nd.bounds, first_tri: 0, tri_count: 0, child: ch, child_count: cnt });
            }
            i = i + 1;
        }
        WideBVH { nodes: out, indices: original.indices().clone() }
    }

    /// The node array.
    pub fn nodes(&self) -> (r: &Vec<WideNode<B, W>>)
        ensures
            r@ == self.nodes_view(),
    {
        &self.nodes
    }

    /// The index array: leaf slot to primitive index.
    pub fn indices(&self) -> (r: &Vec<u32>)
        ensures
            r@ == self.indices_view(),
    {
        &self.indices
    }
}

} // verus!
