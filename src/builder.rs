use vstd::prelude::*;

use crate::layouts::Capture;
use crate::layouts::wald::{
    lemma_children_reachable, paths, child_of, cover_count, has_parent_before, is_permutation, leaf_coverage, leaf_covers, leaves_in_range,
    lemma_parent_reachable, reachable, well_formed, Node, BVH,
};

verus! {

/// `perm` reorders `0..count`: each position names a distinct source position.
pub open spec fn is_reordering(perm: Seq<int>, count: int) -> bool {
    &&& perm.len() == count
    &&& forall|k: int| 0 <= k < count ==> 0 <= #[trigger] perm[k] < count
    &&& forall|a: int, b: int| 0 <= a < b < count ==> #[trigger] perm[a] != #[trigger] perm[b]
}

/// The run `first..first + count` of `new_idx`, with the side marks in
/// `new_side`, is the run of `old_idx` with its marks, reordered by `perm`;
/// `inv` tells where each old position went.
pub open spec fn permuted_run(
    old_idx: Seq<u32>,
    old_side: Seq<bool>,
    new_idx: Seq<u32>,
    new_side: Seq<bool>,
    first: int,
    count: int,
    perm: Seq<int>,
    inv: Seq<int>,
) -> bool {
    &&& is_reordering(perm, count)
    &&& forall|k: int|
        0 <= k < count ==> new_idx[first + k] == old_idx[first + #[trigger] perm[k]] && new_side[k]
            == old_side[perm[k]]
    &&& inv.len() == count
    &&& forall|m: int| 0 <= m < count ==> 0 <= #[trigger] inv[m] < count && new_side[inv[m]] == old_side[m]
}

/// Exchanges entries `a` and `b` of `s`.
pub open spec fn swapped<T>(s: Seq<T>, a: int, b: int) -> Seq<T> {
    s.update(a, s[b]).update(b, s[a])
}

/// The partition of a run from scan positions `i` (front) and `j` (back):
/// a marked slot at the front is kept, an unmarked one is exchanged with
/// the slot before the back and the back moves in. Gives the index array,
/// the marks and the number of marked slots.
pub open spec fn partition_state(idx: Seq<u32>, sides: Seq<bool>, first: int, i: int, j: int) -> (Seq<u32>, Seq<bool>, int)
    decreases j - i,
{
    if i >= j {
        (idx, sides, i)
    } else if sides[i] {
        partition_state(idx, sides, first, i + 1, j)
    } else {
        partition_state(swapped(idx, first + i, first + j - 1), swapped(sides, i, j - 1), first, i, j - 1)
    }
}

/// Reorders the run `first..first + count` of the index array in place so
/// that the slots marked `true` in `sides` (one mark per slot of the run)
/// come first; the marks move with their slots. Returns how many are marked.
pub fn partition_run(indices: &mut Vec<u32>, sides: &mut Vec<bool>, first: usize, count: usize) -> (lc: usize)
    requires
        first + count <= old(indices)@.len(),
        old(sides)@.len() == count,
    ensures
        final(indices)@.len() == old(indices)@.len(),
        final(sides)@.len() == count,
        lc <= count,
        forall|a: int|
            0 <= a < old(indices)@.len() && !(first <= a < first + count) ==> #[trigger] final(indices)@[a]
                == old(indices)@[a],
        forall|k: int| 0 <= k < count ==> (#[trigger] final(sides)@[k] <==> k < lc),
        (final(indices)@, final(sides)@, lc as int) == partition_state(old(indices)@, old(sides)@, first as int, 0, count as int),
        exists|perm: Seq<int>, inv: Seq<int>|
            #[trigger] permuted_run(
                old(indices)@,
                old(sides)@,
                final(indices)@,
                final(sides)@,
                first as int,
                count as int,
                perm,
                inv,
            ),
{
    let ghost oi = indices@;
    let ghost os = sides@;
    let ghost mut perm: Seq<int> = Seq::new(count as nat, |k: int| k);
    let ghost mut inv: Seq<int> = Seq::new(count as nat, |k: int| k);
    let mut i: usize = 0;
    let mut j: usize = count;
    proof {
        assert(oi.len() == indices.len());
    }
    while i < j
        invariant
            i <= j <= count,
            first + count <= oi.len(),
            oi.len() <= usize::MAX,
            indices@.len() == oi.len(),
            sides@.len() == count,
            forall|a: int| 0 <= a < oi.len() && !(first <= a < first + count) ==> #[trigger] indices@[a] == oi[a],
            forall|k: int| 0 <= k < i ==> #[trigger] sides@[k],
            forall|k: int| j <= k < count ==> !#[trigger] sides@[k],
            permuted_run(oi, os, indices@, sides@, first as int, count as int, perm, inv),
            partition_state(indices@, sides@, first as int, i as int, j as int) == partition_state(oi, os, first as int, 0, count as int),
        decreases j - i,
    {
        let ghost pi = indices@;
        let ghost ps = sides@;
        if sides[i] {
            i = i + 1;
        } else {
            j = j - 1;
            let ia = indices[first + i];
            let ib = indices[first + j];
            indices.set(first + i, ib);
            indices.set(first + j, ia);
            let sa = sides[i];
            let sb = sides[j];
            sides.set(i, sb);
            sides.set(j, sa);
            proof {
                assert(indices@ =~= swapped(pi, first + i, first + j));
                assert(sides@ =~= swapped(ps, i as int, j as int));
                let old_perm = perm;
                let old_inv = inv;
                inv = Seq::new(count as nat, |m: int| if old_inv[m] == i { j as int } else if old_inv[m] == j { i as int } else { old_inv[m] });
                assert forall|m: int| 0 <= m < count implies 0 <= #[trigger] inv[m] < count && sides@[inv[m]] == os[m] by {
                    assert(0 <= old_inv[m] < count);
                }
                perm = old_perm.update(i as int, old_perm[j as int]).update(j as int, old_perm[i as int]);
                assert forall|a: int, b: int| 0 <= a < b < count implies #[trigger] perm[a] != #[trigger] perm[b] by {
                    assert(old_perm[a] != old_perm[b] || a == b);
                    if a != i && a != j && b != i && b != j {
                    } else {
                        assert(forall|x: int, y: int| 0 <= x < y < count ==> #[trigger] old_perm[x] != #[trigger] old_perm[y]);
                        let pa = if a == i { j as int } else if a == j { i as int } else { a };
                        let pb = if b == i { j as int } else if b == j { i as int } else { b };
                        assert(perm[a] == old_perm[pa]);
                        assert(perm[b] == old_perm[pb]);
                        assert(pa != pb);
                        if pa < pb {
                            assert(old_perm[pa] != old_perm[pb]);
                        } else {
                            assert(old_perm[pb] != old_perm[pa]);
                        }
                    }
                }
                assert forall|k: int| 0 <= k < count implies indices@[first + k] == oi[first + #[trigger] perm[k]]
                    && sides@[k] == os[perm[k]] by {
                    if k != i && k != j {
                        assert(indices@[first + k] == oi[first + old_perm[k]]);
                    }
                }
            }
        }
    }
    proof {
        assert(permuted_run(oi, os, indices@, sides@, first as int, count as int, perm, inv));
    }
    i
}

/// Reordering one run of a permutation of the primitives leaves a permutation.
pub proof fn lemma_permuted_run_keeps_permutation(
    old_idx: Seq<u32>,
    old_side: Seq<bool>,
    new_idx: Seq<u32>,
    new_side: Seq<bool>,
    first: int,
    count: int,
    perm: Seq<int>,
    inv: Seq<int>,
)
    requires
        is_permutation(old_idx),
        new_idx.len() == old_idx.len(),
        0 <= first,
        first + count <= old_idx.len(),
        forall|a: int| 0 <= a < old_idx.len() && !(first <= a < first + count) ==> #[trigger] new_idx[a] == old_idx[a],
        permuted_run(old_idx, old_side, new_idx, new_side, first, count, perm, inv),
    ensures
        is_permutation(new_idx),
{
    let n = old_idx.len();
    let src = |a: int| if first <= a < first + count { first + perm[a - first] } else { a };
    assert forall|a: int| 0 <= a < n implies new_idx[a] == old_idx[src(a)] && 0 <= src(a) < n by {
        if first <= a < first + count {
            let k = a - first;
            assert(new_idx[first + k] == old_idx[first + perm[k]]);
        }
    }
    assert forall|a: int| 0 <= a < n implies #[trigger] new_idx[a] < n by {
        assert(old_idx[src(a)] < n);
    }
    assert forall|a: int, b: int| 0 <= a < b < n implies #[trigger] new_idx[a] != #[trigger] new_idx[b] by {
        let sa = src(a);
        let sb = src(b);
        if sa == sb {
            if first <= a < first + count && first <= b < first + count {
                assert(perm[a - first] != perm[b - first]);
            }
        } else if sa < sb {
            assert(old_idx[sa] != old_idx[sb]);
        } else {
            assert(old_idx[sb] != old_idx[sa]);
        }
    }
}

/// The side marks of a run of `count` slots put at least one slot on each side.
pub open spec fn splits(sides: Seq<bool>, count: int) -> bool {
    &&& count > 1
    &&& sides.len() == count
    &&& exists|k: int| 0 <= k < count && #[trigger] sides[k]
    &&& exists|k: int| 0 <= k < count && !#[trigger] sides[k]
}

/// `new` keeps the child links and counts of every node of `old`, except
/// leaves that became internal nodes whose children lie past `old`.
pub open spec fn grown_from<B>(old: Seq<Node<B>>, new: Seq<Node<B>>) -> bool {
    &&& new.len() >= old.len()
    &&& forall|k: int|
        0 <= k < old.len() ==> {
            ||| (#[trigger] new[k]).left_first == old[k].left_first && new[k].tri_count == old[k].tri_count
            ||| old[k].tri_count > 0 && new[k].tri_count == 0 && new[k].left_first >= old.len()
        }
}

proof fn lemma_grown_reach<B>(old: Seq<Node<B>>, new: Seq<Node<B>>, j: int)
    requires
        grown_from(old, new),
        0 <= j < old.len(),
    ensures
        reachable(new, j) == reachable(old, j),
    decreases j, j + 1,
{
    if j > 0 {
        lemma_grown_parent(old, new, j, j);
    }
}

proof fn lemma_grown_parent<B>(old: Seq<Node<B>>, new: Seq<Node<B>>, j: int, m: int)
    requires
        grown_from(old, new),
        0 < j < old.len(),
        0 <= m <= j,
    ensures
        has_parent_before(new, j, m) == has_parent_before(old, j, m),
    decreases j, m,
{
    if m > 0 {
        lemma_grown_reach(old, new, m - 1);
        lemma_grown_parent(old, new, j, m - 1);
        assert(child_of(new, m - 1, j) == child_of(old, m - 1, j));
    }
}

/// Nodes of `old` stay reachable, and no other node of `old` becomes reachable.
pub proof fn lemma_grown_keeps_reach<B>(old: Seq<Node<B>>, new: Seq<Node<B>>)
    requires
        grown_from(old, new),
    ensures
        forall|k: int| 0 <= k < old.len() ==> #[trigger] reachable(new, k) == reachable(old, k),
{
    assert forall|k: int| 0 <= k < old.len() implies #[trigger] reachable(new, k) == reachable(old, k) by {
        lemma_grown_reach(old, new, k);
    }
}

pub proof fn lemma_cover_same_shape<B>(old: Seq<Node<B>>, new: Seq<Node<B>>, s: int, m: int)
    requires
        grown_from(old, new),
        new.len() == old.len(),
        forall|k: int| 0 <= k < old.len() ==> #[trigger] new[k].tri_count == old[k].tri_count,
        0 <= m <= old.len(),
    ensures
        cover_count(new, s, m) == cover_count(old, s, m),
    decreases m,
{
    if m > 0 {
        lemma_cover_same_shape(old, new, s, m - 1);
        lemma_grown_reach(old, new, m - 1);
    }
}

pub proof fn lemma_same_shape_paths<B>(old: Seq<Node<B>>, new: Seq<Node<B>>, s: int, j: int)
    requires
        new.len() == old.len(),
        forall|k: int|
            0 <= k < old.len() ==> #[trigger] new[k].tri_count == old[k].tri_count && new[k].left_first
                == old[k].left_first,
    ensures
        paths(new, s, j) == paths(old, s, j),
    decreases old.len() - j,
{
    if 0 <= j < old.len() {
        assert(new[j].tri_count == old[j].tri_count);
        if old[j].tri_count == 0 && j < old[j].left_first && old[j].left_first + 1 < old.len() {
            lemma_same_shape_paths(old, new, s, old[j].left_first as int);
            lemma_same_shape_paths(old, new, s, old[j].left_first + 1);
        }
    }
}

proof fn lemma_split_paths<B>(old: Seq<Node<B>>, i: int, bounds: B, lc: u32, s: int, j: int)
    requires
        well_formed(old),
        0 <= i < old.len(),
        old.len() + 2 <= u32::MAX,
        old[i].tri_count > 0,
        0 < lc < old[i].tri_count,
        old[i].left_first + old[i].tri_count <= u32::MAX,
        0 <= j < old.len(),
        reachable(old, j),
    ensures
        paths(split_leaf(old, i, bounds, lc), s, j) == paths(old, s, j),
    decreases old.len() - j,
{
    let new = split_leaf(old, i, bounds, lc);
    let n = old.len() as int;
    if j == i {
        assert(paths(new, s, n) == if leaf_covers(new[n], s) { 1nat } else { 0nat });
        assert(paths(new, s, n + 1) == if leaf_covers(new[n + 1], s) { 1nat } else { 0nat });
    } else if old[j].tri_count == 0 {
        lemma_children_reachable(old, j);
        lemma_split_paths(old, i, bounds, lc, s, old[j].left_first as int);
        lemma_split_paths(old, i, bounds, lc, s, old[j].left_first + 1);
    }
}

/// The node array after leaf `i` is split into two leaves appended at the end.
pub open spec fn split_leaf<B>(nodes: Seq<Node<B>>, i: int, bounds: B, lc: u32) -> Seq<Node<B>> {
    let nd = nodes[i];
    nodes.update(i, Node { bounds, left_first: nodes.len() as u32, tri_count: 0 }).push(
        Node { bounds, left_first: nd.left_first, tri_count: lc },
    ).push(Node { bounds, left_first: (nd.left_first + lc) as u32, tri_count: (nd.tri_count - lc) as u32 })
}

proof fn lemma_split_cover_prefix<B>(old: Seq<Node<B>>, i: int, bounds: B, lc: u32, s: int, m: int)
    requires
        0 <= i < old.len(),
        old.len() + 2 <= u32::MAX,
        old[i].tri_count > 0,
        0 < lc < old[i].tri_count,
        0 <= m <= old.len(),
    ensures
        cover_count(split_leaf(old, i, bounds, lc), s, m) + if i < m && reachable(old, i) && leaf_covers(
            old[i],
            s,
        ) {
            1int
        } else {
            0int
        } == cover_count(old, s, m),
    decreases m,
{
    let new = split_leaf(old, i, bounds, lc);
    assert(grown_from(old, new));
    if m > 0 {
        lemma_split_cover_prefix(old, i, bounds, lc, s, m - 1);
        lemma_grown_reach(old, new, m - 1);
    }
}

/// Splitting a reachable leaf into two leaves over the two parts of its run
/// keeps the layout invariant and the leaf coverage.
pub proof fn lemma_split_keeps_invariants<B>(old: Seq<Node<B>>, indices: Seq<u32>, i: int, bounds: B, lc: u32)
    requires
        well_formed(old),
        leaf_coverage(old, indices),
        0 <= i < old.len(),
        old.len() + 2 <= u32::MAX,
        indices.len() <= u32::MAX,
        reachable(old, i),
        old[i].tri_count > 0,
        0 < lc < old[i].tri_count,
    ensures
        well_formed(split_leaf(old, i, bounds, lc)),
        leaf_coverage(split_leaf(old, i, bounds, lc), indices),
        grown_from(old, split_leaf(old, i, bounds, lc)),
        reachable(split_leaf(old, i, bounds, lc), old.len() as int),
        reachable(split_leaf(old, i, bounds, lc), old.len() as int + 1),
{
    let new = split_leaf(old, i, bounds, lc);
    let n = old.len() as int;
    let p = indices.len() as int;
    assert(grown_from(old, new));
    lemma_grown_keeps_reach(old, new);
    assert(child_of(new, i, n));
    assert(child_of(new, i, n + 1));
    lemma_parent_reachable(new, i, n, n);
    lemma_parent_reachable(new, i, n + 1, n + 1);
    assert forall|k: int|
        0 <= k < new.len() && #[trigger] reachable(new, k) && new[k].tri_count == 0 implies k
        < new[k].left_first && new[k].left_first + 1 < new.len() by {
        if k < n && k != i {
            assert(reachable(old, k));
        }
    }
    assert forall|k: int|
        0 <= k < new.len() && #[trigger] reachable(new, k) && new[k].tri_count > 0
            implies new[k].left_first + new[k].tri_count <= p by {
        if k < n {
            assert(reachable(old, k));
        }
    }
    assert(leaves_in_range(old, p));
    assert(old[i].left_first + old[i].tri_count <= p);
    assert forall|w1: int, w2: int, j: int|
        0 <= w1 < new.len() && 0 <= w2 < new.len() && reachable(new, w1) && reachable(new, w2)
            && #[trigger] child_of(new, w1, j) && #[trigger] child_of(new, w2, j) implies w1 == w2 by {
        if w1 != i && w1 < n {
            assert(reachable(old, w1) && child_of(old, w1, j));
        }
        if w2 != i && w2 < n {
            assert(reachable(old, w2) && child_of(old, w2, j));
        }
    }
    assert(reachable(old, 0));
    assert forall|s: int| 0 <= s < p implies #[trigger] paths(new, s, 0) == 1 by {
        lemma_split_paths(old, i, bounds, lc, s, 0);
        assert(paths(old, s, 0) == 1);
    }
    assert forall|s: int| 0 <= s < p implies #[trigger] cover_count(new, s, new.len() as int) == 1 by {
        lemma_split_cover_prefix(old, i, bounds, lc, s, n);
        assert(cover_count(old, s, n) == 1);
        let lf = old[i].left_first as int;
        assert(new[n].left_first == lf && new[n].tri_count == lc);
        assert(new[n + 1].left_first == lf + lc && new[n + 1].tri_count == old[i].tri_count - lc);
        assert(leaf_covers(old[i], s) <==> (leaf_covers(new[n], s) || leaf_covers(new[n + 1], s)));
        assert(!(leaf_covers(new[n], s) && leaf_covers(new[n + 1], s)));
        assert(cover_count(new, s, n + 2) == cover_count(new, s, n + 1) + if leaf_covers(new[n + 1], s) {
            1nat
        } else {
            0nat
        });
        assert(cover_count(new, s, n + 1) == cover_count(new, s, n) + if leaf_covers(new[n], s) {
            1nat
        } else {
            0nat
        });
    }
}

/// Every answer of `plan` is what `ps` gives for the same index array and run.
pub open spec fn plan_is<B, F: Fn(&Vec<u32>, u32, u32) -> (B, Vec<bool>)>(
    plan: F,
    ps: spec_fn(Seq<u32>, u32, u32) -> (B, Seq<bool>),
) -> bool {
    forall|v: &Vec<u32>, f: u32, c: u32, r: (B, Vec<bool>)|
        #[trigger] plan.ensures((v, f, c), r) ==> r.0 == ps(v@, f, c).0 && r.1@ == ps(v@, f, c).1
}

/// The node array and index array after leaf `i`, whose run is
/// `first..first + count`, is subdivided with the plan `ps`: see `subdivide`.
pub open spec fn subdivided<B>(
    ps: spec_fn(Seq<u32>, u32, u32) -> (B, Seq<bool>),
    nodes: Seq<Node<B>>,
    idx: Seq<u32>,
    i: int,
    first: u32,
    count: u32,
) -> (Seq<Node<B>>, Seq<u32>)
    decreases count,
{
    let bounds = ps(idx, first, count).0;
    let sides = ps(idx, first, count).1;
    let n1 = nodes.update(i, Node { bounds, left_first: nodes[i].left_first, tri_count: nodes[i].tri_count });
    if count <= 1 || sides.len() != count {
        (n1, idx)
    } else {
        let part = partition_state(idx, sides, first as int, 0, count as int);
        let lc = part.2;
        if lc <= 0 || lc >= count {
            (n1, part.0)
        } else {
            let ptr = nodes.len() as int;
            let n2 = split_leaf(n1, i, bounds, lc as u32);
            let left = subdivided(ps, n2, part.0, ptr, first, lc as u32);
            subdivided(ps, left.0, left.1, ptr + 1, (first + lc) as u32, (count - lc) as u32)
        }
    }
}

/// Subdivides leaf `i`, whose run is `first..first + count`, top-down.
///
/// `plan` is handed the index array and the run and gives the node's box and
/// one side mark per slot of the run (`true`: left). The node stays a leaf
/// when the marks are missing or put every slot on one side; otherwise the
/// run is partitioned, two child leaves are appended as a sibling pair, and
/// each is subdivided in turn.
fn subdivide<B: Copy, F: Fn(&Vec<u32>, u32, u32) -> (B, Vec<bool>)>(
    nodes: &mut Vec<Node<B>>,
    indices: &mut Vec<u32>,
    i: usize,
    first: u32,
    count: u32,
    plan: &F,
)
    requires
        well_formed(old(nodes)@),
        leaf_coverage(old(nodes)@, old(indices)@),
        old(indices)@.len() <= u32::MAX,
        i < old(nodes)@.len(),
        reachable(old(nodes)@, i as int),
        old(nodes)@[i as int].left_first == first,
        old(nodes)@[i as int].tri_count == count,
        count > 0,
        old(nodes)@.len() + 2 * count <= u32::MAX,
        forall|v: &Vec<u32>, f: u32, c: u32| #[trigger] plan.requires((v, f, c)),
    ensures
        well_formed(final(nodes)@),
        leaf_coverage(final(nodes)@, final(indices)@),
        grown_from(old(nodes)@, final(nodes)@),
        final(nodes)@.len() + 2 <= old(nodes)@.len() + 2 * count,
        forall|k: int|
            0 <= k < old(nodes)@.len() && k != i ==> #[trigger] final(nodes)@[k] == old(nodes)@[k],
        final(indices)@.len() == old(indices)@.len(),
        forall|a: int|
            0 <= a < old(indices)@.len() && !(first <= a < first + count) ==> #[trigger] final(indices)@[a]
                == old(indices)@[a],
        exists|s: Vec<bool>|
            #[trigger] plan.ensures((&*old(indices), first, count), (final(nodes)@[i as int].bounds, s))
                && (final(nodes)@[i as int].tri_count == 0 <==> splits(s@, count as int)),
        forall|ps: spec_fn(Seq<u32>, u32, u32) -> (B, Seq<bool>)|
            #[trigger] plan_is(*plan, ps) ==> (final(nodes)@, final(indices)@) == subdivided(
                ps,
                old(nodes)@,
                old(indices)@,
                i as int,
                first,
                count,
            ),
    decreases count,
{
    let ghost n0 = nodes@;
    let ghost i0 = indices@;
    proof {
        assert(leaves_in_range(n0, i0.len() as int));
        assert(first + count <= i0.len());
    }
    let ghost iv = *indices;
    let (bounds, mut sides) = plan(&*indices, first, count);
    let ghost s0v = sides;
    let nd = nodes[i];
    nodes.set(i, Node { bounds, ..nd });
    proof {
        let n1 = nodes@;
        assert(grown_from(n0, n1));
        lemma_grown_keeps_reach(n0, n1);
        assert forall|s: int| 0 <= s < i0.len() implies #[trigger] cover_count(n1, s, n1.len() as int) == 1 by {
            lemma_cover_same_shape(n0, n1, s, n0.len() as int);
        }
        assert forall|s: int| 0 <= s < i0.len() implies #[trigger] paths(n1, s, 0) == 1 by {
            lemma_same_shape_paths(n0, n1, s, 0);
            assert(paths(n0, s, 0) == 1);
        }
        assert(leaves_in_range(n1, i0.len() as int));
        assert forall|w1: int, w2: int, j: int|
            0 <= w1 < n1.len() && 0 <= w2 < n1.len() && reachable(n1, w1) && reachable(n1, w2)
                && #[trigger] child_of(n1, w1, j) && #[trigger] child_of(n1, w2, j) implies w1 == w2 by {
            assert(child_of(n0, w1, j) && child_of(n0, w2, j));
        }
        assert(well_formed(n1));
    }
    if count <= 1 || sides.len() != count as usize {
        proof {
            assert(plan.ensures((&iv, first, count), (nodes@[i as int].bounds, s0v)));
            assert forall|ps: spec_fn(Seq<u32>, u32, u32) -> (B, Seq<bool>)|
                #[trigger] plan_is(*plan, ps) implies (nodes@, indices@) == subdivided(ps, n0, i0, i as int, first, count) by {
                assert(plan.ensures((&iv, first, count), (bounds, s0v)));
                assert(nodes@ =~= n0.update(i as int, Node { bounds, left_first: n0[i as int].left_first, tri_count: n0[i as int].tri_count }));
            }
        }
        return;
    }
    let ghost s0 = sides@;
    let lc = partition_run(indices, &mut sides, first as usize, count as usize);
    proof {
        let (perm, inv) = choose|perm: Seq<int>, inv: Seq<int>|
            #[trigger] permuted_run(i0, s0, indices@, sides@, first as int, count as int, perm, inv);
        lemma_permuted_run_keeps_permutation(i0, s0, indices@, sides@, first as int, count as int, perm, inv);
        if lc == 0 || lc == count {
            if splits(s0, count as int) {
                let k1 = choose|k: int| 0 <= k < count && #[trigger] s0[k];
                let k2 = choose|k: int| 0 <= k < count && !#[trigger] s0[k];
                assert(sides@[inv[k1]] && !sides@[inv[k2]]);
            }
        } else {
            assert(s0[perm[0]]);
            assert(!s0[perm[count - 1]]);
        }
        assert(plan.ensures((&iv, first, count), (bounds, s0v)));
    }
    let ghost i2 = indices@;
    let ghost n1e = nodes@;
    proof {
        assert(n1e =~= n0.update(i as int, Node { bounds, left_first: n0[i as int].left_first, tri_count: n0[i as int].tri_count }));
        assert(iv@ == i0);
        assert(s0v@ == s0);
    }
    if lc == 0 || lc == count as usize {
        proof {
            assert forall|ps: spec_fn(Seq<u32>, u32, u32) -> (B, Seq<bool>)|
                #[trigger] plan_is(*plan, ps) implies (nodes@, indices@) == subdivided(ps, n0, i0, i as int, first, count) by {
                assert(plan.ensures((&iv, first, count), (bounds, s0v)));
            }
        }
        return;
    }
    let lc32 = lc as u32;
    let ptr = nodes.len() as u32;
    let ghost n1 = nodes@;
    nodes.set(i, Node { bounds, left_first: ptr, tri_count: 0 });
    nodes.push(Node { bounds, left_first: first, tri_count: lc32 });
    nodes.push(Node { bounds, left_first: first + lc32, tri_count: count - lc32 });
    proof {
        assert(nodes@ =~= split_leaf(n1, i as int, bounds, lc32));
        lemma_split_keeps_invariants(n1, indices@, i as int, bounds, lc32);
    }
    let ghost n2 = nodes@;
    subdivide(nodes, indices, ptr as usize, first, lc32, plan);
    proof {
        lemma_grown_keeps_reach(n2, nodes@);
    }
    let ghost n3 = nodes@;
    subdivide(nodes, indices, ptr as usize + 1, first + lc32, count - lc32, plan);
    proof {
        let n4 = nodes@;
        assert forall|k: int| 0 <= k < n0.len() && k != i implies #[trigger] n4[k] == n0[k] by {
            assert(n4[k] == n3[k]);
            assert(n3[k] == n2[k]);
        }
        assert(n4[i as int] == n3[i as int]);
        assert(n3[i as int] == n2[i as int]);
        assert(grown_from(n0, n4));
        assert(plan.ensures((&iv, first, count), (n4[i as int].bounds, s0v)));
        assert forall|ps: spec_fn(Seq<u32>, u32, u32) -> (B, Seq<bool>)|
            #[trigger] plan_is(*plan, ps) implies (nodes@, indices@) == subdivided(ps, n0, i0, i as int, first, count) by {
            assert(plan.ensures((&iv, first, count), (bounds, s0v)));
            assert(ps(i0, first, count).0 == bounds);
            assert(ps(i0, first, count).1 == s0);
        }
    }
}

/// The node array and index array that a build over `prim_count`
/// primitives gives with the plan `ps`.
pub open spec fn built<B>(ps: spec_fn(Seq<u32>, u32, u32) -> (B, Seq<bool>), prim_count: u32, padding: B) -> (
    Seq<Node<B>>,
    Seq<u32>,
) {
    subdivided(
        ps,
        seq![Node { bounds: padding, left_first: 0, tri_count: prim_count }, Node { bounds: padding, left_first: 0, tri_count: 0 }],
        Seq::new(prim_count as nat, |k: int| k as u32),
        0,
        0,
        prim_count,
    )
}

/// Builds a binary tree over `prim_count` primitives, top-down.
///
/// The root goes to node 0, node 1 is left as padding (`padding` box, no
/// children), and every split appends its sibling pair at the end. `plan`
/// gives each node's box and the side of each slot of its run, as a binned
/// SAH search would choose them; see `subdivide`.
pub fn build<B: Copy, F: Fn(&Vec<u32>, u32, u32) -> (B, Vec<bool>)>(prim_count: u32, padding: B, plan: F) -> (r: BVH<B>)
    requires
        0 < prim_count,
        2 * prim_count + 2 <= u32::MAX,
        forall|v: &Vec<u32>, f: u32, c: u32| #[trigger] plan.requires((v, f, c)),
    ensures
        r.wf(),
        r.indices_view().len() == prim_count,
        2 <= r.nodes_view().len() <= 2 * prim_count,
        r.nodes_view()[1] == (Node { bounds: padding, left_first: 0, tri_count: 0 }),
        r.nodes_view()[0].tri_count > 0 ==> r.nodes_view()[0].left_first == 0 && r.nodes_view()[0].tri_count
            == prim_count,
        exists|v: Vec<u32>, s: Vec<bool>|
            #[trigger] plan.ensures((&v, 0u32, prim_count), (r.nodes_view()[0].bounds, s)) && v@.len()
                == prim_count && (forall|a: int| 0 <= a < prim_count ==> #[trigger] v@[a] == a) && (
            r.nodes_view()[0].tri_count == 0 <==> splits(s@, prim_count as int)),
        forall|ps: spec_fn(Seq<u32>, u32, u32) -> (B, Seq<bool>)|
            #[trigger] plan_is(plan, ps) ==> (r.nodes_view(), r.indices_view()) == built(ps, prim_count, padding),
{
    build_into(Vec::new(), Vec::new(), prim_count, padding, plan)
}

/// Rebuilds a captured tree over a changed primitive buffer, reusing its
/// storage; the result carries the same guarantees as one from `build`.
pub fn build_from_capture<B: Copy, F: Fn(&Vec<u32>, u32, u32) -> (B, Vec<bool>)>(
    capture: Capture<BVH<B>>,
    prim_count: u32,
    padding: B,
    plan: F,
) -> (r: BVH<B>)
    requires
        0 < prim_count,
        2 * prim_count + 2 <= u32::MAX,
        forall|v: &Vec<u32>, f: u32, c: u32| #[trigger] plan.requires((v, f, c)),
    ensures
        r.wf(),
        r.indices_view().len() == prim_count,
        2 <= r.nodes_view().len() <= 2 * prim_count,
        r.nodes_view()[1] == (Node { bounds: padding, left_first: 0, tri_count: 0 }),
        r.nodes_view()[0].tri_count > 0 ==> r.nodes_view()[0].left_first == 0 && r.nodes_view()[0].tri_count
            == prim_count,
        exists|v: Vec<u32>, s: Vec<bool>|
            #[trigger] plan.ensures((&v, 0u32, prim_count), (r.nodes_view()[0].bounds, s)) && v@.len()
                == prim_count && (forall|a: int| 0 <= a < prim_count ==> #[trigger] v@[a] == a) && (
            r.nodes_view()[0].tri_count == 0 <==> splits(s@, prim_count as int)),
        forall|ps: spec_fn(Seq<u32>, u32, u32) -> (B, Seq<bool>)|
            #[trigger] plan_is(plan, ps) ==> (r.nodes_view(), r.indices_view()) == built(ps, prim_count, padding),
{
    let (nodes, indices) = capture.release().into_parts();
    build_into(nodes, indices, prim_count, padding, plan)
}

/// Builds into the given arrays, whatever they held before.
fn build_into<B: Copy, F: Fn(&Vec<u32>, u32, u32) -> (B, Vec<bool>)>(
    mut nodes: Vec<Node<B>>,
    mut indices: Vec<u32>,
    prim_count: u32,
    padding: B,
    plan: F,
) -> (r: BVH<B>)
    requires
        0 < prim_count,
        2 * prim_count + 2 <= u32::MAX,
        forall|v: &Vec<u32>, f: u32, c: u32| #[trigger] plan.requires((v, f, c)),
    ensures
        r.wf(),
        r.indices_view().len() == prim_count,
        2 <= r.nodes_view().len() <= 2 * prim_count,
        r.nodes_view()[1] == (Node { bounds: padding, left_first: 0, tri_count: 0 }),
        r.nodes_view()[0].tri_count > 0 ==> r.nodes_view()[0].left_first == 0 && r.nodes_view()[0].tri_count
            == prim_count,
        exists|v: Vec<u32>, s: Vec<bool>|
            #[trigger] plan.ensures((&v, 0u32, prim_count), (r.nodes_view()[0].bounds, s)) && v@.len()
                == prim_count && (forall|a: int| 0 <= a < prim_count ==> #[trigger] v@[a] == a) && (
            r.nodes_view()[0].tri_count == 0 <==> splits(s@, prim_count as int)),
        forall|ps: spec_fn(Seq<u32>, u32, u32) -> (B, Seq<bool>)|
            #[trigger] plan_is(plan, ps) ==> (r.nodes_view(), r.indices_view()) == built(ps, prim_count, padding),
{
    indices.clear();
    let mut k: u32 = 0;
    while k < prim_count
        invariant
            k <= prim_count,
            indices@.len() == k,
            forall|a: int| 0 <= a < k ==> #[trigger] indices@[a] == a,
        decreases prim_count - k,
    {
        indices.push(k);
        k = k + 1;
    }
    nodes.clear();
    nodes.push(Node { bounds: padding, left_first: 0, tri_count: prim_count });
    nodes.push(Node { bounds: padding, left_first: 0, tri_count: 0 });
    proof {
        let ns = nodes@;
        assert(reachable(ns, 0));
        assert(!has_parent_before(ns, 1, 0));
        assert(!reachable(ns, 1));
        assert(well_formed(ns));
        assert forall|s: int| 0 <= s < prim_count implies #[trigger] cover_count(ns, s, 2) == 1 by {
            assert(cover_count(ns, s, 0) == 0);
            assert(cover_count(ns, s, 1) == 1);
        }
        assert forall|a: int, b: int| 0 <= a < b < prim_count implies #[trigger] indices@[a]
            != #[trigger] indices@[b] by {
        }
        assert(leaf_coverage(ns, indices@));
    }
    let ghost n0 = nodes@;
    let ghost iv = indices;
    subdivide(&mut nodes, &mut indices, 0, 0, prim_count, &plan);
    proof {
        assert(nodes@[1] == n0[1]);
        assert(grown_from(n0, nodes@));
        let s = choose|s: Vec<bool>|
            #[trigger] plan.ensures((&iv, 0u32, prim_count), (nodes@[0].bounds, s)) && (nodes@[0].tri_count == 0
                <==> splits(s@, prim_count as int));
        assert(plan.ensures((&iv, 0u32, prim_count), (nodes@[0].bounds, s)));
        assert(n0 =~= seq![Node { bounds: padding, left_first: 0, tri_count: prim_count }, Node { bounds: padding, left_first: 0, tri_count: 0 }]);
        assert(iv@ =~= Seq::new(prim_count as nat, |k: int| k as u32));
    }
    BVH::assemble(nodes, indices)
}

} // verus!
