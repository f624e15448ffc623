use tinybvh_rs::builder::build;
use tinybvh_rs::wide::{Node4, Node8, BVH4, BVH8};
use tinybvh_rs::wald::{Node, BVH};

type Aabb = [f32; 6];

const EMPTY: Aabb = [0.0; 6];

fn area(b: &Aabb) -> f32 {
    let e = [b[3] - b[0], b[4] - b[1], b[5] - b[2]];
    e[0] * e[1] + e[1] * e[2] + e[2] * e[0]
}

fn larger(a: Aabb, b: Aabb) -> bool {
    area(&a) > area(&b)
}

/// root -> (leaf a, internal x), x -> (leaf b, leaf c), one padding slot.
fn deep_tree() -> BVH<Aabb> {
    let nodes = vec![
        Node { bounds: [-2.0, 0.0, 0.0, 2.0, 1.0, 1.0], left_first: 2, tri_count: 0 },
        Node { bounds: EMPTY, left_first: 0, tri_count: 0 },
        Node { bounds: [-2.0, 0.0, 0.0, -1.0, 1.0, 1.0], left_first: 0, tri_count: 1 },
        Node { bounds: [1.0, 0.0, 0.0, 2.0, 1.0, 1.0], left_first: 4, tri_count: 0 },
        Node { bounds: [1.0, 0.0, 0.0, 1.5, 1.0, 1.0], left_first: 1, tri_count: 1 },
        Node { bounds: [1.5, 0.0, 0.0, 2.0, 1.0, 1.0], left_first: 2, tri_count: 1 },
    ];
    BVH::from_parts(nodes, vec![2, 0, 1]).ok().unwrap()
}

/// Slots reached from the root of a 4-wide tree, one entry per path.
fn reached_slots(nodes: &[Node4<Aabb>]) -> Vec<u32> {
    let mut out = Vec::new();
    let mut stack = vec![0usize];
    while let Some(i) = stack.pop() {
        let n = &nodes[i];
        if n.is_leaf() {
            out.extend(n.first_tri..n.first_tri + n.tri_count);
        } else {
            for k in 0..n.child_count as usize {
                stack.push(n.child[k] as usize);
            }
        }
    }
    out.sort();
    out
}

fn reached_slots8(nodes: &[Node8<Aabb>]) -> Vec<u32> {
    let mut out = Vec::new();
    let mut stack = vec![0usize];
    while let Some(i) = stack.pop() {
        let n = &nodes[i];
        if n.is_leaf() {
            out.extend(n.first_tri..n.first_tri + n.tri_count);
        } else {
            for k in 0..n.child_count as usize {
                stack.push(n.child[k] as usize);
            }
        }
    }
    out.sort();
    out
}

#[test]
fn wide_root_adopts_grandchildren() {
    let wide = BVH4::convert_from(&deep_tree(), larger);
    let n = wide.nodes();
    assert_eq!(n.len(), 5);
    assert!(!n[0].is_leaf());
    assert_eq!(n[0].child_count, 3);
    assert_eq!(&n[0].child[..3], &[1, 3, 4]);
    assert_eq!(n[0].bounds, [-2.0, 0.0, 0.0, 2.0, 1.0, 1.0]);
    assert_eq!((n[1].first_tri, n[1].tri_count), (0, 1));
    assert_eq!((n[4].first_tri, n[4].tri_count), (2, 1));
    assert_eq!(wide.indices(), &vec![2u32, 0, 1]);
}

#[test]
fn wide_tree_reaches_every_slot_once() {
    let wide = BVH4::convert_from(&deep_tree(), larger);
    assert_eq!(reached_slots(wide.nodes()), vec![0, 1, 2]);
}

fn eight_leaf_tree() -> BVH<Aabb> {
    let mut positions = Vec::new();
    for k in 0..8 {
        let x = k as f32 * 2.0;
        positions.push([x, 0.0, 0.0]);
        positions.push([x + 1.0, 0.0, 0.0]);
        positions.push([x, 1.0, 0.0]);
    }
    build(8, EMPTY, |idx: &Vec<u32>, first: u32, count: u32| {
        let run = &idx[first as usize..(first + count) as usize];
        let mut b = [f32::MAX, f32::MAX, f32::MAX, f32::MIN, f32::MIN, f32::MIN];
        for &p in run {
            for v in 0..3 {
                let q: [f32; 3] = positions[p as usize * 3 + v];
                for a in 0..3 {
                    b[a] = b[a].min(q[a]);
                    b[a + 3] = b[a + 3].max(q[a]);
                }
            }
        }
        let mid = (b[0] + b[3]) / 2.0;
        let sides = run.iter().map(|&p| positions[p as usize * 3][0] + 0.5 < mid).collect();
        (b, sides)
    })
}

#[test]
fn wide_tree_of_built_tree_has_four_children_at_root() {
    let bvh = eight_leaf_tree();
    let wide = BVH4::convert_from(&bvh, larger);
    assert_eq!(wide.nodes()[0].child_count, 4);
    assert_eq!(reached_slots(wide.nodes()), (0..8).collect::<Vec<u32>>());
}

#[test]
fn eight_wide_root_holds_all_eight_leaves() {
    let bvh = eight_leaf_tree();
    let wide = BVH8::convert_from(&bvh, larger);
    let root = &wide.nodes()[0];
    assert_eq!(root.child_count, 8);
    assert!(root.child.iter().all(|&c| wide.nodes()[c as usize].is_leaf()));
    assert_eq!(reached_slots8(wide.nodes()), (0..8).collect::<Vec<u32>>());
}

#[test]
fn eight_wide_of_deep_tree() {
    let wide = BVH8::convert_from(&deep_tree(), larger);
    assert_eq!(wide.nodes()[0].child_count, 3);
    assert_eq!(&wide.nodes()[0].child[..3], &[1, 3, 4]);
    assert_eq!(reached_slots8(wide.nodes()), vec![0, 1, 2]);
}

#[test]
fn wide_tree_of_single_leaf() {
    let wide = BVH4::convert_from(&BVH::single_leaf(EMPTY, 2), larger);
    assert_eq!(wide.nodes().len(), 1);
    assert!(wide.nodes()[0].is_leaf());
    assert_eq!(reached_slots(wide.nodes()), vec![0, 1]);
}
