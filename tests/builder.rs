use tinybvh_rs::builder::{build, build_from_capture, partition_run};
use tinybvh_rs::wald::{self, Node, BVH};

type Aabb = [f32; 6];

fn split_triangles() -> Vec<[f32; 4]> {
    vec![
        [-2.0, 1.0, -1.0, 0.0],
        [-1.0, 1.0, -1.0, 0.0],
        [-2.0, 0.0, -1.0, 0.0],
        [2.0, 1.0, -1.0, 0.0],
        [2.0, 0.0, -1.0, 0.0],
        [1.0, 0.0, -1.0, 0.0],
    ]
}

/// Box of the run's triangles, and a split at the midpoint of the widest
/// axis of their centroids.
fn midpoint_plan(positions: &[[f32; 4]]) -> impl Fn(&Vec<u32>, u32, u32) -> (Aabb, Vec<bool>) + '_ {
    move |indices: &Vec<u32>, first: u32, count: u32| {
        let run = &indices[first as usize..(first + count) as usize];
        let mut b = [f32::MAX, f32::MAX, f32::MAX, f32::MIN, f32::MIN, f32::MIN];
        let mut cmin = [f32::MAX; 3];
        let mut cmax = [f32::MIN; 3];
        let mut centroids = Vec::new();
        for &p in run {
            let mut c = [0.0f32; 3];
            for v in 0..3 {
                let q = positions[p as usize * 3 + v];
                for a in 0..3 {
                    b[a] = b[a].min(q[a]);
                    b[a + 3] = b[a + 3].max(q[a]);
                    c[a] += q[a] / 3.0;
                }
            }
            for a in 0..3 {
                cmin[a] = cmin[a].min(c[a]);
                cmax[a] = cmax[a].max(c[a]);
            }
            centroids.push(c);
        }
        let mut axis = 0;
        for a in 1..3 {
            if cmax[a] - cmin[a] > cmax[axis] - cmin[axis] {
                axis = a;
            }
        }
        let mid = (cmin[axis] + cmax[axis]) / 2.0;
        let sides = if count > 1 { centroids.iter().map(|c| c[axis] < mid).collect() } else { Vec::new() };
        (b, sides)
    }
}

fn eight_triangles() -> Vec<[f32; 4]> {
    let mut v = Vec::new();
    for k in [3, 0, 6, 1, 7, 2, 5, 4] {
        let x = k as f32 * 2.0;
        v.push([x, 0.0, 0.0, 0.0]);
        v.push([x + 1.0, 0.0, 0.0, 0.0]);
        v.push([x, 1.0, 0.0, 0.0]);
    }
    v
}

#[test]
fn build_lays_out_root_padding_and_pair() {
    let tris = split_triangles();
    let bvh = build(2, [0.0; 6], midpoint_plan(&tris));
    let expected = vec![
        Node { bounds: [-2.0, 0.0, -1.0, 2.0, 1.0, -1.0], left_first: 2, tri_count: 0 },
        Node { bounds: [0.0; 6], left_first: 0, tri_count: 0 },
        Node { bounds: [-2.0, 0.0, -1.0, -1.0, 1.0, -1.0], left_first: 0, tri_count: 1 },
        Node { bounds: [1.0, 0.0, -1.0, 2.0, 1.0, -1.0], left_first: 1, tri_count: 1 },
    ];
    assert_eq!(bvh.nodes(), &expected);
    assert_eq!(bvh.indices(), &vec![0u32, 1]);
}

#[test]
fn build_of_one_triangle_is_one_leaf() {
    let tris = split_triangles();
    let bvh = build(1, [0.0; 6], midpoint_plan(&tris[..3]));
    assert_eq!(bvh.nodes().len(), 2);
    assert_eq!(bvh.nodes()[0], Node { bounds: [-2.0, 0.0, -1.0, -1.0, 1.0, -1.0], left_first: 0, tri_count: 1 });
}

#[test]
fn build_covers_every_primitive_once() {
    let tris = eight_triangles();
    let bvh = build(8, [0.0; 6], midpoint_plan(&tris));
    assert!(wald::check_well_formed(bvh.nodes()));
    assert!(wald::check_leaf_coverage(bvh.nodes(), bvh.indices()));
    assert_eq!(bvh.primitive_count(0), 8);
    // Eight single-triangle leaves: seven internal nodes, eight leaves, one padding slot.
    assert_eq!(bvh.nodes().len(), 16);
    let leaves = bvh.nodes().iter().filter(|n| n.is_leaf()).count();
    assert_eq!(leaves, 8);
}

#[test]
fn build_boxes_contain_their_subtrees() {
    let tris = eight_triangles();
    let bvh = build(8, [0.0; 6], midpoint_plan(&tris));
    let nodes = bvh.nodes();
    let marks = wald::reachable_marks(nodes);
    for (i, n) in nodes.iter().enumerate() {
        if !marks[i] {
            continue;
        }
        if n.is_leaf() {
            for s in n.left_first..n.left_first + n.tri_count {
                let p = bvh.indices()[s as usize] as usize;
                for v in 0..3 {
                    let q = tris[p * 3 + v];
                    for a in 0..3 {
                        assert!(n.bounds[a] <= q[a] && q[a] <= n.bounds[a + 3]);
                    }
                }
            }
        } else {
            for c in [n.left_first as usize, n.left_first as usize + 1] {
                for a in 0..3 {
                    assert!(n.bounds[a] <= nodes[c].bounds[a]);
                    assert!(nodes[c].bounds[a + 3] <= n.bounds[a + 3]);
                }
            }
        }
    }
}

#[test]
fn repeated_builds_are_identical() {
    let tris = eight_triangles();
    let a = build(8, [0.0; 6], midpoint_plan(&tris));
    let b = build(8, [0.0; 6], midpoint_plan(&tris));
    assert_eq!(a.nodes(), b.nodes());
    assert_eq!(a.indices(), b.indices());
}

#[test]
fn rebuild_from_capture_matches_fresh_build() {
    let mut tris = split_triangles();
    let bvh: BVH<Aabb> = build(2, [0.0; 6], midpoint_plan(&tris));
    assert_eq!(bvh.nodes()[0].bounds[0], -2.0);
    let capture = bvh.capture();
    tris[0][0] = -5.0;
    let rebuilt = build_from_capture(capture, 2, [0.0; 6], midpoint_plan(&tris));
    assert_eq!(rebuilt.nodes()[0].bounds[0], -5.0);
    let fresh = build(2, [0.0; 6], midpoint_plan(&tris));
    assert_eq!(rebuilt.nodes(), fresh.nodes());
    assert_eq!(rebuilt.indices(), fresh.indices());
}

#[test]
fn compacted_build_is_dense() {
    let tris = eight_triangles();
    let mut bvh = build(8, [0.0; 6], midpoint_plan(&tris));
    bvh.compact();
    assert_eq!(bvh.nodes().len(), 15);
    assert!(wald::reachable_marks(bvh.nodes()).iter().all(|m| *m));
    assert!(wald::check_leaf_coverage(bvh.nodes(), bvh.indices()));
    let again = wald::compact_nodes(bvh.nodes());
    assert_eq!(&again, bvh.nodes());
}

#[test]
fn partition_moves_marked_slots_first() {
    let mut indices = vec![9, 4, 5, 6, 7, 8];
    let mut sides = vec![false, true, false, true];
    let lc = partition_run(&mut indices, &mut sides, 1, 4);
    assert_eq!(lc, 2);
    assert_eq!(indices[0], 9);
    assert_eq!(indices[5], 8);
    let mut left = indices[1..3].to_vec();
    left.sort();
    assert_eq!(left, vec![5, 7]);
    let mut right = indices[3..5].to_vec();
    right.sort();
    assert_eq!(right, vec![4, 6]);
    assert_eq!(sides, vec![true, true, false, false]);
}

#[test]
fn partition_with_no_marks_keeps_run_order_set() {
    let mut indices = vec![0, 1, 2];
    let mut sides = vec![false, false, false];
    assert_eq!(partition_run(&mut indices, &mut sides, 0, 3), 0);
    let mut sorted = indices.clone();
    sorted.sort();
    assert_eq!(sorted, vec![0, 1, 2]);
}
