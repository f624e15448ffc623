use tinybvh_rs::wald::{self, Node, BVH};
use tinybvh_rs::{BVHLayoutType, Hierarchy};

type Aabb = [f32; 6];

const LEFT: Aabb = [-2.0, 0.0, -1.0, -1.0, 1.0, -1.0];
const RIGHT: Aabb = [1.0, 0.0, -1.0, 2.0, 1.0, -1.0];
const ALL: Aabb = [-2.0, 0.0, -1.0, 2.0, 1.0, -1.0];
const EMPTY: Aabb = [0.0; 6];

/// The node array a builder gives for two disjoint triangles: root, one
/// padding slot, then the two leaves.
fn split_nodes() -> Vec<Node<Aabb>> {
    vec![
        Node { bounds: ALL, left_first: 2, tri_count: 0 },
        Node { bounds: EMPTY, left_first: 0, tri_count: 0 },
        Node { bounds: LEFT, left_first: 0, tri_count: 1 },
        Node { bounds: RIGHT, left_first: 1, tri_count: 1 },
    ]
}

fn split_tree() -> BVH<Aabb> {
    match BVH::from_parts(split_nodes(), vec![0, 1]) {
        Ok(b) => b,
        Err(e) => panic!("split tree refused: {:?}", e),
    }
}

#[test]
fn node_is_leaf() {
    let nodes = split_nodes();
    assert!(!nodes[0].is_leaf());
    assert!(!nodes[1].is_leaf());
    assert!(nodes[2].is_leaf());
    assert!(nodes[3].is_leaf());
}

#[test]
fn builder_output_is_accepted() {
    let bvh = split_tree();
    assert_eq!(bvh.nodes().len(), 4);
    assert_eq!(bvh.nodes()[0], Node { bounds: ALL, left_first: 2, tri_count: 0 });
    assert_eq!(bvh.indices(), &vec![0u32, 1]);
}

#[test]
fn padding_slot_is_unreachable() {
    let marks = wald::reachable_marks(&split_nodes());
    assert_eq!(marks, vec![true, false, true, true]);
}

#[test]
fn primitive_count_per_node() {
    let bvh = split_tree();
    assert_eq!(bvh.primitive_count(0), 2);
    assert_eq!(bvh.primitive_count(2), 1);
    assert_eq!(bvh.primitive_count(3), 1);
}

#[test]
fn shared_subtree_is_refused() {
    // Nodes 2 and 3 both point at the sibling pair 4, 5.
    let nodes = vec![
        Node { bounds: ALL, left_first: 2, tri_count: 0 },
        Node { bounds: EMPTY, left_first: 0, tri_count: 0 },
        Node { bounds: ALL, left_first: 4, tri_count: 0 },
        Node { bounds: ALL, left_first: 4, tri_count: 0 },
        Node { bounds: LEFT, left_first: 0, tri_count: 2 },
        Node { bounds: RIGHT, left_first: 2, tri_count: 1 },
    ];
    assert!(!wald::check_well_formed(&nodes));
    assert_eq!(
        BVH::from_parts(nodes, vec![0, 1, 2]).err(),
        Some(wald::BVHLayoutError::MalformedNodes)
    );
}

#[test]
fn compact_drops_padding() {
    let mut bvh = split_tree();
    bvh.compact();
    assert_eq!(
        bvh.nodes(),
        &vec![
            Node { bounds: ALL, left_first: 1, tri_count: 0 },
            Node { bounds: LEFT, left_first: 0, tri_count: 1 },
            Node { bounds: RIGHT, left_first: 1, tri_count: 1 },
        ]
    );
    assert_eq!(bvh.indices(), &vec![0u32, 1]);
    assert_eq!(bvh.primitive_count(0), 2);
}

#[test]
fn compact_twice_is_compact_once() {
    let once = wald::compact_nodes(&split_nodes());
    let twice = wald::compact_nodes(&once);
    assert_eq!(once, twice);
    assert_eq!(once.len(), 3);
}

#[test]
fn compact_keeps_leaf_coverage() {
    let once = wald::compact_nodes(&split_nodes());
    assert!(wald::check_leaf_coverage(&split_nodes(), &vec![0, 1]));
    assert!(wald::check_leaf_coverage(&once, &vec![0, 1]));
}

#[test]
fn deeper_tree_compacts_with_remapped_children() {
    // root -> (leaf a, internal x), x -> (leaf b, leaf c); slots 1 and 6 unused.
    let nodes = vec![
        Node { bounds: ALL, left_first: 2, tri_count: 0 },
        Node { bounds: EMPTY, left_first: 0, tri_count: 0 },
        Node { bounds: LEFT, left_first: 0, tri_count: 1 },
        Node { bounds: RIGHT, left_first: 4, tri_count: 0 },
        Node { bounds: RIGHT, left_first: 1, tri_count: 1 },
        Node { bounds: RIGHT, left_first: 2, tri_count: 2 },
        Node { bounds: EMPTY, left_first: 9, tri_count: 3 },
    ];
    let mut bvh = BVH::from_parts(nodes, vec![3, 0, 2, 1]).ok().unwrap();
    assert_eq!(bvh.primitive_count(0), 4);
    assert_eq!(bvh.primitive_count(3), 3);
    bvh.compact();
    let n = bvh.nodes();
    assert_eq!(n.len(), 5);
    assert_eq!(n[0].left_first, 1);
    assert_eq!(n[2].left_first, 3);
    assert_eq!(n[2].tri_count, 0);
    assert_eq!(n[3], Node { bounds: RIGHT, left_first: 1, tri_count: 1 });
    assert_eq!(n[4], Node { bounds: RIGHT, left_first: 2, tri_count: 2 });
    assert_eq!(bvh.primitive_count(0), 4);
}

#[test]
fn malformed_nodes_are_refused() {
    assert_eq!(
        BVH::<Aabb>::from_parts(vec![], vec![]).err(),
        Some(wald::BVHLayoutError::MalformedNodes)
    );
    let child_past_end = vec![
        Node { bounds: ALL, left_first: 1, tri_count: 0 },
        Node { bounds: LEFT, left_first: 0, tri_count: 1 },
    ];
    assert_eq!(
        BVH::from_parts(child_past_end, vec![0]).err(),
        Some(wald::BVHLayoutError::MalformedNodes)
    );
    let child_before_parent = vec![
        Node { bounds: ALL, left_first: 0, tri_count: 0 },
        Node { bounds: LEFT, left_first: 0, tri_count: 1 },
    ];
    assert_eq!(
        BVH::from_parts(child_before_parent, vec![0]).err(),
        Some(wald::BVHLayoutError::MalformedNodes)
    );
}

#[test]
fn incomplete_coverage_is_refused() {
    // Both leaves hold slot 0; slot 1 is held by none.
    let mut nodes = split_nodes();
    nodes[3].left_first = 0;
    assert!(!wald::check_leaf_coverage(&nodes, &vec![0, 1]));
    assert_eq!(
        BVH::from_parts(nodes, vec![0, 1]).err(),
        Some(wald::BVHLayoutError::IncompleteCoverage)
    );
    // A leaf run past the end of the index array.
    let mut nodes = split_nodes();
    nodes[3].tri_count = 2;
    assert!(!wald::check_leaf_coverage(&nodes, &vec![0, 1]));
    // Index array that names a primitive twice.
    assert!(!wald::check_leaf_coverage(&split_nodes(), &vec![1, 1]));
    assert_eq!(
        BVH::from_parts(split_nodes(), vec![1, 1]).err(),
        Some(wald::BVHLayoutError::IncompleteCoverage)
    );
}

#[test]
fn permutation_check() {
    assert!(wald::check_permutation(&vec![]));
    assert!(wald::check_permutation(&vec![2, 0, 1]));
    assert!(!wald::check_permutation(&vec![0, 0, 1]));
    assert!(!wald::check_permutation(&vec![0, 3, 1]));
}

#[test]
fn single_leaf_tree() {
    let bvh = BVH::single_leaf(ALL, 3);
    assert_eq!(bvh.nodes(), &vec![Node { bounds: ALL, left_first: 0, tri_count: 3 }]);
    assert_eq!(bvh.indices(), &vec![0u32, 1, 2]);
    assert_eq!(bvh.primitive_count(0), 3);
    assert!(wald::check_leaf_coverage(bvh.nodes(), bvh.indices()));
}

#[test]
fn subtree_count_of_padding_slot_is_zero() {
    assert_eq!(wald::subtree_primitive_count(&split_nodes(), 1), 0);
}

#[test]
fn well_formed_check() {
    assert!(wald::check_well_formed(&split_nodes()));
    let mut nodes = split_nodes();
    nodes[0].left_first = 3;
    assert!(!wald::check_well_formed(&nodes));
}

#[test]
fn hierarchy_compact_and_node_count() {
    let mut h = Hierarchy::new(split_tree());
    assert_eq!(h.node_count(BVHLayoutType::Wald32Byte), Ok(4));
    assert_eq!(h.compact(BVHLayoutType::Wald32Byte), Ok(()));
    assert_eq!(h.node_count(BVHLayoutType::Wald32Byte), Ok(3));
    assert_eq!(h.binary_layout().ok().unwrap().nodes().len(), 3);
}
