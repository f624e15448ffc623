use tinybvh_rs::verbose::{self, OptimizeOptions};
use tinybvh_rs::wald::{Node, BVH};
use tinybvh_rs::{BVHConvertError, BVHLayoutType, Hierarchy, MissingLayout};

type Aabb = [f32; 6];

const LEFT: Aabb = [-2.0, 0.0, -1.0, -1.0, 1.0, -1.0];
const RIGHT: Aabb = [1.0, 0.0, -1.0, 2.0, 1.0, -1.0];
const ALL: Aabb = [-2.0, 0.0, -1.0, 2.0, 1.0, -1.0];
const EMPTY: Aabb = [0.0; 6];

fn larger(a: Aabb, b: Aabb) -> bool {
    let area = |x: Aabb| {
        let e = [x[3] - x[0], x[4] - x[1], x[5] - x[2]];
        e[0] * e[1] + e[1] * e[2] + e[2] * e[0]
    };
    area(a) > area(b)
}

fn union(a: Aabb, b: Aabb) -> Aabb {
    [
        a[0].min(b[0]),
        a[1].min(b[1]),
        a[2].min(b[2]),
        a[3].max(b[3]),
        a[4].max(b[4]),
        a[5].max(b[5]),
    ]
}

/// root -> (leaf a, internal x), x -> (leaf b, leaf c), one padding slot.
fn deep_tree() -> BVH<Aabb> {
    let nodes = vec![
        Node { bounds: ALL, left_first: 2, tri_count: 0 },
        Node { bounds: EMPTY, left_first: 0, tri_count: 0 },
        Node { bounds: LEFT, left_first: 0, tri_count: 1 },
        Node { bounds: RIGHT, left_first: 4, tri_count: 0 },
        Node { bounds: [1.0, 0.0, -1.0, 1.5, 1.0, -1.0], left_first: 1, tri_count: 1 },
        Node { bounds: [1.5, 0.0, -1.0, 2.0, 1.0, -1.0], left_first: 2, tri_count: 1 },
    ];
    BVH::from_parts(nodes, vec![0, 1, 2]).ok().unwrap()
}

#[test]
fn verbose_build_links_parents() {
    let v = verbose::BVH::build(&deep_tree());
    let n = v.nodes();
    assert_eq!(n.len(), 5);
    assert_eq!(n[0].parent, verbose::NO_PARENT);
    assert_eq!((n[0].left, n[0].right, n[0].tri_count), (1, 2, 0));
    assert_eq!(n[1].parent, 0);
    assert_eq!((n[1].first_tri, n[1].tri_count), (0, 1));
    assert!(n[1].is_leaf());
    assert_eq!(n[2].parent, 0);
    assert_eq!((n[2].left, n[2].right), (3, 4));
    assert!(!n[2].is_leaf());
    assert_eq!(n[3].parent, 2);
    assert_eq!(n[4].parent, 2);
    assert_eq!((n[4].first_tri, n[4].tri_count), (2, 1));
    assert_eq!(n[4].bounds, [1.5, 0.0, -1.0, 2.0, 1.0, -1.0]);
}

#[test]
fn refit_recomputes_internal_boxes() {
    let mut v = verbose::BVH::build(&deep_tree());
    v.refit(union);
    let n = v.nodes();
    assert_eq!(n[2].bounds, RIGHT);
    assert_eq!(n[0].bounds, ALL);
    assert_eq!(n[1].bounds, LEFT);
}

#[test]
fn refit_node_after_moving_a_primitive() {
    let mut v = verbose::BVH::build(&deep_tree());
    // The primitive of leaf 4 moved to x in [1.5, 3].
    let moved: Aabb = [1.5, 0.0, -1.0, 3.0, 1.0, -1.0];
    v.set_bounds(4, moved);
    v.refit_node(4, union);
    let n = v.nodes();
    assert_eq!(n[4].bounds, moved);
    assert_eq!(n[2].bounds, [1.0, 0.0, -1.0, 3.0, 1.0, -1.0]);
    assert_eq!(n[0].bounds, [-2.0, 0.0, -1.0, 3.0, 1.0, -1.0]);
    // The sibling subtree off the chain keeps its box.
    assert_eq!(n[1].bounds, LEFT);
    assert_eq!(n[3].bounds, [1.0, 0.0, -1.0, 1.5, 1.0, -1.0]);
}

#[test]
fn refit_node_on_leaf_only_touches_its_chain() {
    let mut v = verbose::BVH::build(&deep_tree());
    let before = v.nodes().clone();
    v.refit_node(1, union);
    assert_eq!(v.nodes(), &before);
}

#[test]
fn optimize_options_default() {
    let o = OptimizeOptions::default();
    assert_eq!(o.get_iterations(), 25);
    assert!(!o.get_extreme());
    let o = OptimizeOptions::new(3, true);
    assert_eq!(o.get_iterations(), 3);
    assert!(o.get_extreme());
}

#[test]
fn hierarchy_reports_missing_and_unsupported_layouts() {
    let mut h = Hierarchy::new(deep_tree());
    assert_eq!(
        h.node_count(BVHLayoutType::Verbose),
        Err(MissingLayout::new(BVHLayoutType::Verbose))
    );
    assert!(h.verbose_layout().is_err());
    assert_eq!(
        h.compact(BVHLayoutType::Verbose),
        Err(tinybvh_rs::BVHCompactError::MissingLayout(BVHLayoutType::Verbose))
    );
    assert_eq!(
        h.compact(BVHLayoutType::CWBVH),
        Err(tinybvh_rs::BVHCompactError::UnsupportedLayout(BVHLayoutType::CWBVH))
    );
    assert_eq!(
        h.convert(BVHLayoutType::Wald32Byte, BVHLayoutType::CWBVH, larger),
        Err(BVHConvertError::UnsupportedConversion(BVHLayoutType::Wald32Byte, BVHLayoutType::CWBVH))
    );
    assert_eq!(h.node_count(BVHLayoutType::Wald32Byte), Ok(6));
}

#[test]
fn hierarchy_convert_to_verbose() {
    let mut h = Hierarchy::new(deep_tree());
    assert_eq!(h.convert(BVHLayoutType::Wald32Byte, BVHLayoutType::Verbose, larger), Ok(()));
    assert_eq!(h.node_count(BVHLayoutType::Verbose), Ok(5));
    assert_eq!(h.compact(BVHLayoutType::Verbose), Ok(()));
    assert_eq!(h.verbose_layout().ok().unwrap().nodes()[3].parent, 2);
    // The binary layout is kept as it was.
    assert_eq!(h.node_count(BVHLayoutType::Wald32Byte), Ok(6));
}

#[test]
fn hierarchy_convert_to_four_wide() {
    let mut h = Hierarchy::new(deep_tree());
    assert_eq!(
        h.node_count(BVHLayoutType::BasicBVH4),
        Err(MissingLayout::new(BVHLayoutType::BasicBVH4))
    );
    assert_eq!(h.convert(BVHLayoutType::Wald32Byte, BVHLayoutType::BasicBVH4, larger), Ok(()));
    assert_eq!(h.node_count(BVHLayoutType::BasicBVH4), Ok(5));
    let wide = h.bvh4_layout().ok().unwrap();
    assert_eq!(wide.nodes()[0].child_count, 3);
    assert_eq!(
        h.compact(BVHLayoutType::BasicBVH4),
        Err(tinybvh_rs::BVHCompactError::UnsupportedLayout(BVHLayoutType::BasicBVH4))
    );
    assert_eq!(
        h.convert(BVHLayoutType::Verbose, BVHLayoutType::BasicBVH4, larger),
        Err(BVHConvertError::UnsupportedConversion(BVHLayoutType::Verbose, BVHLayoutType::BasicBVH4))
    );
}

#[test]
fn hierarchy_convert_to_eight_wide() {
    let mut h = Hierarchy::new(deep_tree());
    assert!(h.bvh8_layout().is_err());
    assert_eq!(h.convert(BVHLayoutType::Wald32Byte, BVHLayoutType::BasicBVH8, larger), Ok(()));
    assert_eq!(h.node_count(BVHLayoutType::BasicBVH8), Ok(5));
    assert_eq!(h.bvh8_layout().ok().unwrap().nodes()[0].child_count, 3);
    assert_eq!(
        h.node_count(BVHLayoutType::BasicBVH4),
        Err(MissingLayout::new(BVHLayoutType::BasicBVH4))
    );
}

#[test]
fn hierarchy_refit_drops_wide_layouts() {
    let mut h = Hierarchy::new(deep_tree());
    assert_eq!(h.refit(union), Err(MissingLayout::new(BVHLayoutType::Verbose)));
    assert_eq!(h.convert(BVHLayoutType::Wald32Byte, BVHLayoutType::BasicBVH4, larger), Ok(()));
    assert_eq!(h.convert(BVHLayoutType::Wald32Byte, BVHLayoutType::Verbose, larger), Ok(()));
    assert_eq!(h.refit(union), Ok(()));
    assert!(h.bvh4_layout().is_err());
    assert!(h.bvh8_layout().is_err());
    let v = h.verbose_layout().ok().unwrap();
    assert_eq!(v.nodes()[2].bounds, RIGHT);
    assert_eq!(v.nodes()[0].bounds, ALL);
    // The binary layout now holds the refitted boxes, in compacted form.
    assert_eq!(h.node_count(BVHLayoutType::Wald32Byte), Ok(5));
    let b = h.binary_layout().ok().unwrap();
    assert_eq!(b.nodes()[0], Node { bounds: ALL, left_first: 1, tri_count: 0 });
    assert_eq!(b.nodes()[2], Node { bounds: RIGHT, left_first: 3, tri_count: 0 });
    assert_eq!(b.indices(), &vec![0u32, 1, 2]);
}

#[test]
fn refit_full_recomputes_leaves_then_parents() {
    let mut v = verbose::BVH::build(&deep_tree());
    // Every primitive k sits in x in [k, k + 1].
    let leaf = |first: u32, count: u32| -> Aabb { [first as f32, 0.0, -1.0, (first + count) as f32, 1.0, -1.0] };
    v.refit_full(union, leaf);
    let n = v.nodes();
    assert_eq!(n[1].bounds, [0.0, 0.0, -1.0, 1.0, 1.0, -1.0]);
    assert_eq!(n[3].bounds, [1.0, 0.0, -1.0, 2.0, 1.0, -1.0]);
    assert_eq!(n[2].bounds, [1.0, 0.0, -1.0, 3.0, 1.0, -1.0]);
    assert_eq!(n[0].bounds, [0.0, 0.0, -1.0, 3.0, 1.0, -1.0]);
}
