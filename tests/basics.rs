use tinybvh_rs::primitives::{identity_indices, triangle_count};
use tinybvh_rs::{BVHBuildError, BVHCompactError, BVHLayoutType, Capture, MissingLayout, NodeId};

#[test]
fn node_id_root_and_new() {
    assert_eq!(NodeId::root().0, 0);
    assert_eq!(NodeId::new(7).0, 7);
}

#[test]
fn missing_layout_names_layout() {
    let e = MissingLayout::new(BVHLayoutType::CWBVH);
    assert_eq!(e.layout(), BVHLayoutType::CWBVH);
    assert_eq!(e.0, BVHLayoutType::CWBVH);
}

#[test]
fn compact_error_from_missing_layout() {
    let e = BVHCompactError::from(MissingLayout::new(BVHLayoutType::BasicBVH4));
    assert_eq!(e, BVHCompactError::MissingLayout(BVHLayoutType::BasicBVH4));
    assert_eq!(e.layout(), BVHLayoutType::BasicBVH4);
    assert_eq!(
        BVHCompactError::UnsupportedLayout(BVHLayoutType::AltSoa).layout(),
        BVHLayoutType::AltSoa
    );
}

#[test]
fn triangulated_input_counts_triangles() {
    assert_eq!(triangle_count(6), Ok(2));
    assert_eq!(triangle_count(3), Ok(1));
    assert_eq!(triangle_count(0), Ok(0));
}

#[test]
fn non_triangulated_input_is_rejected() {
    assert_eq!(triangle_count(4), Err(BVHBuildError::NotTriangulated(4)));
    assert_eq!(triangle_count(7), Err(BVHBuildError::NotTriangulated(7)));
}

#[test]
fn too_many_triangles_are_rejected() {
    let positions = 3 * (u32::MAX as usize + 1);
    assert_eq!(triangle_count(positions), Err(BVHBuildError::TooManyPrimitives(positions)));
    assert_eq!(triangle_count(3 * u32::MAX as usize), Ok(u32::MAX));
}

#[test]
fn identity_index_array() {
    assert_eq!(identity_indices(4), vec![0, 1, 2, 3]);
    assert!(identity_indices(0).is_empty());
}

#[test]
fn capture_gives_back_what_it_holds() {
    let c = Capture::new(vec![1u32, 2, 3]);
    assert_eq!(c.release(), vec![1, 2, 3]);
}
