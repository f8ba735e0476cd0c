use game_core::bvh::{
    AabbBytes, ChildData, ChildType, HasBlas, HasLeaf, HasNode, NodeBuilder, NodeView, HEADER_BYTES,
};
use game_core::bvh_build::{build_intial_nodes, morton_order, pack_level, LeafData};
use game_core::morton::{morton3d, spread_bits};

fn aabb(v: u8) -> AabbBytes {
    [v; 32]
}

#[test]
fn child_type_codes_and_sizes() {
    assert_eq!(ChildType::Empty.code(), 0);
    assert_eq!(ChildType::HasBlas.code(), 3);
    assert_eq!(ChildType::HasLeaf.code(), 5);
    assert_eq!(ChildType::HasNode.code(), 9);
    assert_eq!(ChildType::from_code(9), Some(ChildType::HasNode));
    assert_eq!(ChildType::from_code(5), Some(ChildType::HasLeaf));
    assert_eq!(ChildType::from_code(3), Some(ChildType::HasBlas));
    assert_eq!(ChildType::from_code(0), Some(ChildType::Empty));
    assert_eq!(ChildType::from_code(1), None);
    assert_eq!(ChildType::HasBlas.size(), 16);
    assert_eq!(ChildType::HasLeaf.size(), 48);
    assert_eq!(ChildType::HasNode.size(), 8);
    assert_eq!(ChildType::Empty.size(), 0);
}

#[test]
fn build_then_read_node() {
    let b = NodeBuilder::new()
        .push_node_child(HasNode { ptr: 640 }, aabb(1))
        .push_blas_child(HasBlas { blas_root_node_index: 5, entity: 0x0102_0304_0506_0708 }, aabb(2))
        .push_leaf_child(HasLeaf { triangle: [7; 48] }, aabb(3));
    let mut data: Vec<u8> = vec![0u8; 8];
    let ptr = b.build(&mut data);
    assert_eq!(ptr, 8);
    assert_eq!(data.len(), 8 + HEADER_BYTES + 8 + 16 + 48);
    // mask
    assert_eq!(&data[8..16], &[9, 3, 5, 0, 0, 0, 0, 0]);
    // little endian pointer right after the header
    assert_eq!(&data[8 + HEADER_BYTES..8 + HEADER_BYTES + 8], &640u64.to_le_bytes());

    let view = NodeView::new(&data, 8);
    assert_eq!(view.get_type(0), ChildType::HasNode);
    assert_eq!(view.get_type(1), ChildType::HasBlas);
    assert_eq!(view.get_type(2), ChildType::HasLeaf);
    assert_eq!(view.get_type(3), ChildType::Empty);
    assert!(matches!(view.get_data(0), Some(ChildData::HasNode(HasNode { ptr: 640 }))));
    assert!(matches!(
        view.get_data(1),
        Some(ChildData::HasBlas(HasBlas { blas_root_node_index: 5, entity: 0x0102_0304_0506_0708 }))
    ));
    match view.get_data(2) {
        Some(ChildData::HasLeaf(l)) => assert_eq!(l.triangle, [7u8; 48]),
        _ => panic!("expected a triangle"),
    }
    assert!(view.get_data(3).is_none());
    assert_eq!(view.get_aabb(0), aabb(1));
    assert_eq!(view.get_aabb(1), aabb(2));
    assert_eq!(view.get_aabb(2), aabb(3));
    assert_eq!(view.get_aabb(3), aabb(0));
    // the mask's lowest byte is set, so all eight slots count
    assert_eq!(view.child_count(), 8);
    assert_eq!(view.get_child_mask(), u64::from_le_bytes([9, 3, 5, 0, 0, 0, 0, 0]));
}

#[test]
fn child_iter_walks_until_empty_slot() {
    let b = NodeBuilder::new()
        .push_blas_child(HasBlas { blas_root_node_index: 1, entity: 2 }, aabb(4))
        .push_node_child(HasNode { ptr: 16 }, aabb(5));
    let mut data: Vec<u8> = Vec::new();
    let ptr = b.build(&mut data);
    let view = NodeView::new(&data, ptr);
    let mut it = view.child_iter();
    match it.next() {
        Some((ChildData::HasBlas(h), a)) => {
            assert_eq!(h, HasBlas { blas_root_node_index: 1, entity: 2 });
            assert_eq!(a, aabb(4));
        }
        _ => panic!("expected the blas child"),
    }
    match it.next() {
        Some((ChildData::HasNode(n), a)) => {
            assert_eq!(n, HasNode { ptr: 16 });
            assert_eq!(a, aabb(5));
        }
        _ => panic!("expected the node child"),
    }
    assert!(it.next().is_none());
    assert!(it.next().is_none());
}

#[test]
fn empty_node_has_no_children() {
    let mut data: Vec<u8> = Vec::new();
    let ptr = NodeBuilder::new().build(&mut data);
    assert_eq!(ptr, 0);
    assert_eq!(data.len(), HEADER_BYTES);
    let view = NodeView::new(&data, 0);
    assert_eq!(view.child_count(), 0);
    assert!(view.child_iter().next().is_none());
}

#[test]
fn spread_and_morton_values() {
    assert_eq!(spread_bits(0), 0);
    assert_eq!(spread_bits(1), 1);
    assert_eq!(spread_bits(0b11), 0b1001);
    assert_eq!(spread_bits(0b101), 0b1_000_001);
    assert_eq!(spread_bits(0x1f_ffff), 0x1249_2492_4924_9249);
    assert_eq!(morton3d(1, 0, 0), 0b001);
    assert_eq!(morton3d(0, 1, 0), 0b010);
    assert_eq!(morton3d(0, 0, 1), 0b100);
    assert_eq!(morton3d(3, 5, 6), 0b110_101_011);
    assert_eq!(morton3d(1023, 1023, 1023), (1u64 << 30) - 1);
}

fn leaf(code: u64, entity: u64) -> LeafData {
    LeafData {
        data: ChildData::HasBlas(HasBlas { blas_root_node_index: 0, entity }),
        typ: ChildType::HasBlas,
        mortan_code: code,
        aabb: aabb(entity as u8),
    }
}

fn entity_of(b: &NodeBuilder, j: usize) -> u64 {
    match b.child_data[j] {
        Some(ChildData::HasBlas(h)) => h.entity,
        _ => panic!("expected a blas child"),
    }
}

#[test]
fn morton_order_is_stable() {
    assert_eq!(morton_order(&vec![5, 1, 5, 0, 1]), vec![3, 1, 4, 0, 2]);
    assert_eq!(morton_order(&vec![]), Vec::<usize>::new());
}

#[test]
fn initial_nodes_pack_eight_in_morton_order() {
    let leafs: Vec<LeafData> = (0..10u64).map(|i| leaf(100 - i, i)).collect();
    let nodes = build_intial_nodes(&leafs);
    assert_eq!(nodes.len(), 2);
    assert_eq!(nodes[0].child_offset, 8);
    assert_eq!(nodes[1].child_offset, 2);
    // highest entity has the smallest code
    let first: Vec<u64> = (0..8).map(|j| entity_of(&nodes[0], j)).collect();
    assert_eq!(first, vec![9, 8, 7, 6, 5, 4, 3, 2]);
    assert_eq!(entity_of(&nodes[1], 0), 1);
    assert_eq!(entity_of(&nodes[1], 1), 0);
    assert_eq!(nodes[1].child_mask, [3, 3, 0, 0, 0, 0, 0, 0]);
    assert_eq!(nodes[1].child_aabbs[0], aabb(1));
    assert_eq!(nodes[1].child_aabbs[2], aabb(0));
    assert!(build_intial_nodes(&Vec::new()).is_empty());
}

#[test]
fn pack_level_writes_children_and_points_at_them() {
    let a = NodeBuilder::new().push_blas_child(HasBlas { blas_root_node_index: 1, entity: 1 }, aabb(1));
    let b = NodeBuilder::new().push_leaf_child(HasLeaf { triangle: [2; 48] }, aabb(2));
    let nodes = vec![(a, 7u64, aabb(10)), (b, 3u64, aabb(20))];
    let mut data: Vec<u8> = Vec::new();
    let groups = pack_level(&nodes, &mut data);
    assert_eq!(groups.len(), 1);
    assert_eq!(groups[0].child_offset, 2);
    // b has the smaller code, so it is written first
    let b_len = HEADER_BYTES + 48;
    let a_len = HEADER_BYTES + 16;
    assert_eq!(data.len(), a_len + b_len);
    assert!(matches!(groups[0].child_data[0], Some(ChildData::HasNode(HasNode { ptr: 0 }))));
    match groups[0].child_data[1] {
        Some(ChildData::HasNode(HasNode { ptr })) => assert_eq!(ptr, b_len),
        _ => panic!("expected a node child"),
    }
    assert_eq!(groups[0].child_aabbs[0], aabb(20));
    assert_eq!(groups[0].child_aabbs[1], aabb(10));
    let view = NodeView::new(&data, b_len);
    assert_eq!(view.get_type(0), ChildType::HasBlas);
    let mut root_data = data.clone();
    let root = groups[0].build(&mut root_data);
    assert_eq!(root, a_len + b_len);
}

#[test]
fn collected_children_are_the_pushed_ones() {
    let tri = [7u8; 48];
    let b = NodeBuilder::new()
        .push_leaf_child(HasLeaf { triangle: tri }, aabb(1))
        .push_node_child(HasNode { ptr: 24 }, aabb(2))
        .push_blas_child(HasBlas { blas_root_node_index: 3, entity: 9 }, aabb(3));
    let mut data: Vec<u8> = vec![0; 8];
    let ptr = b.build(&mut data);
    assert_eq!(ptr, 8);
    let v = NodeView::new(&data, ptr).child_iter().collect_children();
    assert_eq!(v.len(), 3);
    match v[0] {
        (ChildData::HasLeaf(l), a) => {
            assert_eq!(l.triangle, tri);
            assert_eq!(a, aabb(1));
        }
        _ => panic!("expected the leaf child"),
    }
    match v[1] {
        (ChildData::HasNode(n), a) => {
            assert_eq!(n, HasNode { ptr: 24 });
            assert_eq!(a, aabb(2));
        }
        _ => panic!("expected the node child"),
    }
    match v[2] {
        (ChildData::HasBlas(h), a) => {
            assert_eq!(h, HasBlas { blas_root_node_index: 3, entity: 9 });
            assert_eq!(a, aabb(3));
        }
        _ => panic!("expected the blas child"),
    }
    let empty = NodeBuilder::new().build(&mut data);
    assert!(NodeView::new(&data, empty).child_iter().collect_children().is_empty());
}
