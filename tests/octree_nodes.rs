use bevy_mod_raycast::node::{NodeAddr, NodeKind, NodeMask};
use bevy_mod_raycast::octree::{
    node_intersect_order, OctreeBuildData, OctreeTraversal, TraversalStep,
};
use bevy_mod_raycast::mesh::MeshAccessor;

#[test]
fn depth() {
    let d3 = NodeAddr::new(0b_000_000_000_000_000_000_000_1_000_000_000_0).depth();
    assert_eq!(d3, 3);
    let d10 = NodeAddr::new(0b_1_000_000_000_000_000_000_000_000_000_000_1).depth();
    assert_eq!(d10, 10);
}

#[test]
fn root_has_depth_zero_and_is_a_node() {
    let root = NodeAddr::new_root();
    assert_eq!(root.address(), 0b10);
    assert_eq!(root.depth(), 0);
    assert!(!root.is_leaf());
}

#[test]
fn push_bits_appends_slot_and_leaf_bit() {
    let root = NodeAddr::new_root();
    let child = root.push_bits(0b101, true);
    assert_eq!(child.address(), 0b1_101_1);
    assert!(child.is_leaf());
    assert_eq!(child.depth(), 1);
    let grandchild = child.push_bits(0b011, false);
    assert_eq!(grandchild.address(), 0b1_101_011_0);
    assert_eq!(grandchild.depth(), 2);
    // only the low three bits of the slot count
    assert_eq!(root.push_bits(0b1111_1010, false).address(), 0b1_010_0);
}

#[test]
fn to_leaf_and_to_node_toggle_last_bit() {
    let a = NodeAddr::new(0b1_110_0);
    assert_eq!(a.to_leaf().address(), 0b1_110_1);
    assert!(a.to_leaf().is_leaf());
    assert_eq!(a.to_leaf().to_node().address(), 0b1_110_0);
}

#[test]
fn push_child_fills_slots_from_the_right() {
    let mut mask = NodeMask::default();
    mask.push_child(NodeKind::Leaf);
    mask.push_child(NodeKind::Empty);
    mask.push_child(NodeKind::Node);
    assert_eq!(mask.children(), 0b10_00_01);
    assert_eq!(mask.child_kind(0), Some(NodeKind::Node));
    assert_eq!(mask.child_kind(1), Some(NodeKind::Empty));
    assert_eq!(mask.child_kind(2), Some(NodeKind::Leaf));
    assert_eq!(NodeMask { children: 0b11 }.child_kind(0), None);
}

fn build_with(tris: u32, overlaps_for_slot: impl Fn(usize) -> Vec<bool>) -> (OctreeBuildData, NodeMask) {
    let mesh = MeshAccessor::new(3 * tris as usize, None, None);
    let mut data = OctreeBuildData::from_mesh(&mesh);
    let root = data.pop_stack().unwrap();
    assert_eq!(root.triangles().len(), tris as usize);
    let overlaps: Vec<Vec<bool>> = (0..8).map(|s| overlaps_for_slot(s)).collect();
    let mask = data.build_node(&root, &overlaps);
    (data, mask)
}

#[test]
fn build_node_classifies_children() {
    // 10 triangles: slot 0 gets all of them (subdivided), slot 3 gets two (leaf), others none.
    let (mut data, mask) = build_with(10, |s| match s {
        0 => vec![true; 10],
        3 => (0..10).map(|t| t == 4 || t == 7).collect(),
        _ => vec![false; 10],
    });
    assert_eq!(mask.child_kind(0), Some(NodeKind::Node));
    assert_eq!(mask.child_kind(3), Some(NodeKind::Leaf));
    for s in [1u8, 2, 4, 5, 6, 7] {
        assert_eq!(mask.child_kind(s), Some(NodeKind::Empty));
    }
    let next = data.pop_stack().unwrap();
    assert_eq!(next.address.address(), 0b1_000_0);
    assert_eq!(next.triangles().len(), 10);
    assert!(data.pop_stack().is_none());
    let octree = data.into_octree();
    let leaf = octree.leaf_triangles(NodeAddr::new(0b1_011_1)).unwrap();
    assert_eq!(leaf, &[4, 7]);
    assert_eq!(octree.node_mask(NodeAddr::new_root()).unwrap().children(), mask.children());
}

#[test]
fn expand_child_nodes_follows_order() {
    let (data, _) = build_with(10, |s| match s {
        0 => vec![true; 10],
        3 => vec![true, true, false, false, false, false, false, false, false, false],
        6 => vec![false; 10],
        _ => vec![false; 10],
    });
    let octree = data.into_octree();
    let order = vec![7u8, 6, 5, 4, 3, 2, 1, 0];
    let children = octree.expand_child_nodes(NodeAddr::new_root(), &order).unwrap();
    let addrs: Vec<u32> = children.iter().map(|c| c.address()).collect();
    assert_eq!(addrs, vec![0b1_011_1, 0b1_000_0]);
    assert!(octree.expand_child_nodes(NodeAddr::new(0b1_111_0), &order).is_none());
}

#[test]
fn traversal_visits_nearest_child_first() {
    let mut traversal = OctreeTraversal::new();
    assert_eq!(traversal.next(), Some(NodeAddr::new_root()));
    let children = vec![NodeAddr::new(0b1_001_0), NodeAddr::new(0b1_010_1), NodeAddr::new(0b1_100_0)];
    traversal.push_children(&children, &vec![true, false, true]);
    assert_eq!(traversal.next(), Some(NodeAddr::new(0b1_001_0)));
    assert_eq!(traversal.next(), Some(NodeAddr::new(0b1_100_0)));
    assert_eq!(traversal.next(), None);
}

#[test]
fn node_order_sorts_by_projection_then_slot() {
    let keys = vec![50u32, 10, 30, 10, 70, 20, 30, 0];
    assert_eq!(node_intersect_order(&keys), vec![7u8, 1, 3, 5, 2, 6, 0, 4]);
}

#[test]
fn path_lists_triplets_from_the_root() {
    assert!(NodeAddr::new_root().path().is_empty());
    assert_eq!(NodeAddr::new(0b1_101_011_0).path(), vec![5u8, 3]);
    assert_eq!(NodeAddr::new(0b1_101_011_1).path(), vec![5u8, 3]);
    let deep = NodeAddr::new(0b_1_000_000_000_000_000_000_000_000_000_111_1);
    assert_eq!(deep.path().len(), 10);
    assert_eq!(deep.path()[9], 7);
}

#[test]
fn traversal_advance_tests_leaves_and_expands_nodes() {
    let (data, _) = build_with(10, |s| match s {
        0 => vec![true; 10],
        3 => vec![true, true, false, false, false, false, false, false, false, false],
        _ => vec![false; 10],
    });
    let octree = data.into_octree();
    let order = vec![0u8, 1, 2, 3, 4, 5, 6, 7];
    let mut traversal = OctreeTraversal::new();
    let children = match traversal.advance(&octree, &order) {
        TraversalStep::Children { children } => children,
        other => panic!("expected children, got {:?}", other),
    };
    let addrs: Vec<u32> = children.iter().map(|c| c.address()).collect();
    assert_eq!(addrs, vec![0b1_000_0, 0b1_011_1]);
    // the ray passes through the leaf's cell only
    traversal.push_children(&children, &vec![false, true]);
    match traversal.advance(&octree, &order) {
        TraversalStep::Leaf(a) => assert_eq!(a.address(), 0b1_011_1),
        other => panic!("expected a leaf, got {:?}", other),
    }
    assert!(matches!(traversal.advance(&octree, &order), TraversalStep::Done));
    // a node that was never built
    traversal.push_children(&vec![NodeAddr::new(0b1_111_0)], &vec![true]);
    assert!(matches!(traversal.advance(&octree, &order), TraversalStep::Malformed));
}

#[test]
fn node_order_is_stable_for_equal_keys() {
    assert_eq!(node_intersect_order(&vec![3u32; 8]), vec![0u8, 1, 2, 3, 4, 5, 6, 7]);
}
