use nubila::geometry::{pack_rgb, Color, Extent, Position};
use nubila::node::{Attribute, Node, MASK_BITS, MAX_POINTER, POINTER_BITS};
use nubila::time::Time;
use nubila::voxel::Voxel;

#[test]
fn node_packs_pointer_and_mask() {
    let node = Node::new(0x0012_3456, 0xA5);
    assert_eq!(node.value(), 0xA512_3456);
    assert_eq!(node.pointer(), 0x0012_3456);
    assert_eq!(node.child_mask(), 0xA5);
    assert!(!node.is_leaf());
}

#[test]
fn node_pointer_is_cut_to_24_bits() {
    let node = Node::new(0xFFFF_FFFF, 0);
    assert_eq!(node.pointer(), 0x00FF_FFFF);
    assert_eq!(node.child_mask(), 0);
}

#[test]
fn set_pointer_keeps_the_mask() {
    let mut node = Node::new(7, 0b1001_0000);
    node.set_pointer(0x0100_0002);
    assert_eq!(node.pointer(), 2);
    assert_eq!(node.child_mask(), 0b1001_0000);
}

#[test]
fn set_child_mask_keeps_the_pointer() {
    let mut node = Node::new(0x00AB_CDEF, 1);
    node.set_child_mask(0xFF);
    assert_eq!(node.pointer(), 0x00AB_CDEF);
    assert_eq!(node.child_mask(), 0xFF);
    assert_eq!(node.value(), 0xFFAB_CDEF);
}

#[test]
fn leaf_node_is_zero_and_marked() {
    let leaf = Node::new_leaf();
    assert_eq!(leaf.value(), 0);
    assert!(leaf.is_leaf());
    assert_ne!(leaf, Node::new(0, 0));
    assert_eq!(Node::default(), Node::new(0, 0));
}

#[test]
fn layout_constants() {
    assert_eq!(POINTER_BITS, 0x00FF_FFFF);
    assert_eq!(MASK_BITS, 0xFF00_0000);
    assert_eq!(MAX_POINTER, (1 << 23) - 1);
}

#[test]
fn attribute_packs_rgb() {
    assert_eq!(Attribute::new(0x12, 0x34, 0x56).rgb(), 0x0012_3456);
    assert_eq!(Attribute::new(255, 255, 255).rgb(), 0x00FF_FFFF);
    assert_eq!(Attribute::new(0, 0, 1).rgb(), 1);
    assert_eq!(pack_rgb(1, 0, 0), 0x0001_0000);
    assert_eq!(pack_rgb(0, 1, 0), 0x0000_0100);
}

#[test]
fn voxel_accessors() {
    let mut voxel = Voxel::new(Position::new(1, 2, 3), Color::new(10, 20, 30));
    assert_eq!(voxel.position(), Position::new(1, 2, 3));
    assert_eq!(voxel.color(), Color::new(10, 20, 30));
    assert_eq!(voxel.material(), 0x000A_141E);
    voxel.set_position(Position::new(4, 5, 6));
    assert_eq!(voxel.position(), Position::new(4, 5, 6));
    assert_eq!(voxel.color(), Color::new(10, 20, 30));
}

#[test]
fn extent_longest_side() {
    assert_eq!(Extent::new(1, 2, 3).max_side(), 3);
    assert_eq!(Extent::new(5, 2, 3).max_side(), 5);
    assert_eq!(Extent::new(1, 7, 3).max_side(), 7);
    assert_eq!(Extent::new(0, 0, 0).max_side(), 0);
}

#[test]
fn time_counts_frames() {
    let mut time = Time::new();
    assert_eq!(time.frame_count(), 0);
    assert_eq!(time.delta_time(), std::time::Duration::from_secs(0));
    time.update();
    time.update();
    assert_eq!(time.frame_count(), 2);
    assert!(time.elapsed_time() >= time.delta_time());
}

#[test]
fn time_records_a_given_frame() {
    let mut time = Time::new();
    let at = std::time::Instant::now();
    time.record_frame(at, std::time::Duration::from_millis(16));
    assert_eq!(time.frame_count(), 1);
    assert_eq!(time.delta_time(), std::time::Duration::from_millis(16));
}
