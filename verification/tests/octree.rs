use nubila::geometry::{Color, Extent, Position};
use nubila::model::Model;
use nubila::node::{Attribute, Node};
use nubila::octree::Octree;
use nubila::serialize::SerializeError;
use nubila::voxel::Voxel;

#[test]
fn test_serialize_empty_octree() {
    let octree = Octree::new(Position::new(0, 0, 0), 1);
    let (serialized, _) = octree.serialize().expect("Serialization failed");
    assert_eq!(serialized, vec![1]); // Expecting just the root node descriptor
}

#[test]
fn test_serialize_single_voxel_octree() {
    let mut octree = Octree::new(Position::new(0, 0, 0), 4);
    octree.insert(&Voxel::new(Position::new(1, 1, 1), Color::new(255, 0, 0)));

    let (serialized, _) = octree.serialize_nodes().expect("Serialization failed");

    assert_eq!(serialized.len(), 3); // One for root, one for child
    assert_eq!(serialized[0], Node::new(1, 0b00000001));
    assert_eq!(serialized[1], Node::new(1, 0b10000000));
    assert_eq!(serialized[2], Node::new_leaf());
}

#[test]
fn test_serialize_balanced_octree() {
    let mut octree = Octree::new(Position::new(0, 0, 0), 8);
    octree.insert(&Voxel::new(Position::new(0, 0, 0), Color::new(255, 0, 0)));
    octree.insert(&Voxel::new(Position::new(1, 1, 1), Color::new(0, 255, 0)));
    octree.insert(&Voxel::new(Position::new(2, 2, 2), Color::new(0, 0, 255)));
    octree.insert(&Voxel::new(Position::new(4, 4, 4), Color::new(255, 255, 0)));

    let (serialized, _) = octree.serialize_nodes().expect("Serialization failed");

    assert_eq!(serialized.len(), 10);
    // Siblings stand side by side, and each block follows the blocks of the siblings
    // before it. The paths name octants.
    assert_eq!(serialized[0], Node::new(1, 0b10000001)); //
    assert_eq!(serialized[1], Node::new(2, 0b10000001)); // 0
    assert_eq!(serialized[2], Node::new(6, 0b00000001)); // 7
    assert_eq!(serialized[3], Node::new(2, 0b10000001)); // 0.0
    assert_eq!(serialized[4], Node::new(3, 0b00000001)); // 0.7
    assert_eq!(serialized[5], Node::new_leaf()); // 0.0.0
    assert_eq!(serialized[6], Node::new_leaf()); // 0.0.7
    assert_eq!(serialized[7], Node::new_leaf()); // 0.7.0
    assert_eq!(serialized[8], Node::new(1, 0b00000001)); // 7.0
    assert_eq!(serialized[9], Node::new_leaf()); // 7.0.0
}

#[test]
fn test_octree_insert() {
    let mut octree = Octree::new(Position::new(0, 0, 0), 1);

    octree.insert(&Voxel::new(Position::new(0, 0, 0), Color::new(0, 0, 0)));

    assert_eq!(octree.voxel().is_some(), true);
    assert_eq!(octree.children().len(), 0);
}

#[test]
fn test_octree_insert_split() {
    let mut octree = Octree::new(Position::new(0, 0, 0), 2);

    octree.insert(&Voxel::new(Position::new(0, 0, 0), Color::new(0, 0, 0)));

    assert_eq!(octree.voxel().is_none(), true);
    assert_eq!(octree.children().len(), 8);
}

#[test]
fn test_octree_contains() {
    let octree = Octree::new(Position::new(0, 0, 0), 8);

    assert_eq!(octree.contains(Position::new(0, 0, 0)), true);
    assert_eq!(octree.contains(Position::new(7, 7, 7)), true);
    assert_eq!(octree.contains(Position::new(8, 8, 8)), false);
}

#[test]
fn test_octree_split() {
    let mut octree = Octree::new(Position::new(0, 0, 0), 2);

    octree.split();

    assert_eq!(octree.children().len(), 8);
    assert_eq!(octree.children()[0].size(), 1);
    assert_eq!(octree.children()[0].pos(), Position::new(0, 0, 0));
    assert_eq!(octree.children()[1].pos(), Position::new(1, 0, 0));
    // Bit 1 of the octant selects z, bit 2 selects y.
    assert_eq!(octree.children()[2].pos(), Position::new(0, 0, 1));
    assert_eq!(octree.children()[3].pos(), Position::new(1, 0, 1));
    assert_eq!(octree.children()[4].pos(), Position::new(0, 1, 0));
    assert_eq!(octree.children()[5].pos(), Position::new(1, 1, 0));
    assert_eq!(octree.children()[6].pos(), Position::new(0, 1, 1));
    assert_eq!(octree.children()[7].pos(), Position::new(1, 1, 1));
}

#[test]
fn new_rounds_the_edge_up_to_a_power_of_two() {
    assert_eq!(Octree::new(Position::new(0, 0, 0), 0).size(), 1);
    assert_eq!(Octree::new(Position::new(0, 0, 0), 1).size(), 1);
    assert_eq!(Octree::new(Position::new(0, 0, 0), 3).size(), 4);
    assert_eq!(Octree::new(Position::new(0, 0, 0), 4).size(), 4);
    assert_eq!(Octree::new(Position::new(0, 0, 0), 5).size(), 8);
    assert_eq!(Octree::new(Position::new(0, 0, 0), 0x8000_0000).size(), 0x8000_0000);
    assert_eq!(Octree::new(Position::new(3, 4, 5), 2).pos(), Position::new(3, 4, 5));
}

#[test]
fn insert_outside_the_root_is_dropped() {
    let mut octree = Octree::new(Position::new(0, 0, 0), 4);
    octree.insert(&Voxel::new(Position::new(4, 0, 0), Color::new(1, 2, 3)));
    octree.insert(&Voxel::new(Position::new(0, 9, 0), Color::new(1, 2, 3)));
    assert_eq!(octree.children().len(), 0);
    assert_eq!(octree.voxel(), None);
    let (words, attributes) = octree.serialize().unwrap();
    assert_eq!(words, vec![1]);
    assert_eq!(attributes, vec![Attribute::new(255, 255, 255)]);
}

#[test]
fn split_twice_keeps_the_children() {
    let mut octree = Octree::new(Position::new(0, 0, 0), 4);
    octree.insert(&Voxel::new(Position::new(3, 0, 0), Color::new(9, 9, 9)));
    let before = octree.serialize_nodes().unwrap();
    octree.split();
    assert_eq!(octree.children().len(), 8);
    assert_eq!(octree.children()[1].children().len(), 8);
    assert_eq!(octree.serialize_nodes().unwrap(), before);
}

#[test]
fn children_follow_the_octant_mapping() {
    let mut octree = Octree::new(Position::new(8, 16, 24), 4);
    octree.split();
    for i in 0..8u32 {
        let child = &octree.children()[i as usize];
        assert_eq!(child.size(), 2);
        assert_eq!(
            child.pos(),
            Position::new(8 + (i & 1) * 2, 16 + ((i >> 2) & 1) * 2, 24 + ((i >> 1) & 1) * 2)
        );
    }
}

#[test]
fn single_voxel_encoding_has_pointers_and_colour() {
    let mut octree = Octree::new(Position::new(0, 0, 0), 4);
    octree.insert(&Voxel::new(Position::new(1, 1, 1), Color::new(255, 0, 0)));
    let (words, attributes) = octree.serialize().unwrap();
    assert_eq!(words, vec![0x0100_0001, 0x8000_0001, 0]);
    assert_eq!(
        attributes,
        vec![
            Attribute::new(255, 255, 255),
            Attribute::new(255, 255, 255),
            Attribute::new(255, 0, 0)
        ]
    );
    assert_eq!(attributes[2].rgb(), 0x00FF_0000);
    let (nodes, _) = octree.serialize_nodes().unwrap();
    assert_eq!(nodes[0].pointer(), 1);
    assert_eq!(nodes[0].child_mask(), 0b0000_0001);
    assert_eq!(nodes[1].pointer(), 1);
    assert_eq!(nodes[1].child_mask(), 0b1000_0000);
    assert!(!nodes[0].is_leaf() && !nodes[1].is_leaf() && nodes[2].is_leaf());
}

#[test]
fn last_write_wins_on_the_same_cell() {
    let mut octree = Octree::new(Position::new(0, 0, 0), 4);
    octree.insert(&Voxel::new(Position::new(2, 3, 1), Color::new(10, 20, 30)));
    octree.insert(&Voxel::new(Position::new(2, 3, 1), Color::new(40, 50, 60)));
    let (words, attributes) = octree.serialize().unwrap();
    assert_eq!(words.len(), 3);
    assert_eq!(attributes[2], Attribute::new(40, 50, 60));
    assert_eq!(decode(&words, &attributes, 4), vec![((2, 3, 1), 0x0028_323C)]);
}

#[test]
fn serializing_twice_gives_the_same_arrays() {
    let mut octree = Octree::new(Position::new(0, 0, 0), 8);
    for (i, p) in [(0, 0, 0), (7, 7, 7), (3, 4, 5), (1, 6, 2)].iter().enumerate() {
        octree.insert(&Voxel::new(Position::new(p.0, p.1, p.2), Color::new(i as u8, 7, 9)));
    }
    let first = octree.serialize().unwrap();
    let second = octree.serialize().unwrap();
    assert_eq!(first, second);
}

/// Walks the two arrays by the pointer and mask scheme and lists the occupied cells.
fn decode(words: &[u32], attributes: &[Attribute], edge: u32) -> Vec<((u32, u32, u32), u32)> {
    let mut cells = Vec::new();
    walk(words, attributes, 0, (0, 0, 0), edge, &mut cells);
    cells.sort();
    cells
}

fn walk(
    words: &[u32],
    attributes: &[Attribute],
    index: usize,
    origin: (u32, u32, u32),
    edge: u32,
    cells: &mut Vec<((u32, u32, u32), u32)>,
) {
    if edge < 2 {
        return;
    }
    let half = edge / 2;
    let pointer = (words[index] & 0x00FF_FFFF) as usize;
    let mask = words[index] >> 24;
    let mut rank = 0;
    for i in 0..8u32 {
        if (mask >> i) & 1 == 0 {
            continue;
        }
        let slot = index + pointer + rank;
        assert!(slot > index && slot < words.len());
        rank += 1;
        let corner = (
            origin.0 + (i & 1) * half,
            origin.1 + ((i >> 2) & 1) * half,
            origin.2 + ((i >> 1) & 1) * half,
        );
        if half == 1 {
            assert_eq!(words[slot], 0);
            cells.push((corner, attributes[slot].rgb()));
        } else {
            walk(words, attributes, slot, corner, half, cells);
        }
    }
}

#[test]
fn decoding_recovers_the_inserted_cells() {
    let points = [
        ((0, 0, 0), (255, 0, 0)),
        ((1, 1, 1), (0, 255, 0)),
        ((2, 2, 2), (0, 0, 255)),
        ((4, 4, 4), (255, 255, 0)),
        ((7, 0, 3), (1, 2, 3)),
        ((6, 5, 4), (9, 8, 7)),
        ((0, 7, 0), (100, 100, 100)),
    ];
    let mut octree = Octree::new(Position::new(0, 0, 0), 8);
    let mut expected = Vec::new();
    for (p, c) in points.iter() {
        octree.insert(&Voxel::new(Position::new(p.0, p.1, p.2), Color::new(c.0, c.1, c.2)));
        expected.push((*p, (c.0 as u32) << 16 | (c.1 as u32) << 8 | c.2 as u32));
    }
    expected.sort();
    let (words, attributes) = octree.serialize().unwrap();
    assert_eq!(words.len(), attributes.len());
    assert_eq!(decode(&words, &attributes, 8), expected);
}

#[test]
fn terminal_slots_stand_only_below_edge_two() {
    let mut octree = Octree::new(Position::new(0, 0, 0), 8);
    octree.insert(&Voxel::new(Position::new(5, 1, 6), Color::new(1, 1, 1)));
    octree.insert(&Voxel::new(Position::new(5, 0, 6), Color::new(2, 2, 2)));
    let (nodes, _) = octree.serialize_nodes().unwrap();
    // root, one cube of edge 4, one cube of edge 2, two leaves
    assert_eq!(nodes.len(), 5);
    assert_eq!(
        nodes.iter().map(|n| n.is_leaf()).collect::<Vec<bool>>(),
        vec![false, false, false, true, true]
    );
}

#[test]
fn from_model_sizes_the_root_and_inserts_in_order() {
    let voxels = vec![
        Voxel::new(Position::new(0, 0, 0), Color::new(1, 1, 1)),
        Voxel::new(Position::new(2, 1, 0), Color::new(2, 2, 2)),
        Voxel::new(Position::new(2, 1, 0), Color::new(3, 3, 3)),
        Voxel::new(Position::new(9, 9, 9), Color::new(4, 4, 4)),
    ];
    let model = Model::from_voxels(voxels, Extent::new(3, 2, 1));
    assert_eq!(model.size(), Extent::new(3, 2, 1));
    assert_eq!(model.voxels().len(), 4);
    let octree = Octree::from_model(&model);
    assert_eq!(octree.pos(), Position::new(0, 0, 0));
    assert_eq!(octree.size(), 4);
    let (words, attributes) = octree.serialize().unwrap();
    assert_eq!(
        decode(&words, &attributes, 4),
        vec![((0, 0, 0), 0x0001_0101), ((2, 1, 0), 0x0003_0303)]
    );
}

#[test]
fn from_model_with_an_empty_extent_gives_a_unit_root() {
    let model = Model::from_voxels(Vec::new(), Extent::new(0, 0, 0));
    let octree = Octree::from_model(&model);
    assert_eq!(octree.size(), 1);
    let (nodes, attributes) = octree.serialize_nodes().unwrap();
    assert_eq!(nodes, vec![Node::new(1, 0)]);
    assert_eq!(nodes[0].child_mask(), 0);
    assert_eq!(attributes.len(), 1);
}

#[test]
fn far_pointer_error_names_its_offset() {
    let error = SerializeError::FarPointer { offset: 8_388_608 };
    assert_eq!(error, SerializeError::FarPointer { offset: 0x0080_0000 });
    assert_ne!(error, SerializeError::FarPointer { offset: 8_388_607 });
}

#[test]
fn far_pointer_is_refused() {
    // Half of the cube of edge 256 at the origin is filled: 2^23 voxels, whose block
    // takes 9,586,980 slots. On its own it is the only child of the root and fits.
    let mut octree = Octree::new(Position::new(0, 0, 0), 512);
    for x in 0..128 {
        for y in 0..256 {
            for z in 0..256 {
                octree.insert(&Voxel::new(Position::new(x, y, z), Color::new(1, 2, 3)));
            }
        }
    }
    let (words, attributes) = octree.serialize().expect("one child of the root fits");
    assert_eq!(words.len(), 1 + 1 + 9_586_980);
    assert_eq!(attributes.len(), words.len());
    assert_eq!(words[0], 0x0100_0001);
    assert_eq!(words[1], 0x5500_0001);

    // A second child of the root stands behind that block, too far for its pointer.
    octree.insert(&Voxel::new(Position::new(256, 0, 0), Color::new(4, 5, 6)));
    assert_eq!(
        octree.serialize(),
        Err(SerializeError::FarPointer { offset: 9_586_981 })
    );
    assert_eq!(
        octree.serialize_nodes(),
        Err(SerializeError::FarPointer { offset: 9_586_981 })
    );
}

#[test]
fn root_descriptor_stands_alone_at_index_zero() {
    let mut octree = Octree::new(Position::new(0, 0, 0), 16);
    for p in [(0, 0, 0), (15, 15, 15), (8, 0, 7), (3, 12, 5), (9, 9, 9)] {
        octree.insert(&Voxel::new(Position::new(p.0, p.1, p.2), Color::new(5, 6, 7)));
    }
    let (nodes, attributes) = octree.serialize_nodes().unwrap();
    assert_eq!(nodes[0].pointer(), 1);
    assert!(!nodes[0].is_leaf());
    assert_eq!(attributes[0], Attribute::new(255, 255, 255));
    // Every other internal descriptor points at least one slot ahead, and the walk
    // (which checks that each child slot lies behind its parent) reaches five cells.
    for node in nodes.iter().skip(1).filter(|n| !n.is_leaf()) {
        assert!(node.pointer() >= 1);
    }
    let words: Vec<u32> = nodes.iter().map(|n| n.value()).collect();
    assert_eq!(decode(&words, &attributes, 16).len(), 5);
}

#[test]
fn unit_root_encodes_as_the_root_alone() {
    let mut octree = Octree::new(Position::new(0, 0, 0), 1);
    octree.insert(&Voxel::new(Position::new(0, 0, 0), Color::new(9, 9, 9)));
    assert_eq!(octree.voxel(), Some(Voxel::new(Position::new(0, 0, 0), Color::new(9, 9, 9))));
    let (words, attributes) = octree.serialize().unwrap();
    assert_eq!(words, vec![1]);
    assert_eq!(attributes, vec![Attribute::new(255, 255, 255)]);
}

#[test]
fn divided_cube_without_voxels_keeps_its_slot() {
    let mut octree = Octree::new(Position::new(0, 0, 0), 4);
    octree.split();
    assert_eq!(octree.serialize().unwrap().0, vec![1]);
    let mut octree = Octree::new(Position::new(0, 0, 0), 8);
    octree.insert(&Voxel::new(Position::new(0, 0, 0), Color::new(1, 1, 1)));
    // Octant 0 of the root's octant 0 holds the voxel; its sibling cubes are empty.
    let (nodes, _) = octree.serialize_nodes().unwrap();
    assert_eq!(nodes.len(), 4);
    assert_eq!(nodes[1], Node::new(1, 1));
    assert_eq!(nodes[2], Node::new(1, 1));
    assert_eq!(nodes[3], Node::new_leaf());
}
