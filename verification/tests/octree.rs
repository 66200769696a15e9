use rand::{thread_rng, Rng};
use voxel_octree::pos::PosU8;
use voxel_octree::{Octree, OctreeError};

#[test]
fn octree_leaf_node_count() {
    // create a 16x16x16 octree:
    let mut octree = Octree::<&'static str, 16>::new();
    octree.insert(PosU8 { x: 0, y: 0, z: 0 }, "Hello").unwrap();
    octree.insert(PosU8 { x: 0, y: 1, z: 0 }, "Hello").unwrap();
    octree.insert(PosU8 { x: 0, y: 0, z: 1 }, "Hello").unwrap();

    assert_eq!(octree.leaf_count(), 3);
    octree.insert(PosU8 { x: 0, y: 1, z: 0 }, "Moin").unwrap();
    octree.insert(PosU8 { x: 0, y: 0, z: 1 }, "Hello").unwrap();

    assert_eq!(octree.leaf_count(), 3);
    octree.insert(PosU8 { x: 0, y: 1, z: 0 }, "Hello").unwrap();

    octree.insert(PosU8 { x: 0, y: 1, z: 1 }, "Hello").unwrap();
    octree.insert(PosU8 { x: 1, y: 0, z: 0 }, "Hello").unwrap();
    octree.insert(PosU8 { x: 1, y: 1, z: 0 }, "Hello").unwrap();
    octree.insert(PosU8 { x: 1, y: 0, z: 1 }, "Hello").unwrap();
    assert_eq!(octree.leaf_count(), 7);
    octree.insert(PosU8 { x: 1, y: 1, z: 1 }, "Hello").unwrap();
    // octree should now have just a leaf, because an all node was created:
    assert_eq!(octree.leaf_count(), 1);

    octree.insert(PosU8 { x: 1, y: 1, z: 1 }, "lol").unwrap();
    // should have 8 leafs again:
    assert_eq!(octree.leaf_count(), 8);
}

#[test]
fn octree_leaf_node_count_2() {
    // create a 16x16x16 octree:
    let mut octree = Octree::<&'static str, 16>::new();

    // fill one 8x8 cube:
    for x in 8..16 {
        for y in 0..8 {
            for z in 8..16 {
                octree.insert(PosU8 { x, y, z }, "Hello").unwrap();
            }
        }
    }
    assert_eq!(octree.leaf_count(), 1);
    // set one field of the cube differently:
    octree.insert(PosU8 { x: 13, y: 5, z: 9 }, "Ok").unwrap();

    assert_eq!(octree.leaf_count(), 7 + 7 + 7 + 1); // just 22 nodes to store an 8x8x8 chunk which has 512 values in it

    assert_eq!(octree.get(PosU8 { x: 13, y: 5, z: 9 }), Some("Ok"));
    assert_eq!(octree.get(PosU8 { x: 0, y: 1, z: 2 }), None);
    assert_eq!(octree.get(PosU8 { x: 8, y: 5, z: 9 }), Some("Hello"));
}

#[test]
fn insert_and_get() {
    // create a 16x16x16 octree:
    let mut octree = Octree::<u32, 16>::new();

    for _ in 0..100 {
        let mut rng = thread_rng();
        let x: u8 = rng.gen_range(0..32);
        let y: u8 = rng.gen_range(0..32);
        let z: u8 = rng.gen_range(0..32);
        let r: u32 = rng.gen();
        let pos = PosU8 { x, y, z };
        octree.insert(pos, r).unwrap();
        assert_eq!(octree.get(pos), Some(r))
    }
}

#[test]
fn get_on_fresh_tree_is_none() {
    let mut octree = Octree::<u32, 16>::new();
    assert_eq!(octree.leaf_count(), 0);
    assert_eq!(octree.get(PosU8::new(0, 0, 0)), None);
    assert_eq!(octree.get(PosU8::new(31, 31, 31)), None);
}

#[test]
fn insert_then_get_returns_value() {
    let mut octree = Octree::<u32, 16>::new();
    octree.insert(PosU8::new(3, 17, 29), 7).unwrap();
    assert_eq!(octree.get(PosU8::new(3, 17, 29)), Some(7));
    octree.insert(PosU8::new(3, 17, 29), 9).unwrap();
    assert_eq!(octree.get(PosU8::new(3, 17, 29)), Some(9));
}

#[test]
fn insert_does_not_disturb_other_positions() {
    let mut octree = Octree::<u32, 16>::new();
    octree.insert(PosU8::new(1, 2, 3), 10).unwrap();
    octree.insert(PosU8::new(30, 29, 28), 20).unwrap();
    octree.insert(PosU8::new(1, 2, 3), 11).unwrap();
    assert_eq!(octree.get(PosU8::new(30, 29, 28)), Some(20));
    assert_eq!(octree.get(PosU8::new(1, 2, 4)), None);
}

#[test]
fn reinserting_same_value_changes_nothing() {
    let mut octree = Octree::<&'static str, 16>::new();
    octree.insert(PosU8::new(5, 6, 7), "A").unwrap();
    let count = octree.leaf_count();
    octree.insert(PosU8::new(5, 6, 7), "A").unwrap();
    assert_eq!(octree.leaf_count(), count);
    assert_eq!(octree.get(PosU8::new(5, 6, 7)), Some("A"));
}

#[test]
fn out_of_domain_position_is_rejected() {
    let mut octree = Octree::<u32, 16>::new();
    assert_eq!(
        octree.insert(PosU8::new(32, 0, 0), 1),
        Err(OctreeError::InvalidPosition)
    );
    assert_eq!(
        octree.insert(PosU8::new(0, 255, 0), 1),
        Err(OctreeError::InvalidPosition)
    );
    assert_eq!(octree.leaf_count(), 0);
}

#[test]
fn remove_and_get_mut_are_unsupported() {
    let mut octree = Octree::<u32, 16>::new();
    octree.insert(PosU8::new(1, 1, 1), 5).unwrap();
    assert_eq!(octree.remove(PosU8::new(1, 1, 1)), Err(OctreeError::Unsupported));
    assert_eq!(octree.get_mut(PosU8::new(1, 1, 1)), Err(OctreeError::Unsupported));
    assert_eq!(octree.get(PosU8::new(1, 1, 1)), Some(5));
}

#[test]
fn dump_of_empty_tree() {
    let octree = Octree::<&'static str, 16>::new();
    let s = octree.to_string();
    assert_eq!(s, "Node 0 (16):\n   0, 1, 2, 3, 4, 5, 6, 7: Empty");
}

#[test]
fn dump_of_small_tree() {
    let mut octree = Octree::<&'static str, 1>::new();
    octree.insert(PosU8::new(0, 0, 0), "A").unwrap();
    let s = octree.to_string();
    assert_eq!(s, "Node 0 (1):\n   0: Leaf: \"A\"\n   1, 2, 3, 4, 5, 6, 7: Empty");
}

#[test]
fn dump_of_collapsed_tree() {
    let mut octree = Octree::<u32, 1>::new();
    for x in 0..2 {
        for y in 0..2 {
            for z in 0..2 {
                octree.insert(PosU8 { x, y, z }, 4).unwrap();
            }
        }
    }
    assert_eq!(octree.leaf_count(), 1);
    let s = octree.to_string();
    assert_eq!(s, "Node 0 (1):\n   All: 4");
}

#[test]
fn out_of_domain_get_is_none() {
    let mut octree = Octree::<u32, 16>::new();
    octree.insert(PosU8::new(31, 0, 0), 9).unwrap();
    assert_eq!(octree.get(PosU8::new(31, 0, 0)), Some(9));
    assert_eq!(octree.get(PosU8::new(32, 0, 0)), None);
    assert_eq!(octree.get(PosU8::new(0, 0, 255)), None);
}

#[test]
fn pos_operators() {
    let a = PosU8::new(1, 2, 3);
    let b = PosU8::new(10, 20, 30);
    assert_eq!(a + b, PosU8::new(11, 22, 33));
    assert_eq!(b - a, PosU8::new(9, 18, 27));
}

#[test]
fn pos_axis_steps() {
    let p = PosU8::new(4, 5, 6);
    assert_eq!(p.plus_x(), PosU8::new(5, 5, 6));
    assert_eq!(p.minus_x(), PosU8::new(3, 5, 6));
    assert_eq!(p.plus_y(), PosU8::new(4, 6, 6));
    assert_eq!(p.minus_y(), PosU8::new(4, 4, 6));
    assert_eq!(p.plus_z(), PosU8::new(4, 5, 7));
    assert_eq!(p.minus_z(), PosU8::new(4, 5, 5));
    assert_eq!(p.plus_xy(), PosU8::new(5, 6, 6));
    assert_eq!(p.minus_xy(), PosU8::new(3, 4, 6));
    assert_eq!(p.plus_xz(), PosU8::new(5, 5, 7));
    assert_eq!(p.minus_xz(), PosU8::new(3, 5, 5));
    assert_eq!(p.plus_yz(), PosU8::new(4, 6, 7));
    assert_eq!(p.plus_xyz(), PosU8::new(5, 6, 7));
    assert_eq!(p.minus_xyz(), PosU8::new(3, 4, 5));
}
