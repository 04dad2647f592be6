use contree::contree::Contree;
use contree::contree::FindResult;
use contree::gpu_binding::GPUBinding;
use contree::morton::morton_code;
use contree::position::LocalPos;
use contree::position::Position;
use contree::raycast::Direction;

fn origin() -> Position {
    Position::new(0, 0, 0)
}

#[test]
fn mod_traverse_empty() {
    let p = Position::new(5, 8, 9);
    let contree = Contree::default();
    let FindResult { leaf_address, traversal_stack, parent_addrs, node_size } = contree.find(p);

    assert!(leaf_address.is_none());
    assert_eq!(traversal_stack, &[5, 36, 3]);
    assert_eq!(parent_addrs.as_slice(), &[0]);
    assert_eq!(node_size, 16);
}

#[test]
fn mod_traverse_tiny() {
    let p = Position::new(0, 0, 0);

    let mut inner_children = [0; 64];
    let mut leaf_children = [0; 64];
    inner_children[56] = 0;
    leaf_children[0] = 10;
    let mut contree = Contree::new(origin(), 16, GPUBinding::Dummy).unwrap();
    contree.insert(p, 10);
    // The tree is a root whose slot 56 holds a leaf whose voxel 0 holds 10.
    assert_eq!(contree.root(), 0);
    assert_eq!(contree.size(), 16);
    assert_eq!(contree.inner_count(), 1);
    assert_eq!(contree.leaf_count(), 1);
    let root = contree.inner(0).unwrap();
    assert_eq!(root.contains, 1 << 56);
    assert_eq!(root.leaf, 1 << 56);
    assert_eq!(root.light, 0);
    assert_eq!(root.children, inner_children);
    let leaf = contree.leaf(0).unwrap();
    assert_eq!(leaf.contains, 1 << 0);
    assert_eq!(leaf.light, 0);
    assert_eq!(leaf.children, leaf_children);

    let FindResult { leaf_address, traversal_stack, parent_addrs, node_size } = contree.find(p);

    assert_eq!(leaf_address, Some(0));
    assert_eq!(traversal_stack.as_slice(), &[0]);
    assert_eq!(parent_addrs.as_slice(), &[0]);
    assert_eq!(node_size, 1);
}

#[test]
fn mod_insert_traverse_tiny() {
    let p = Position::new(0, 0, 0);
    let mut contree = Contree::new(origin(), 64, GPUBinding::Dummy).unwrap();
    let first = contree.insert(p, 10);
    let second = contree.insert(Position::new(4, 4, 4), 5);
    assert_eq!(first, &[0, 1]);
    assert_eq!(second, &[0, 1]);
    assert_eq!(contree.inner_count(), 2);
    assert_eq!(contree.leaf_count(), 2);
    assert_eq!(contree.leaf(0).unwrap().children[0], 10);
    assert_eq!(contree.leaf(0).unwrap().contains & 1, 1);
    assert_eq!(contree.leaf(1).unwrap().children[0], 5);
    assert_eq!(contree.inner(1).unwrap().children[7], 1);
    assert_eq!(contree.inner(0).unwrap().contains, 1 << 56);

    let FindResult { leaf_address, traversal_stack, parent_addrs, node_size } = contree.find(p);

    contree.raycast(Position::new(0, 0, 0), Direction { x: -1, y: -1, z: -1 });

    assert_eq!(leaf_address, Some(0));
    assert_eq!(traversal_stack.as_slice(), &[0]);
    assert_eq!(parent_addrs.as_slice(), &[0, 1]);
    assert_eq!(node_size, 1);
}

#[test]
fn insert_many_no_grow() {
    let p = Position::new(0, 0, 0);
    let mut contree = Contree::new(origin(), 4_u32.pow(3), GPUBinding::Dummy).unwrap();
    contree.insert(p, 10);
    contree.insert(Position::new(0, 0, 1), 1);
    contree.insert(Position::new(0, 1, 0), 2);
    contree.insert(Position::new(1, 0, 0), 3);
    contree.insert(Position::new(-10, 10, 10), 4);
    contree.insert(Position::new(-10, 0, 0), 5);
    let last = contree.insert(Position::new(-10, -10, 0), 6);

    assert_eq!(contree.size(), 64);
    assert_eq!(contree.root(), 0);
    assert_eq!(contree.inner_count(), 4);
    assert_eq!(contree.leaf_count(), 4);
    assert_eq!(last, &[0, 3]);
    assert_eq!(contree.get(p), Some(10));
    assert_eq!(contree.get(Position::new(0, 0, 1)), Some(1));
    assert_eq!(contree.get(Position::new(0, 1, 0)), Some(2));
    assert_eq!(contree.get(Position::new(1, 0, 0)), Some(3));
    assert_eq!(contree.get(Position::new(-10, 10, 10)), Some(4));
    assert_eq!(contree.get(Position::new(-10, 0, 0)), Some(5));
    assert_eq!(contree.get(Position::new(-10, -10, 0)), Some(6));
    assert_eq!(contree.get(Position::new(1, 1, 1)), None);
}

#[test]
fn contree_traverse_tiny() {
    let p = Position::new(0, 0, 0);

    let mut inner_children = [0; 64];
    let mut leaf_children = [0; 64];
    inner_children[56] = 0;
    leaf_children[0] = 10;
    let mut contree = Contree::with_half_extent(origin(), 8, GPUBinding::Dummy).unwrap();
    contree.insert(p, 10);
    let root = contree.inner(0).unwrap();
    assert_eq!(root.contains, 1 << 56);
    assert_eq!(root.leaf, 1 << 56);
    assert_eq!(root.light, 0);
    assert_eq!(root.children, inner_children);
    let leaf = contree.leaf(0).unwrap();
    assert_eq!(leaf.contains, 1 << 0);
    assert_eq!(leaf.light, 0);
    assert_eq!(leaf.children, leaf_children);

    let FindResult { leaf_address, traversal_stack, parent_addrs, .. } = contree.find(p);

    assert_eq!(leaf_address, Some(0));
    assert_eq!(traversal_stack.as_slice(), &[0]);
    assert_eq!(parent_addrs.as_slice(), &[0]);
}

#[test]
fn contree_insert_traverse_tiny() {
    let p = Position::new(0, 0, 0);
    let mut contree = Contree::with_half_extent(origin(), 16, GPUBinding::Dummy).unwrap();
    assert_eq!(contree.inner_count(), 1);
    assert_eq!(contree.leaf_count(), 0);
    let root = contree.inner(0).unwrap();
    assert_eq!((root.contains, root.leaf, root.light), (0, 0, 0));
    assert_eq!(root.children, [0u32; 64]);
    contree.insert(p, 10);

    let FindResult { leaf_address, traversal_stack, parent_addrs, .. } = contree.find(p);

    assert_eq!(leaf_address, Some(0));
    assert_eq!(traversal_stack.as_slice(), &[0]);
    assert_eq!(parent_addrs.as_slice(), &[0, 1]);
}

#[test]
fn contree_traverse_empty() {
    // The digits along which the walk for this cell goes where the cube has
    // no side: its own coordinates make the code.
    let code = morton_code(LocalPos::new(5, 8, 9));
    let traversal_stack = Contree::to_base_64(code);
    assert_eq!(traversal_stack, &[5, 28]);
}

#[test]
fn default_is_an_empty_cube_of_side_16() {
    let contree = Contree::default();
    assert_eq!(contree.size(), 16);
    assert_eq!(contree.half_extent(), 8);
    assert_eq!(contree.center_offset(), origin());
    assert_eq!(contree.root(), 0);
    assert_eq!(contree.inner_count(), 1);
    assert_eq!(contree.leaf_count(), 0);
    let root = contree.inner(0).unwrap();
    assert_eq!(root.contains, 0);
    assert_eq!(root.leaf, 0);
    assert_eq!(root.light, 0);
    assert_eq!(root.children, [0u32; 64]);
    assert!(contree.inner(1).is_none());
    assert!(contree.leaf(0).is_none());
    assert_eq!(contree.get(origin()), None);
}

#[test]
fn new_takes_powers_of_2_only() {
    for exponent in 4..=20 {
        let size = 1u32 << exponent;
        let tree = Contree::new(origin(), size, GPUBinding::Dummy);
        assert_eq!(tree.unwrap().size(), size);
    }
    for size in [0u32, 1, 2, 4, 8, 15, 17, 24, 48, 96, 1000, 2097152, 4194304, u32::MAX] {
        assert!(Contree::new(origin(), size, GPUBinding::Dummy).is_none());
    }
}

#[test]
fn new_takes_a_centre_within_the_limit_only() {
    let limit = 0x4000_0000;
    assert!(Contree::new(Position::new(limit, -limit, 0), 16, GPUBinding::Dummy).is_some());
    assert!(Contree::new(Position::new(limit + 1, 0, 0), 16, GPUBinding::Dummy).is_none());
    assert!(Contree::new(Position::new(0, -limit - 1, 0), 16, GPUBinding::Dummy).is_none());
    assert!(Contree::new(Position::new(0, 0, i32::MIN), 16, GPUBinding::Dummy).is_none());
}

#[test]
fn with_half_extent_doubles_the_side() {
    assert_eq!(Contree::with_half_extent(origin(), 8, GPUBinding::Dummy).unwrap().size(), 16);
    assert_eq!(Contree::with_half_extent(origin(), 16, GPUBinding::Dummy).unwrap().size(), 32);
    assert_eq!(Contree::with_half_extent(origin(), 32, GPUBinding::Dummy).unwrap().size(), 64);
    let largest = Contree::with_half_extent(origin(), 1 << 19, GPUBinding::Dummy).unwrap();
    assert_eq!(largest.size(), 1 << 20);
    assert_eq!(largest.half_extent(), 1 << 19);
    assert!(Contree::with_half_extent(origin(), 1 << 20, GPUBinding::Dummy).is_none());
    assert!(Contree::with_half_extent(origin(), 4, GPUBinding::Dummy).is_none());
    assert!(Contree::with_half_extent(origin(), 12, GPUBinding::Dummy).is_none());
    assert!(Contree::with_half_extent(origin(), 0, GPUBinding::Dummy).is_none());
    assert!(Contree::with_half_extent(origin(), u32::MAX, GPUBinding::Dummy).is_none());
}

#[test]
fn svo_abs_counts_negative_offsets_one_less() {
    assert_eq!(Contree::svo_abs(0), 0);
    assert_eq!(Contree::svo_abs(7), 7);
    assert_eq!(Contree::svo_abs(-1), 0);
    assert_eq!(Contree::svo_abs(-8), 7);
    assert_eq!(Contree::svo_abs(-9), 8);
    assert_eq!(Contree::svo_abs(i64::MIN + 1), i64::MAX - 1);
}

#[test]
fn in_bounds_is_the_half_open_cube_around_the_centre() {
    let contree = Contree::default();
    assert!(contree.in_bounds(Position::new(0, 0, 0)));
    assert!(contree.in_bounds(Position::new(7, 7, 7)));
    assert!(contree.in_bounds(Position::new(-8, -8, -8)));
    assert!(contree.in_bounds(Position::new(-8, 7, 0)));
    assert!(!contree.in_bounds(Position::new(8, 0, 0)));
    assert!(!contree.in_bounds(Position::new(0, 8, 0)));
    assert!(!contree.in_bounds(Position::new(0, 0, 8)));
    assert!(!contree.in_bounds(Position::new(-9, 0, 0)));
    assert!(!contree.in_bounds(Position::new(0, -9, 0)));
    assert!(!contree.in_bounds(Position::new(0, 0, -9)));
    assert!(!contree.in_bounds(Position::new(i32::MAX, i32::MIN, 0)));
}

#[test]
fn in_bounds_looks_at_the_farthest_axis() {
    // Each axis alone decides: the largest distance counts, wherever it stands.
    let contree = Contree::default();
    assert!(!contree.in_bounds(Position::new(1, 9, 2)));
    assert!(!contree.in_bounds(Position::new(1, 2, 9)));
    assert!(!contree.in_bounds(Position::new(9, 1, 2)));
    assert!(contree.in_bounds(Position::new(1, 7, 2)));
}

#[test]
fn in_bounds_follows_the_centre() {
    let contree = Contree::new(Position::new(100, -50, 7), 16, GPUBinding::Dummy).unwrap();
    assert!(contree.in_bounds(Position::new(100, -50, 7)));
    assert!(contree.in_bounds(Position::new(92, -58, -1)));
    assert!(contree.in_bounds(Position::new(107, -43, 14)));
    assert!(!contree.in_bounds(Position::new(108, -50, 7)));
    assert!(!contree.in_bounds(Position::new(0, 0, 0)));
}

#[test]
fn normalize_counts_from_the_low_corner() {
    let contree = Contree::default();
    let n = contree.normalize(Position::new(5, 8, 9));
    assert_eq!((n.x, n.y, n.z), (13, 16, 17));
    let n = contree.normalize(Position::new(-8, 0, 7));
    assert_eq!((n.x, n.y, n.z), (0, 8, 15));
    // Below the low corner every axis is cut to zero.
    let n = contree.normalize(Position::new(-9, -100, i32::MIN));
    assert_eq!((n.x, n.y, n.z), (0, 0, 0));
    let n = contree.normalize(Position::new(i32::MAX, 0, 0));
    assert_eq!((n.x, n.y, n.z), (i32::MAX as u32 + 8, 8, 8));
}

#[test]
fn find_pads_short_codes_to_one_digit_per_level() {
    // The lowest corner of a cube of side 64 has the code 0.
    let contree = Contree::new(origin(), 64, GPUBinding::Dummy).unwrap();
    let found = contree.find(Position::new(-32, -32, -32));
    assert_eq!(found.leaf_address, None);
    assert_eq!(found.traversal_stack, &[0, 0, 0]);
    assert_eq!(found.parent_addrs, &[0]);
    assert_eq!(found.node_size, 64);
    let found = contree.find(Position::new(-32, -32, -31));
    assert_eq!(found.traversal_stack, &[1, 0, 0]);
}

#[test]
fn find_reports_the_side_of_the_node_where_it_ended() {
    let mut contree = Contree::new(origin(), 256, GPUBinding::Dummy).unwrap();
    let p = Position::new(3, -70, 100);
    let found = contree.find(p);
    assert_eq!(found.leaf_address, None);
    assert_eq!(found.traversal_stack.len(), 4);
    assert_eq!(found.parent_addrs, &[0]);
    assert_eq!(found.node_size, 256);
    let chain = contree.insert(p, 9);
    assert_eq!(chain, &[0, 1, 2]);
    let found = contree.find(p);
    assert_eq!(found.leaf_address, Some(0));
    assert_eq!(found.traversal_stack.len(), 1);
    assert_eq!(found.parent_addrs, &[0, 1, 2]);
    assert_eq!(found.node_size, 1);
    // A neighbour in another leaf of the same inner node: the walk ends two
    // levels down.
    let found = contree.find(Position::new(3, -70, 104));
    assert_eq!(found.leaf_address, None);
    assert_eq!(found.traversal_stack.len(), 2);
    assert_eq!(found.parent_addrs, &[0, 1, 2]);
    assert_eq!(found.node_size, 16);
}

#[test]
fn insert_then_find_resolves_to_the_material() {
    let mut contree = Contree::new(origin(), 64, GPUBinding::Dummy).unwrap();
    let cells = [
        (Position::new(0, 0, 0), 1u8),
        (Position::new(-32, -32, -32), 2),
        (Position::new(31, 31, 31), 3),
        (Position::new(-1, 5, -17), 4),
        (Position::new(-30, -29, -31), 5),
        (Position::new(12, -3, 0), 0),
    ];
    for (p, m) in cells {
        assert!(contree.can_insert(p));
        let chain = contree.insert(p, m);
        let found = contree.find(p);
        assert_eq!(found.parent_addrs, chain);
        assert_eq!(found.traversal_stack.len(), 1);
        let leaf = contree.leaf(found.leaf_address.unwrap()).unwrap();
        let voxel = found.traversal_stack[0];
        assert_ne!(leaf.contains & (1 << voxel), 0);
        assert_eq!(leaf.children[voxel], m);
        assert_eq!(contree.get(p), Some(m));
    }
    for (p, m) in cells {
        assert_eq!(contree.get(p), Some(m));
    }
    assert_eq!(contree.size(), 64);
}

#[test]
fn insert_overwrites_the_material_of_a_cell() {
    let mut contree = Contree::default();
    let p = Position::new(2, -3, 4);
    contree.insert(p, 7);
    contree.insert(p, 8);
    assert_eq!(contree.get(p), Some(8));
    assert_eq!(contree.inner_count(), 1);
    assert_eq!(contree.leaf_count(), 1);
}

#[test]
fn insert_twice_is_insert_once() {
    let mut once = Contree::new(origin(), 256, GPUBinding::Dummy).unwrap();
    let mut twice = Contree::new(origin(), 256, GPUBinding::Dummy).unwrap();
    let p = Position::new(-100, 40, 3);
    let first = once.insert(p, 42);
    twice.insert(p, 42);
    let second = twice.insert(p, 42);
    assert_eq!(first, second);
    assert_eq!(once.inner_count(), twice.inner_count());
    assert_eq!(once.leaf_count(), twice.leaf_count());
    assert_eq!(once.root(), twice.root());
    assert_eq!(once.size(), twice.size());
    for addr in 0..once.inner_count() as u32 {
        let a = once.inner(addr).unwrap();
        let b = twice.inner(addr).unwrap();
        assert_eq!((a.contains, a.leaf, a.light), (b.contains, b.leaf, b.light));
        assert_eq!(a.children, b.children);
    }
    for addr in 0..once.leaf_count() as u32 {
        let a = once.leaf(addr).unwrap();
        let b = twice.leaf(addr).unwrap();
        assert_eq!((a.contains, a.light, a.children), (b.contains, b.light, b.children));
    }
    assert_eq!(twice.get(p), Some(42));
}

#[test]
fn leaf_bits_imply_occupied_bits() {
    let mut contree = Contree::new(origin(), 64, GPUBinding::Dummy).unwrap();
    for i in -8..8 {
        contree.insert(Position::new(i * 4, i * 3, -i * 2), (i + 8) as u8);
    }
    for addr in 0..contree.inner_count() as u32 {
        let node = contree.inner(addr).unwrap();
        assert_eq!(node.leaf & !node.contains, 0);
    }
}

#[test]
fn insert_outside_grows_by_factors_of_4() {
    let mut contree = Contree::default();
    let near = Position::new(1, 2, 3);
    contree.insert(near, 11);
    assert_eq!(contree.size(), 16);

    // One step: the cube of side 64 reaches from -24 to 39 on every axis.
    let p = Position::new(39, -24, 0);
    assert!(!contree.in_bounds(p));
    assert!(contree.can_insert(p));
    let chain = contree.insert(p, 12);
    assert_eq!(contree.size(), 64);
    assert_eq!(contree.center_offset(), Position::new(8, 8, 8));
    assert_eq!(chain.len(), 2);
    assert_eq!(chain[0], contree.root());
    assert!(contree.in_bounds(p));
    assert!(!contree.in_bounds(Position::new(40, 0, 0)));
    assert!(!contree.in_bounds(Position::new(0, -25, 0)));
    assert_eq!(contree.get(p), Some(12));
    assert_eq!(contree.get(near), Some(11));

    // The previous root is the child in slot 7 of the new root.
    let root = contree.inner(contree.root()).unwrap();
    assert_eq!(root.contains & (1 << 7), 1 << 7);
    assert_eq!(root.leaf & (1 << 7), 0);
    assert_eq!(root.children[7], 0);

    // Four more steps for a far cell: the cube of side 4096 still ends at
    // -1368, the one of side 16384 reaches down to -5464.
    let far = Position::new(1000, 0, -2000);
    assert!(contree.can_insert(far));
    contree.insert(far, 13);
    assert_eq!(contree.size(), 64 * 4 * 4 * 4 * 4);
    assert_eq!(contree.center_offset(), Position::new(2728, 2728, 2728));
    assert!(contree.in_bounds(far));
    assert_eq!(contree.get(far), Some(13));
    assert_eq!(contree.get(p), Some(12));
    assert_eq!(contree.get(near), Some(11));
    assert_eq!(contree.get(Position::new(1, 2, 4)), None);
}

#[test]
fn growth_keeps_every_address() {
    let mut contree = Contree::default();
    let cells = [Position::new(0, 0, 0), Position::new(-8, 7, 3), Position::new(7, -8, -1)];
    let mut leaves = Vec::new();
    for (i, p) in cells.iter().enumerate() {
        contree.insert(*p, i as u8 + 1);
        leaves.push(contree.find(*p).leaf_address.unwrap());
    }
    let old_root = contree.root();
    contree.insert(Position::new(300, 300, 300), 99);
    assert!(contree.size() > 16);
    for (i, p) in cells.iter().enumerate() {
        let found = contree.find(*p);
        assert_eq!(found.leaf_address, Some(leaves[i]));
        assert!(found.parent_addrs.contains(&old_root));
        assert_eq!(contree.get(*p), Some(i as u8 + 1));
    }
}

#[test]
fn can_insert_says_no_beyond_the_largest_cube() {
    let contree = Contree::default();
    assert!(contree.can_insert(Position::new(0, 0, 0)));
    assert!(contree.can_insert(Position::new(100_000, -100_000, 0)));
    // The largest cube has the side 4^10; it reaches farther up than down.
    assert!(!contree.can_insert(Position::new(i32::MAX, 0, 0)));
    assert!(!contree.can_insert(Position::new(0, i32::MIN, 0)));
    assert!(!contree.can_insert(Position::new(0, 0, 1 << 20)));
    assert!(!contree.can_insert(Position::new(0, 0, -(1 << 19))));
    assert!(contree.can_insert(Position::new(0, 0, 1 << 19)));
}

#[test]
fn insert_at_the_rim_of_the_largest_cube() {
    let mut contree = Contree::default();
    // Growth moves the centre up by half the side each time:
    // 8 + 32 + 128 + ... + 131072 = 174760.
    let low = 174760 - (1 << 19);
    let high = 174760 + (1 << 19) - 1;
    assert!(contree.can_insert(Position::new(low, low, low)));
    assert!(!contree.can_insert(Position::new(low - 1, 0, 0)));
    assert!(contree.can_insert(Position::new(high, high, high)));
    assert!(!contree.can_insert(Position::new(0, high + 1, 0)));
    contree.insert(Position::new(low, high, 0), 5);
    assert_eq!(contree.size(), 1 << 20);
    assert_eq!(contree.center_offset(), Position::new(174760, 174760, 174760));
    assert_eq!(contree.get(Position::new(low, high, 0)), Some(5));
    let found = contree.find(Position::new(low, high, 0));
    assert_eq!(found.parent_addrs.len(), 9);
    assert_eq!(found.traversal_stack.len(), 1);
}

#[test]
fn get_is_none_outside_the_cube() {
    let mut contree = Contree::default();
    contree.insert(Position::new(0, 0, 0), 1);
    assert_eq!(contree.get(Position::new(16, 16, 16)), None);
    assert_eq!(contree.get(Position::new(8, 0, 0)), None);
    assert_eq!(contree.get(Position::new(-9, 0, 0)), None);
}

#[test]
fn a_cube_of_half_a_span_uses_eight_slots_of_its_root() {
    let mut contree = Contree::new(origin(), 32, GPUBinding::Dummy).unwrap();
    for x in [-16, -1, 0, 15] {
        for y in [-16, 0, 15] {
            for z in [-16, -3, 15] {
                contree.insert(Position::new(x, y, z), 1);
            }
        }
    }
    assert_eq!(contree.size(), 32);
    let root = contree.inner(contree.root()).unwrap();
    assert_eq!(root.contains, 0xff);
    assert_eq!(root.leaf, 0);
}

#[test]
fn a_cube_of_half_a_span_grows_downwards() {
    let mut contree = Contree::new(origin(), 32, GPUBinding::Dummy).unwrap();
    let near = Position::new(-16, 15, 0);
    contree.insert(near, 1);
    let old_root = contree.root();
    // The cube of side 128 reaches from -80 to 47 on every axis.
    let p = Position::new(47, -80, 16);
    assert!(!contree.in_bounds(p));
    contree.insert(p, 2);
    assert_eq!(contree.size(), 128);
    assert_eq!(contree.center_offset(), Position::new(-16, -16, -16));
    assert!(!contree.in_bounds(Position::new(48, 0, 0)));
    assert!(!contree.in_bounds(Position::new(0, -81, 0)));
    let root = contree.inner(contree.root()).unwrap();
    assert_eq!(root.children[7], old_root);
    assert_eq!(root.contains & 0x80, 0x80);
    assert_eq!(contree.get(near), Some(1));
    assert_eq!(contree.get(p), Some(2));
    // A cell beside the previous cube, in the cell of the previous root.
    let beside = Position::new(16, 0, 0);
    assert_eq!(contree.get(beside), None);
    contree.insert(beside, 3);
    assert_eq!(contree.get(beside), Some(3));
    assert_eq!(contree.get(near), Some(1));
    assert_eq!(contree.find(beside).parent_addrs[1], old_root);
    // The largest cube of this kind has the side 2^19.
    let far = Position::new(0, 0, -349520);
    assert!(contree.can_insert(far));
    assert!(!contree.can_insert(Position::new(0, 0, -349521)));
    contree.insert(far, 4);
    assert_eq!(contree.size(), 1 << 19);
    assert_eq!(contree.center_offset(), Position::new(-87376, -87376, -87376));
    assert_eq!(contree.get(far), Some(4));
    assert_eq!(contree.get(beside), Some(3));
    assert_eq!(contree.get(near), Some(1));
}

#[test]
fn insert_touches_one_voxel_and_no_light() {
    let mut contree = Contree::new(origin(), 64, GPUBinding::Dummy).unwrap();
    contree.insert(Position::new(0, 0, 0), 10);
    contree.insert(Position::new(1, 0, 0), 11);
    let leaf_before = contree.leaf(0).unwrap();
    let inners_before: Vec<_> = (0..2).map(|a| contree.inner(a).unwrap()).collect();
    contree.insert(Position::new(0, 1, 0), 12);
    // Nothing was made, and no inner record has changed.
    assert_eq!(contree.inner_count(), 2);
    assert_eq!(contree.leaf_count(), 1);
    for (addr, before) in inners_before.iter().enumerate() {
        let after = contree.inner(addr as u32).unwrap();
        assert_eq!((after.contains, after.leaf, after.light), (before.contains, before.leaf, 0));
        assert_eq!(after.children, before.children);
    }
    let leaf_after = contree.leaf(0).unwrap();
    assert_eq!(leaf_after.light, leaf_before.light);
    assert_eq!(leaf_after.contains, leaf_before.contains | (1 << 2));
    for voxel in 0..64 {
        if voxel != 2 {
            assert_eq!(leaf_after.children[voxel], leaf_before.children[voxel]);
        }
    }
    assert_eq!(leaf_after.children[2], 12);
}

#[test]
fn insert_hands_out_addresses_in_the_order_of_the_way() {
    let mut contree = Contree::new(origin(), 256, GPUBinding::Dummy).unwrap();
    // Two inner nodes from the root down, then the leaf.
    let chain = contree.insert(Position::new(100, 100, 100), 1);
    assert_eq!(chain, &[0, 1, 2]);
    assert_eq!(contree.inner_count(), 3);
    assert_eq!(contree.leaf_count(), 1);
    // Growth makes the new root first.
    let chain = contree.insert(Position::new(-200, 0, 0), 2);
    assert_eq!(contree.root(), 3);
    assert_eq!(chain, &[3, 4, 5, 6]);
    assert_eq!(contree.inner_count(), 7);
    assert_eq!(contree.leaf_count(), 2);
    assert_eq!(contree.inner(3).unwrap().children[7], 0);
}

#[test]
fn the_bridge_does_not_change_what_the_host_holds() {
    let (binding, receiver) = GPUBinding::channel(1, 2);
    let (gone, dropped) = GPUBinding::channel(1, 2);
    drop(dropped);
    let mut trees = [
        Contree::new(origin(), 16, GPUBinding::Dummy).unwrap(),
        Contree::new(origin(), 16, binding).unwrap(),
        Contree::new(origin(), 16, gone).unwrap(),
    ];
    let cells = [(0, 0, 0), (3, -4, 5), (40, 2, -9), (0, 0, 1), (-300, 17, 90), (3, -4, 5)];
    for (i, (x, y, z)) in cells.iter().enumerate() {
        let p = Position::new(*x, *y, *z);
        let chains: Vec<Vec<u32>> = trees.iter_mut().map(|t| t.insert(p, i as u8)).collect();
        assert_eq!(chains[0], chains[1]);
        assert_eq!(chains[0], chains[2]);
    }
    let [a, b, c] = trees;
    for other in [&b, &c] {
        assert_eq!(a.root(), other.root());
        assert_eq!(a.size(), other.size());
        assert_eq!(a.center_offset(), other.center_offset());
        assert_eq!(a.inner_count(), other.inner_count());
        assert_eq!(a.leaf_count(), other.leaf_count());
        for addr in 0..a.inner_count() as u32 {
            assert_eq!(a.inner(addr).unwrap().to_bytes(), other.inner(addr).unwrap().to_bytes());
        }
        for addr in 0..a.leaf_count() as u32 {
            assert_eq!(a.leaf(addr).unwrap().to_bytes(), other.leaf(addr).unwrap().to_bytes());
        }
    }
    assert!(receiver.drain().count() > 0);
}

#[test]
fn a_clone_is_an_index_of_its_own() {
    let mut contree = Contree::default();
    contree.insert(Position::new(1, 2, 3), 7);
    let mut copy = contree.clone();
    assert_eq!(copy.get(Position::new(1, 2, 3)), Some(7));
    copy.insert(Position::new(-4, 0, 0), 8);
    copy.insert(Position::new(1, 2, 3), 9);
    assert_eq!(copy.get(Position::new(-4, 0, 0)), Some(8));
    assert_eq!(copy.get(Position::new(1, 2, 3)), Some(9));
    assert_eq!(contree.get(Position::new(-4, 0, 0)), None);
    assert_eq!(contree.get(Position::new(1, 2, 3)), Some(7));
    assert_eq!(contree.leaf_count(), 1);
}
