use contree::arena::Arena;
use contree::node::ContreeInner;
use contree::node::ContreeLeaf;

#[test]
fn new_arena_is_empty() {
    let arena = Arena::new();
    assert_eq!(arena.inner_count(), 0);
    assert_eq!(arena.leaf_count(), 0);
    assert_eq!(arena.free_inner_count(), 0);
    assert_eq!(arena.free_leaf_count(), 0);
    assert!(arena.inner(0).is_none());
    assert!(arena.leaf(0).is_none());
}

#[test]
fn allocation_appends_zeroed_records() {
    let mut arena = Arena::new();
    assert_eq!(arena.allocate_inner(), 0);
    assert_eq!(arena.allocate_inner(), 1);
    assert_eq!(arena.allocate_leaf(), 0);
    assert_eq!(arena.allocate_inner(), 2);
    assert_eq!(arena.allocate_leaf(), 1);
    assert_eq!(arena.inner_count(), 3);
    assert_eq!(arena.leaf_count(), 2);
    for addr in 0..3 {
        let node = arena.inner(addr).unwrap();
        assert_eq!((node.contains, node.leaf, node.light), (0, 0, 0));
        assert_eq!(node.children, [0u32; 64]);
    }
    for addr in 0..2 {
        let node = arena.leaf(addr).unwrap();
        assert_eq!((node.contains, node.light), (0, 0));
        assert_eq!(node.children, [0u8; 64]);
    }
}

#[test]
fn freed_inner_address_comes_back_zeroed() {
    let mut arena = Arena::new();
    for _ in 0..4 {
        arena.allocate_inner();
    }
    let mut dirty = ContreeInner::new();
    dirty.contains = u64::MAX;
    dirty.leaf = 0xff00;
    dirty.light = 7;
    dirty.children = [0xdead_beef; 64];
    arena.set_inner(2, dirty);
    assert_eq!(arena.inner(2).unwrap().contains, u64::MAX);

    assert!(!arena.is_free_inner(2));
    arena.free_inner(2);
    assert!(arena.is_free_inner(2));
    assert_eq!(arena.free_inner_count(), 1);
    // Freeing moves no record and clears none.
    assert_eq!(arena.inner_count(), 4);
    assert_eq!(arena.inner(2).unwrap().light, 7);

    assert_eq!(arena.allocate_inner(), 2);
    assert_eq!(arena.inner_count(), 4);
    assert_eq!(arena.free_inner_count(), 0);
    let node = arena.inner(2).unwrap();
    assert_eq!((node.contains, node.leaf, node.light), (0, 0, 0));
    assert_eq!(node.children, [0u32; 64]);
    // Only now a new address is appended.
    assert_eq!(arena.allocate_inner(), 4);
    assert_eq!(arena.inner_count(), 5);
}

#[test]
fn freed_leaf_address_comes_back_zeroed() {
    let mut arena = Arena::new();
    for _ in 0..3 {
        arena.allocate_leaf();
    }
    let mut dirty = ContreeLeaf::new();
    dirty.contains = 0b1011;
    dirty.light = 1;
    dirty.children = [9; 64];
    arena.set_leaf(0, dirty);

    arena.free_leaf(0);
    assert!(arena.is_free_leaf(0));
    assert!(!arena.is_free_leaf(1));
    assert_eq!(arena.allocate_leaf(), 0);
    assert_eq!(arena.leaf_count(), 3);
    let node = arena.leaf(0).unwrap();
    assert_eq!((node.contains, node.light), (0, 0));
    assert_eq!(node.children, [0u8; 64]);
    assert_eq!(arena.allocate_leaf(), 3);
}

#[test]
fn freed_addresses_come_back_last_freed_first() {
    let mut arena = Arena::new();
    for _ in 0..5 {
        arena.allocate_inner();
    }
    arena.free_inner(1);
    arena.free_inner(4);
    arena.free_inner(0);
    assert_eq!(arena.free_inner_count(), 3);
    assert_eq!(arena.allocate_inner(), 0);
    assert_eq!(arena.allocate_inner(), 4);
    assert_eq!(arena.allocate_inner(), 1);
    assert_eq!(arena.allocate_inner(), 5);
}

#[test]
fn the_two_kinds_do_not_share_addresses() {
    let mut arena = Arena::new();
    arena.allocate_inner();
    arena.allocate_leaf();
    arena.free_inner(0);
    // The freed inner address is no leaf address.
    assert_eq!(arena.allocate_leaf(), 1);
    assert_eq!(arena.allocate_inner(), 0);
}

#[test]
fn records_never_move() {
    let mut arena = Arena::new();
    for i in 0..6u32 {
        let addr = arena.allocate_inner();
        let mut node = ContreeInner::new();
        node.light = i as u64 + 100;
        arena.set_inner(addr, node);
    }
    arena.free_inner(3);
    arena.allocate_inner();
    arena.allocate_inner();
    for i in [0u32, 1, 2, 4, 5] {
        assert_eq!(arena.get_inner(i).light, i as u64 + 100);
    }
}
