use std::collections::HashMap;

use contree::contree::Contree;
use contree::gpu_binding::BufferWriteCommand;
use contree::gpu_binding::GPUBinding;
use contree::position::Position;
use contree::raycast::Direction;

/// A small generator of numbers that look random, the same on every run.
struct Numbers(u64);

impl Numbers {
    fn next(&mut self) -> u64 {
        self.0 = self.0.wrapping_mul(6364136223846793005).wrapping_add(1442695040888963407);
        self.0 >> 33
    }

    fn between(&mut self, low: i32, high: i32) -> i32 {
        low + (self.next() % (high - low + 1) as u64) as i32
    }
}

#[test]
fn many_inserts_match_a_map() {
    let mut numbers = Numbers(7);
    let mut tree = Contree::default();
    let mut model: HashMap<(i32, i32, i32), u8> = HashMap::new();
    for round in 0..3000 {
        // Mostly near cells, now and then a far one.
        let reach = if round % 50 == 49 { 3000 } else { 40 };
        let cell = (
            numbers.between(-reach, reach),
            numbers.between(-reach, reach),
            numbers.between(-reach, reach),
        );
        let material = numbers.between(0, 255) as u8;
        let p = Position::new(cell.0, cell.1, cell.2);
        assert!(tree.can_insert(p));
        let size_before = tree.size();
        let inside = tree.in_bounds(p);
        let chain = tree.insert(p, material);
        model.insert(cell, material);
        assert_eq!(chain[0], tree.root());
        assert!(tree.in_bounds(p));
        if inside {
            assert_eq!(tree.size(), size_before);
        } else {
            assert!(tree.size() >= size_before * 4);
        }
        assert_eq!(tree.get(p), Some(material));
    }
    for (cell, material) in &model {
        assert_eq!(tree.get(Position::new(cell.0, cell.1, cell.2)), Some(*material));
    }
    for _ in 0..3000 {
        let cell = (
            numbers.between(-60, 60),
            numbers.between(-60, 60),
            numbers.between(-60, 60),
        );
        assert_eq!(
            tree.get(Position::new(cell.0, cell.1, cell.2)),
            model.get(&cell).copied()
        );
    }
}

#[test]
fn many_inserts_keep_the_mirror_in_step() {
    let mut numbers = Numbers(11);
    let (binding, receiver) = GPUBinding::channel(0, 1);
    let mut tree = Contree::new(Position::new(5, -5, 100), 32, binding).unwrap();
    let mut inner: Vec<u8> = Vec::new();
    let mut leaf: Vec<u8> = Vec::new();
    let mut sent = 0;
    for round in 0..500 {
        let reach = if round % 40 == 39 { 900 } else { 25 };
        let p = Position::new(
            numbers.between(-reach, reach),
            numbers.between(-reach, reach),
            numbers.between(-reach, reach),
        );
        let nodes_before = tree.inner_count() + tree.leaf_count();
        tree.insert(p, round as u8);
        let nodes_made = tree.inner_count() + tree.leaf_count() - nodes_before;
        let commands: Vec<BufferWriteCommand> = receiver.drain().collect();
        // Two commands for every node made, one for the voxel.
        if round > 0 {
            assert_eq!(commands.len(), 2 * nodes_made + 1);
        }
        sent += commands.len();
        for command in commands {
            let buffer = if command.target_buffer == 0 { &mut inner } else { &mut leaf };
            let start = command.offset as usize;
            let end = start + command.new_data.len();
            if buffer.len() < end {
                buffer.resize(end, 0);
            }
            buffer[start..end].copy_from_slice(&command.new_data);
        }
    }
    assert!(sent > 500);
    let mut host_inner = Vec::new();
    for addr in 0..tree.inner_count() as u32 {
        host_inner.extend(tree.inner(addr).unwrap().to_bytes());
    }
    let mut host_leaf = Vec::new();
    for addr in 0..tree.leaf_count() as u32 {
        host_leaf.extend(tree.leaf(addr).unwrap().to_bytes());
    }
    assert_eq!(inner, host_inner);
    assert_eq!(leaf, host_leaf);
}

#[test]
fn rays_match_a_walk_over_the_map() {
    let mut numbers = Numbers(3);
    let mut tree = Contree::new(Position::new(0, 0, 0), 64, GPUBinding::Dummy).unwrap();
    let mut model: HashMap<(i32, i32, i32), u8> = HashMap::new();
    for _ in 0..400 {
        let cell = (numbers.between(-20, 20), numbers.between(-20, 20), numbers.between(-20, 20));
        tree.insert(Position::new(cell.0, cell.1, cell.2), 1);
        model.insert(cell, 1);
    }
    for _ in 0..300 {
        let start = (numbers.between(-25, 25), numbers.between(-25, 25), numbers.between(-25, 25));
        let dir = (numbers.between(-4, 4), numbers.between(-4, 4), numbers.between(-4, 4));
        // The same walk, with the faces compared in fractions of the time.
        let mut cell = start;
        let mut steps = (0i64, 0i64, 0i64);
        let mut expected = None;
        for _ in 0..50 {
            let inside = |v: i32| (-32..32).contains(&v);
            if !(inside(cell.0) && inside(cell.1) && inside(cell.2)) {
                break;
            }
            if model.contains_key(&cell) {
                expected = Some(Position::new(cell.0, cell.1, cell.2));
                break;
            }
            let time = |s: i64, d: i32| {
                if d == 0 {
                    f64::INFINITY
                } else {
                    (2 * s + 1) as f64 / (2 * d.abs()) as f64
                }
            };
            let (tx, ty, tz) = (time(steps.0, dir.0), time(steps.1, dir.1), time(steps.2, dir.2));
            if tx.is_infinite() && ty.is_infinite() && tz.is_infinite() {
                break;
            }
            if tx <= ty && tx <= tz {
                cell.0 += dir.0.signum();
                steps.0 += 1;
            } else if ty <= tz {
                cell.1 += dir.1.signum();
                steps.1 += 1;
            } else {
                cell.2 += dir.2.signum();
                steps.2 += 1;
            }
        }
        let hit = tree.raycast(
            Position::new(start.0, start.1, start.2),
            Direction { x: dir.0, y: dir.1, z: dir.2 },
        );
        assert_eq!(hit, expected);
    }
}
