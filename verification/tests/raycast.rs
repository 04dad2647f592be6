use contree::contree::Contree;
use contree::gpu_binding::GPUBinding;
use contree::position::Position;
use contree::raycast::Direction;
use contree::raycast::MAX_RAY_STEPS;

fn origin() -> Position {
    Position::new(0, 0, 0)
}

fn along(x: i32, y: i32, z: i32) -> Direction {
    Direction { x, y, z }
}

fn tree_with(size: u32, cells: &[(i32, i32, i32)]) -> Contree {
    let mut tree = Contree::new(origin(), size, GPUBinding::Dummy).unwrap();
    for (i, (x, y, z)) in cells.iter().enumerate() {
        let p = Position::new(*x, *y, *z);
        assert!(tree.in_bounds(p));
        tree.insert(p, i as u8 + 1);
    }
    tree
}

#[test]
fn ray_finds_nothing_in_an_empty_index() {
    let tree = Contree::default();
    assert_eq!(tree.raycast(origin(), along(1, 0, 0)), None);
    assert_eq!(tree.raycast(origin(), along(-3, 2, 7)), None);
    assert_eq!(tree.raycast(origin(), along(0, 0, 0)), None);
}

#[test]
fn ray_hits_the_cell_it_starts_in() {
    let tree = tree_with(16, &[(2, 3, 4)]);
    let start = Position::new(2, 3, 4);
    assert_eq!(tree.raycast(start, along(1, 0, 0)), Some(start));
    assert_eq!(tree.raycast(start, along(0, 0, 0)), Some(start));
}

#[test]
fn ray_that_does_not_move_looks_at_one_cell() {
    let tree = tree_with(16, &[(1, 0, 0)]);
    assert_eq!(tree.raycast(origin(), along(0, 0, 0)), None);
}

#[test]
fn ray_along_an_axis_hits_the_first_cell_on_it() {
    let tree = tree_with(16, &[(5, 0, 0), (3, 0, 0), (-6, 0, 0), (0, 4, 0), (0, 0, -8)]);
    assert_eq!(tree.raycast(origin(), along(1, 0, 0)), Some(Position::new(3, 0, 0)));
    assert_eq!(tree.raycast(origin(), along(1000, 0, 0)), Some(Position::new(3, 0, 0)));
    assert_eq!(tree.raycast(origin(), along(-1, 0, 0)), Some(Position::new(-6, 0, 0)));
    assert_eq!(tree.raycast(origin(), along(0, 1, 0)), Some(Position::new(0, 4, 0)));
    assert_eq!(tree.raycast(origin(), along(0, 0, -1)), Some(Position::new(0, 0, -8)));
    assert_eq!(tree.raycast(origin(), along(0, -1, 0)), None);
    assert_eq!(tree.raycast(origin(), along(0, 0, 1)), None);
    // From behind the first cell the ray meets the second.
    assert_eq!(tree.raycast(Position::new(4, 0, 0), along(1, 0, 0)), Some(Position::new(5, 0, 0)));
}

#[test]
fn ray_passes_beside_cells_off_its_line() {
    let tree = tree_with(16, &[(3, 1, 0), (3, 0, 1), (3, -1, 0)]);
    assert_eq!(tree.raycast(origin(), along(1, 0, 0)), None);
}

#[test]
fn diagonal_ray_goes_x_before_y_before_z() {
    // Along (1, 1, 0) the ray goes (1,0,0), (1,1,0), (2,1,0), (2,2,0), ...
    let tree = tree_with(16, &[(2, 1, 0)]);
    assert_eq!(tree.raycast(origin(), along(1, 1, 0)), Some(Position::new(2, 1, 0)));
    let tree = tree_with(16, &[(1, 2, 0)]);
    assert_eq!(tree.raycast(origin(), along(1, 1, 0)), None);
    // Along (1, 1, 1): (1,0,0), (1,1,0), (1,1,1), (2,1,1), ...
    let tree = tree_with(16, &[(1, 1, 0)]);
    assert_eq!(tree.raycast(origin(), along(1, 1, 1)), Some(Position::new(1, 1, 0)));
    let tree = tree_with(16, &[(0, 1, 1), (2, 1, 1)]);
    assert_eq!(tree.raycast(origin(), along(1, 1, 1)), Some(Position::new(2, 1, 1)));
    let tree = tree_with(16, &[(-1, -1, 0)]);
    assert_eq!(tree.raycast(origin(), along(-5, -5, 0)), Some(Position::new(-1, -1, 0)));
}

#[test]
fn steep_ray_takes_the_nearer_face_first() {
    // Along (3, 1, 0) the ray leaves through x faces at 1/6, 3/6, 5/6, 7/6
    // and through the first y face at 3/6: it goes (1,0), (2,0), (2,1),
    // (3,1), (4,1), ...
    let tree = tree_with(16, &[(2, 1, 0)]);
    assert_eq!(tree.raycast(origin(), along(3, 1, 0)), Some(Position::new(2, 1, 0)));
    let tree = tree_with(16, &[(1, 1, 0), (3, 0, 0)]);
    assert_eq!(tree.raycast(origin(), along(3, 1, 0)), None);
    let tree = tree_with(16, &[(4, 1, 0)]);
    assert_eq!(tree.raycast(origin(), along(3, 1, 0)), Some(Position::new(4, 1, 0)));
    // The same line the other way round.
    let tree = tree_with(16, &[(-2, -1, 0)]);
    assert_eq!(tree.raycast(origin(), along(-6, -2, 0)), Some(Position::new(-2, -1, 0)));
}

#[test]
fn ray_stops_where_it_leaves_the_cube() {
    let tree = tree_with(16, &[(7, 0, 0), (-8, 7, 0)]);
    assert_eq!(tree.raycast(origin(), along(1, 0, 0)), Some(Position::new(7, 0, 0)));
    let corner = Position::new(-8, 0, 0);
    assert_eq!(tree.raycast(corner, along(0, 1, 0)), Some(Position::new(-8, 7, 0)));
    // A ray that starts outside never enters.
    assert_eq!(tree.raycast(Position::new(8, 0, 0), along(-1, 0, 0)), None);
    assert_eq!(tree.raycast(Position::new(-9, 7, 0), along(1, 0, 0)), None);
    assert_eq!(tree.raycast(Position::new(i32::MAX, i32::MIN, 0), along(1, -1, 0)), None);
}

#[test]
fn ray_looks_at_no_more_cells_than_the_limit() {
    assert_eq!(MAX_RAY_STEPS, 50);
    let tree = tree_with(256, &[(49, 0, 0)]);
    assert_eq!(tree.raycast(origin(), along(1, 0, 0)), Some(Position::new(49, 0, 0)));
    let tree = tree_with(256, &[(50, 0, 0)]);
    assert_eq!(tree.raycast(origin(), along(1, 0, 0)), None);
    assert_eq!(tree.raycast(Position::new(1, 0, 0), along(1, 0, 0)), Some(Position::new(50, 0, 0)));
}

#[test]
fn ray_with_the_longest_direction() {
    let tree = tree_with(16, &[(-3, 3, 0)]);
    assert_eq!(
        tree.raycast(origin(), along(i32::MIN, i32::MAX, 0)),
        Some(Position::new(-3, 3, 0))
    );
    assert_eq!(tree.raycast(origin(), along(i32::MAX, i32::MIN, 1)), None);
}
