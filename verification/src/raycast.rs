//! Rays through the grid of unit cells. A ray starts at the centre of a cell
//! and is followed cell by cell: it leaves a cell through the face that it
//! reaches first, which is decided in whole numbers.

use crate::contree::Contree;
use crate::cube::lemma_valid_size;
use crate::cube::svo_abs_spec;
use crate::position::Position;
use vstd::prelude::*;

verus! {

/// Where a ray goes: any whole multiple of the real direction.
#[derive(Clone, Copy, Debug, PartialEq, Eq, Structural)]
pub struct Direction {
    pub x: i32,
    pub y: i32,
    pub z: i32,
}

/// Number of cells that the ray has moved along each axis.
pub struct Steps {
    pub x: nat,
    pub y: nat,
    pub z: nat,
}

/// One of the three axes.
#[derive(Clone, Copy, Debug, PartialEq, Eq, Structural)]
pub enum Axis {
    X,
    Y,
    Z,
}

/// A ray looks at no more cells than this.
pub const MAX_RAY_STEPS: u32 = 50;

/// How far the ray moves along an axis, whichever way.
pub open spec fn magnitude(d: i32) -> nat {
    if d < 0 {
        (-d) as nat
    } else {
        d as nat
    }
}

/// Whether a ray that has made `ca` steps along an axis where it moves by
/// `da` reaches the next face of that axis no later than the next face of
/// an axis where it has made `cb` steps and moves by `db`. The faces lie
/// half a cell from the start and then one cell apart, so the times are
/// `(2 ca + 1) / (2 |da|)` and `(2 cb + 1) / (2 |db|)`; an axis along which
/// the ray does not move has no next face.
pub open spec fn no_later(ca: nat, da: i32, cb: nat, db: i32) -> bool {
    da != 0 && (db == 0 || (2 * ca + 1) * magnitude(db) <= (2 * cb + 1) * magnitude(da))
}

/// The axis of the face through which the ray leaves its cell: the one
/// whose next face comes first; of two that come together, x before y
/// before z. None for a ray that does not move.
pub open spec fn next_axis(dir: Direction, steps: Steps) -> Option<Axis> {
    if no_later(steps.x, dir.x, steps.y, dir.y) {
        if no_later(steps.x, dir.x, steps.z, dir.z) {
            Some(Axis::X)
        } else {
            Some(Axis::Z)
        }
    } else if no_later(steps.y, dir.y, steps.z, dir.z) {
        Some(Axis::Y)
    } else if dir.z != 0 {
        Some(Axis::Z)
    } else {
        None
    }
}

/// The steps after the ray has left one more cell.
pub open spec fn advance(dir: Direction, steps: Steps) -> Steps {
    match next_axis(dir, steps) {
        Some(Axis::X) => Steps { x: steps.x + 1, y: steps.y, z: steps.z },
        Some(Axis::Y) => Steps { x: steps.x, y: steps.y + 1, z: steps.z },
        Some(Axis::Z) => Steps { x: steps.x, y: steps.y, z: steps.z + 1 },
        None => steps,
    }
}

/// The steps along each axis after the ray has left `k` cells.
pub open spec fn ray_steps(dir: Direction, k: nat) -> Steps
    decreases k,
{
    if k == 0 {
        Steps { x: 0, y: 0, z: 0 }
    } else {
        advance(dir, ray_steps(dir, (k - 1) as nat))
    }
}

/// `from` moved by `steps` cells the way of `d`.
pub open spec fn moved(from: int, d: i32, steps: nat) -> int {
    if d < 0 {
        from - steps
    } else if d > 0 {
        from + steps
    } else {
        from
    }
}

/// The coordinates of the cell in which the ray from `origin` is after it
/// has left `k` cells.
pub open spec fn ray_point(origin: Position, dir: Direction, k: nat) -> (int, int, int) {
    let steps = ray_steps(dir, k);
    (
        moved(origin.x as int, dir.x, steps.x),
        moved(origin.y as int, dir.y, steps.y),
        moved(origin.z as int, dir.z, steps.z),
    )
}

/// Whether the cell with the coordinates `point` lies in the cube.
pub open spec fn point_in_cube(center: Position, size: u32, point: (int, int, int)) -> bool {
    &&& svo_abs_spec(point.0 - center.x) < size / 2
    &&& svo_abs_spec(point.1 - center.y) < size / 2
    &&& svo_abs_spec(point.2 - center.z) < size / 2
}

/// The cell with the coordinates `point`.
pub open spec fn cell_at(point: (int, int, int)) -> Position {
    Position { x: point.0 as i32, y: point.1 as i32, z: point.2 as i32 }
}

/// The two faces come in this order whatever stands between them.
proof fn lemma_no_later_chain(ca: nat, da: i32, cb: nat, db: i32, cc: nat, dc: i32)
    requires
        no_later(ca, da, cb, db),
        db != 0 ==> no_later(cb, db, cc, dc),
        db == 0 ==> dc == 0,
    ensures
        no_later(ca, da, cc, dc),
{
    if db != 0 && dc != 0 {
        let a = (2 * ca + 1) as int;
        let b = (2 * cb + 1) as int;
        let c = (2 * cc + 1) as int;
        let x = magnitude(da) as int;
        let y = magnitude(db) as int;
        let z = magnitude(dc) as int;
        assert(a * z <= c * x) by (nonlinear_arith)
            requires
                a * y <= b * x,
                b * z <= c * y,
                a > 0,
                b > 0,
                c > 0,
                x > 0,
                y > 0,
                z > 0,
        ;
    }
}

/// Of two faces that the ray reaches, one comes no later than the other.
proof fn lemma_no_later_total(ca: nat, da: i32, cb: nat, db: i32)
    requires
        da != 0,
        db != 0,
    ensures
        no_later(ca, da, cb, db) || no_later(cb, db, ca, da),
{
}

/// The axis along which the ray leaves a cell is one along which it moves,
/// and no face of another axis comes earlier.
pub proof fn lemma_next_axis(dir: Direction, steps: Steps)
    ensures
        next_axis(dir, steps) is None <==> dir.x == 0 && dir.y == 0 && dir.z == 0,
        next_axis(dir, steps) == Some(Axis::X) ==> no_later(steps.x, dir.x, steps.y, dir.y)
            && no_later(steps.x, dir.x, steps.z, dir.z),
        next_axis(dir, steps) == Some(Axis::Y) ==> no_later(steps.y, dir.y, steps.x, dir.x)
            && no_later(steps.y, dir.y, steps.z, dir.z),
        next_axis(dir, steps) == Some(Axis::Z) ==> no_later(steps.z, dir.z, steps.x, dir.x)
            && no_later(steps.z, dir.z, steps.y, dir.y),
{
    let x_y = no_later(steps.x, dir.x, steps.y, dir.y);
    let x_z = no_later(steps.x, dir.x, steps.z, dir.z);
    let y_z = no_later(steps.y, dir.y, steps.z, dir.z);
    if x_y {
        if !x_z {
            // z comes before x, and x no later than y
            lemma_no_later_total(steps.x, dir.x, steps.z, dir.z);
            if dir.y != 0 {
                lemma_no_later_chain(steps.z, dir.z, steps.x, dir.x, steps.y, dir.y);
            }
        }
    } else if y_z {
        if dir.x != 0 {
            lemma_no_later_total(steps.x, dir.x, steps.y, dir.y);
        }
    } else if dir.z != 0 {
        if dir.y != 0 {
            lemma_no_later_total(steps.y, dir.y, steps.z, dir.z);
            if dir.x != 0 {
                lemma_no_later_total(steps.x, dir.x, steps.y, dir.y);
                lemma_no_later_chain(steps.z, dir.z, steps.y, dir.y, steps.x, dir.x);
            }
        } else if dir.x != 0 {
        }
    }
}

/// Every step takes the ray one cell further along exactly one axis along
/// which it moves: a ray that moves has left `k` cells after `k` steps, and
/// it never steps along an axis along which it does not move.
pub proof fn lemma_ray_progress(dir: Direction, k: nat)
    ensures
        dir.x == 0 ==> ray_steps(dir, k).x == 0,
        dir.y == 0 ==> ray_steps(dir, k).y == 0,
        dir.z == 0 ==> ray_steps(dir, k).z == 0,
        !(dir.x == 0 && dir.y == 0 && dir.z == 0) ==> ray_steps(dir, k).x + ray_steps(dir, k).y
            + ray_steps(dir, k).z == k,
        dir.x == 0 && dir.y == 0 && dir.z == 0 ==> ray_steps(dir, k) == (Steps {
            x: 0,
            y: 0,
            z: 0,
        }),
        ray_steps(dir, k).x <= ray_steps(dir, k + 1).x <= ray_steps(dir, k).x + 1,
        ray_steps(dir, k).y <= ray_steps(dir, k + 1).y <= ray_steps(dir, k).y + 1,
        ray_steps(dir, k).z <= ray_steps(dir, k + 1).z <= ray_steps(dir, k).z + 1,
    decreases k,
{
    lemma_next_axis(dir, ray_steps(dir, k));
    assert(ray_steps(dir, k + 1) == advance(dir, ray_steps(dir, k)));
    if k > 0 {
        lemma_ray_progress(dir, (k - 1) as nat);
        let before = ray_steps(dir, (k - 1) as nat);
        lemma_next_axis(dir, before);
    }
}

/// The steps along each axis never go down.
proof fn lemma_ray_steps_grow(dir: Direction, j: nat, k: nat)
    requires
        j <= k,
    ensures
        ray_steps(dir, j).x <= ray_steps(dir, k).x,
        ray_steps(dir, j).y <= ray_steps(dir, k).y,
        ray_steps(dir, j).z <= ray_steps(dir, k).z,
    decreases k - j,
{
    if j < k {
        lemma_ray_steps_grow(dir, j, (k - 1) as nat);
        lemma_ray_progress(dir, (k - 1) as nat);
    }
}

/// A ray that moves never comes back to a cell that it has left.
pub proof fn lemma_ray_never_returns(origin: Position, dir: Direction, j: nat, k: nat)
    requires
        j < k,
        !(dir.x == 0 && dir.y == 0 && dir.z == 0),
    ensures
        ray_point(origin, dir, j) != ray_point(origin, dir, k),
{
    lemma_ray_progress(dir, j);
    lemma_ray_progress(dir, k);
    lemma_ray_steps_grow(dir, j, k);
}

/// The line of the ray goes through every cell that the ray is said to
/// enter: along any two axes, the ray comes into the cell along one no
/// later than it leaves it along the other.
pub proof fn lemma_ray_on_line(dir: Direction, k: nat)
    ensures
        ({
            let s = ray_steps(dir, k);
            &&& dir.x != 0 && dir.y != 0 ==> (2 * s.x - 1) * magnitude(dir.y) <= (2 * s.y + 1)
                * magnitude(dir.x) && (2 * s.y - 1) * magnitude(dir.x) <= (2 * s.x + 1)
                * magnitude(dir.y)
            &&& dir.x != 0 && dir.z != 0 ==> (2 * s.x - 1) * magnitude(dir.z) <= (2 * s.z + 1)
                * magnitude(dir.x) && (2 * s.z - 1) * magnitude(dir.x) <= (2 * s.x + 1)
                * magnitude(dir.z)
            &&& dir.y != 0 && dir.z != 0 ==> (2 * s.y - 1) * magnitude(dir.z) <= (2 * s.z + 1)
                * magnitude(dir.y) && (2 * s.z - 1) * magnitude(dir.y) <= (2 * s.y + 1)
                * magnitude(dir.z)
        }),
    decreases k,
{
    let mx = magnitude(dir.x) as int;
    let my = magnitude(dir.y) as int;
    let mz = magnitude(dir.z) as int;
    if k == 0 {
        assert((0 - 1) * my <= 1 * mx && (0 - 1) * mx <= 1 * my && (0 - 1) * mz <= 1 * mx && (0
            - 1) * mx <= 1 * mz && (0 - 1) * mz <= 1 * my && (0 - 1) * my <= 1 * mz)
            by (nonlinear_arith)
            requires
                mx >= 0,
                my >= 0,
                mz >= 0,
        ;
    } else {
        let before = ray_steps(dir, (k - 1) as nat);
        lemma_ray_on_line(dir, (k - 1) as nat);
        lemma_next_axis(dir, before);
        let bx = before.x as int;
        let by = before.y as int;
        let bz = before.z as int;
        match next_axis(dir, before) {
            Some(Axis::X) => {
                if dir.y != 0 {
                    lemma_step_on_line(bx, mx, by, my);
                }
                if dir.z != 0 {
                    lemma_step_on_line(bx, mx, bz, mz);
                }
            },
            Some(Axis::Y) => {
                if dir.x != 0 {
                    lemma_step_on_line(by, my, bx, mx);
                }
                if dir.z != 0 {
                    lemma_step_on_line(by, my, bz, mz);
                }
            },
            Some(Axis::Z) => {
                if dir.x != 0 {
                    lemma_step_on_line(bz, mz, bx, mx);
                }
                if dir.y != 0 {
                    lemma_step_on_line(bz, mz, by, my);
                }
            },
            None => {},
        }
    }
}

/// The products that decide the next face fit in 64 bits.
proof fn lemma_product_fits(steps: i64, m: i64)
    by (nonlinear_arith)
    requires
        0 <= steps <= 50,
        0 <= m <= 0x8000_0000,
    ensures
        0 <= (2 * steps + 1) * m <= 101 * 0x8000_0000,
{
}

/// A step along one axis keeps the cell on the line with respect to
/// another axis.
proof fn lemma_step_on_line(a: int, ma: int, b: int, mb: int)
    by (nonlinear_arith)
    requires
        ma >= 0,
        mb >= 0,
        (2 * b - 1) * ma <= (2 * a + 1) * mb,
    ensures
        (2 * (a + 1) - 1) * mb == (2 * a + 1) * mb,
        (2 * b - 1) * ma <= (2 * (a + 1) + 1) * mb,
{
}

impl Contree {
    /// What a ray from `origin` finds from its `k`-th cell on: nothing once
    /// it has looked at `limit` cells or has left the cube, else the first
    /// cell that has a material.
    pub open spec fn ray_scan(
        &self,
        origin: Position,
        dir: Direction,
        k: nat,
        limit: nat,
    ) -> Option<Position>
        decreases limit - k,
    {
        let point = ray_point(origin, dir, k);
        if k >= limit || !point_in_cube(self.center_offset(), self.size(), point) {
            None
        } else if self.material_at(cell_at(point)) is Some {
            Some(cell_at(point))
        } else {
            self.ray_scan(origin, dir, k + 1, limit)
        }
    }

    /// A ray that does not move finds what its first cell holds.
    proof fn lemma_still_ray(&self, origin: Position, dir: Direction, k: nat, limit: nat)
        requires
            dir.x == 0 && dir.y == 0 && dir.z == 0,
            self.material_at(origin) is None,
        ensures
            self.ray_scan(origin, dir, k, limit) is None,
        decreases limit - k,
    {
        lemma_ray_progress(dir, k);
        if k < limit {
            self.lemma_still_ray(origin, dir, k + 1, limit);
        }
    }

    /// Follows the ray from the centre of the cell `pos` the way of `dir`,
    /// cell by cell, and returns the first cell that has a material. Gives
    /// up, with None, where the ray leaves the cube and after
    /// `MAX_RAY_STEPS` cells.
    pub fn raycast(&self, pos: Position, dir: Direction) -> (hit: Option<Position>)
        requires
            self.wf(),
        ensures
            hit == self.ray_scan(pos, dir, 0, MAX_RAY_STEPS as nat),
    {
        let mut p = pos;
        let mut sx: i64 = 0;
        let mut sy: i64 = 0;
        let mut sz: i64 = 0;
        let mut i: u32 = 0;
        let mx: i64 = if dir.x < 0 {
            -(dir.x as i64)
        } else {
            dir.x as i64
        };
        let my: i64 = if dir.y < 0 {
            -(dir.y as i64)
        } else {
            dir.y as i64
        };
        let mz: i64 = if dir.z < 0 {
            -(dir.z as i64)
        } else {
            dir.z as i64
        };
        while self.in_bounds(p) && i < MAX_RAY_STEPS
            invariant
                self.wf(),
                i <= MAX_RAY_STEPS,
                mx == magnitude(dir.x),
                my == magnitude(dir.y),
                mz == magnitude(dir.z),
                0 <= sx <= i,
                0 <= sy <= i,
                0 <= sz <= i,
                ray_steps(dir, i as nat) == (Steps { x: sx as nat, y: sy as nat, z: sz as nat }),
                ray_point(pos, dir, i as nat) == (p.x as int, p.y as int, p.z as int),
                self.ray_scan(pos, dir, 0, MAX_RAY_STEPS as nat) == self.ray_scan(
                    pos,
                    dir,
                    i as nat,
                    MAX_RAY_STEPS as nat,
                ),
            decreases MAX_RAY_STEPS - i,
        {
            if self.get(p).is_some() {
                return Some(p);
            }
            proof {
                lemma_ray_progress(dir, i as nat);
                lemma_valid_size(self.size());
            }
            let ghost steps = Steps { x: sx as nat, y: sy as nat, z: sz as nat };
            proof {
                lemma_product_fits(sx, my);
                lemma_product_fits(sx, mz);
                lemma_product_fits(sy, mx);
                lemma_product_fits(sy, mz);
                lemma_product_fits(sz, mx);
                lemma_product_fits(sz, my);
            }
            let x_y = dir.x != 0 && (dir.y == 0 || (2 * sx + 1) * my <= (2 * sy + 1) * mx);
            let x_z = dir.x != 0 && (dir.z == 0 || (2 * sx + 1) * mz <= (2 * sz + 1) * mx);
            let y_z = dir.y != 0 && (dir.z == 0 || (2 * sy + 1) * mz <= (2 * sz + 1) * my);
            assert(x_y == no_later(steps.x, dir.x, steps.y, dir.y));
            assert(x_z == no_later(steps.x, dir.x, steps.z, dir.z));
            assert(y_z == no_later(steps.y, dir.y, steps.z, dir.z));
            if x_y && x_z {
                assert(next_axis(dir, steps) == Some(Axis::X));
                p = Position { x: if dir.x < 0 {
                    p.x - 1
                } else {
                    p.x + 1
                }, y: p.y, z: p.z };
                sx += 1;
            } else if !x_y && y_z {
                assert(next_axis(dir, steps) == Some(Axis::Y));
                p = Position { x: p.x, y: if dir.y < 0 {
                    p.y - 1
                } else {
                    p.y + 1
                }, z: p.z };
                sy += 1;
            } else if dir.z != 0 {
                assert(next_axis(dir, steps) == Some(Axis::Z));
                p = Position { x: p.x, y: p.y, z: if dir.z < 0 {
                    p.z - 1
                } else {
                    p.z + 1
                } };
                sz += 1;
            } else {
                proof {
                    lemma_next_axis(dir, steps);
                    lemma_ray_progress(dir, 0);
                    self.lemma_still_ray(pos, dir, i as nat, MAX_RAY_STEPS as nat);
                }
                return None;
            }
            i += 1;
        }
        None
    }
}

} // verus!
