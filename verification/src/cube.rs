//! The cube of an index: which sides are valid, which cells a cube holds,
//! where a cell lies in it, and how the cube grows.

use crate::morton::child_slot;
use crate::morton::code_of;
use crate::morton::lemma_child_slot;
use crate::morton::lemma_morton_bound;
use crate::morton::lemma_morton_split;
use crate::morton::lemma_padded_digits_bounds;
use crate::morton::lemma_padded_digits_push;
use crate::morton::lemma_pow4_positive;
use crate::morton::morton;
use crate::morton::padded_digits;
use crate::morton::pow4;
use crate::morton::pow64;
use crate::node::ChildIndex;
use crate::position::LocalPos;
use crate::position::Position;
use vstd::prelude::*;

verus! {

/// Side of the cube of a new index: two levels, a root above leaves.
pub const MIN_SIZE: u32 = 16;

/// Largest side: ten levels, as many as a code has whole digits.
pub const MAX_SIZE: u32 = 0x10_0000;

/// The slot of a new root that takes the previous root when the cube
/// grows: the second of the four cells along every axis.
pub const GROW_SLOT: ChildIndex = 7;

/// No axis of the centre of a new index lies farther from zero.
pub const CENTER_LIMIT: i32 = 0x4000_0000;

/// The levels of a cube of side `size`, the voxel level included: the
/// number of base-4 digits that tell its cells apart along an axis.
pub open spec fn levels(size: nat) -> nat
    decreases size,
{
    if size <= 1 {
        0
    } else {
        1 + levels((size + 3) / 4)
    }
}

/// The side that the digits of a cube of side `size` span: the power of 4
/// with as many digits as the cube has levels.
pub open spec fn span(size: nat) -> nat {
    pow4(levels(size))
}

/// A side is a power of 2 between `MIN_SIZE` and `MAX_SIZE`: it fills the
/// span of its digits, or half of it.
pub open spec fn valid_size(size: u32) -> bool {
    MIN_SIZE <= size <= MAX_SIZE && (span(size as nat) == size || span(size as nat) == 2 * size)
}

/// Whether the centre leaves room for every shift that growth can ask for.
pub open spec fn center_ok(center: Position, size: u32) -> bool {
    &&& -(CENTER_LIMIT + size) <= center.x <= CENTER_LIMIT + size
    &&& -(CENTER_LIMIT + size) <= center.y <= CENTER_LIMIT + size
    &&& -(CENTER_LIMIT + size) <= center.z <= CENTER_LIMIT + size
}

/// Distance from the centre along one axis, where a negative offset counts
/// one unit less than its magnitude.
pub open spec fn svo_abs_spec(v: int) -> int {
    if v < 0 {
        -v - 1
    } else {
        v
    }
}

/// Whether `pos` lies in the cube of side `size` around `center`: on every
/// axis its distance from the centre stays below half the side.
pub open spec fn in_cube(center: Position, size: u32, pos: Position) -> bool {
    &&& svo_abs_spec(pos.x - center.x) < size / 2
    &&& svo_abs_spec(pos.y - center.y) < size / 2
    &&& svo_abs_spec(pos.z - center.z) < size / 2
}

/// `v` cut to the range of `u32`.
pub open spec fn clamp_u32(v: int) -> u32 {
    if v < 0 {
        0
    } else if v > u32::MAX {
        u32::MAX
    } else {
        v as u32
    }
}

/// `pos` relative to the low corner of the cube of side `size` around
/// `center`, each axis cut to the range of `u32`.
pub open spec fn normalized(center: Position, size: u32, pos: Position) -> LocalPos {
    LocalPos {
        x: clamp_u32(pos.x - center.x + size / 2),
        y: clamp_u32(pos.y - center.y + size / 2),
        z: clamp_u32(pos.z - center.z + size / 2),
    }
}

/// How far growth moves the centre along every axis: by half the side, up
/// for a cube that fills its span, down for one that fills half of it.
pub open spec fn growth_shift(size: u32) -> int {
    if span(size as nat) == size {
        size as int / 2
    } else {
        -(size as int / 2)
    }
}

/// The centre after the cube of side `size` around `center` has grown once.
/// The previous cube becomes the low corner of the second of the four
/// cells that the new one has along every axis.
pub open spec fn grown_center(center: Position, size: u32) -> Position {
    Position {
        x: (center.x + growth_shift(size)) as i32,
        y: (center.y + growth_shift(size)) as i32,
        z: (center.z + growth_shift(size)) as i32,
    }
}

/// The centre and the side of the cube once it has grown, by a factor of 4
/// at a time, until it holds `pos` or cannot grow further.
pub open spec fn settled(center: Position, size: u32, pos: Position) -> (Position, u32)
    decreases MAX_SIZE - size,
{
    if in_cube(center, size, pos) || size == 0 || size * 4 > MAX_SIZE {
        (center, size)
    } else {
        settled(grown_center(center, size), (size * 4) as u32, pos)
    }
}

/// Whether growth can make the cube hold `pos`.
pub open spec fn reachable(center: Position, size: u32, pos: Position) -> bool {
    in_cube(settled(center, size, pos).0, settled(center, size, pos).1, pos)
}

/// The valid sides have from two to ten levels and fill their span or half
/// of it; four times a valid side, where that is no more than the largest,
/// is valid, has one level more, and fills as much of its span.
pub proof fn lemma_valid_size(size: u32)
    requires
        valid_size(size),
    ensures
        2 <= levels(size as nat) <= 10,
        span(size as nat) == size || span(size as nat) == 2 * size,
        span(size as nat) == 4 * pow4((levels(size as nat) - 1) as nat),
        span(size as nat) <= MAX_SIZE,
        size % 4 == 0,
        size * 4 <= MAX_SIZE ==> valid_size((size * 4) as u32) && levels((size * 4) as nat)
            == levels(size as nat) + 1 && span((size * 4) as nat) == 4 * span(size as nat),
{
    reveal_with_fuel(levels, 12);
    reveal_with_fuel(pow4, 12);
    let k = levels(size as nat);
    assert(2 <= k <= 10);
    assert(k == 2 || k == 3 || k == 4 || k == 5 || k == 6 || k == 7 || k == 8 || k == 9 || k == 10);
    assert(levels((size * 4) as nat) == 1 + levels((((size * 4) as nat) + 3) / 4));
}

/// Powers of 4 grow with the exponent.
pub proof fn lemma_pow4_monotonic(a: nat, b: nat)
    requires
        a <= b,
    ensures
        pow4(a) <= pow4(b),
        pow4(a) >= 1,
    decreases b,
{
    lemma_pow4_positive(a);
    if a < b {
        lemma_pow4_monotonic(a, (b - 1) as nat);
    }
}

/// Growth multiplies the side by 4 a number of times and stops at the
/// first cube that holds `pos`: the settled side is the side times a power
/// of 4, it is valid, and a cube that holds `pos` does not grow.
pub proof fn lemma_settled(center: Position, size: u32, pos: Position) -> (steps: nat)
    requires
        valid_size(size),
        center_ok(center, size),
    ensures
        settled(center, size, pos).1 == size * pow4(steps),
        valid_size(settled(center, size, pos).1),
        center_ok(settled(center, size, pos).0, settled(center, size, pos).1),
        in_cube(center, size, pos) ==> steps == 0 && settled(center, size, pos) == (center, size),
        steps > 0 ==> !in_cube(center, size, pos),
        steps <= 8,
    decreases MAX_SIZE - size,
{
    lemma_valid_size(size);
    if in_cube(center, size, pos) || size == 0 || size * 4 > MAX_SIZE {
        assert(size * pow4(0) == size) by (nonlinear_arith)
            requires
                pow4(0) == 1,
        ;
        0
    } else {
        let wider = (size * 4) as u32;
        lemma_grown_offsets(center, size, pos);
        let inner = lemma_settled(grown_center(center, size), wider, pos);
        reveal_with_fuel(pow4, 2);
        assert(wider * pow4(inner) == size * pow4(inner + 1)) by (nonlinear_arith)
            requires
                wider == size * 4,
                pow4(inner + 1) == 4 * pow4(inner),
        ;
        lemma_valid_size(settled(center, size, pos).1);
        lemma_steps_bound(size, inner + 1);
        inner + 1
    }
}

/// A valid side can be multiplied by 4 at most eight times.
pub(crate) proof fn lemma_steps_bound(size: u32, steps: nat)
    requires
        valid_size(size),
        size * pow4(steps) <= MAX_SIZE,
    ensures
        steps <= 8,
{
    if steps > 8 {
        lemma_pow4_monotonic(9, steps);
        reveal_with_fuel(pow4, 10);
        assert(pow4(9) == 262144);
        assert(size * pow4(steps) >= 16 * 262144) by (nonlinear_arith)
            requires
                size >= 16,
                pow4(steps) >= 262144,
        ;
    }
}

/// What growth does to the digits of a cell. The new cube holds every cell
/// of the previous one, and such a cell gets the digit of the slot that
/// took the previous root put above its digits. Any other cell of the new
/// cube has another digit there, or, below it, the digit of a slot that
/// lies outside the previous cube.
pub(crate) proof fn lemma_grown_path(center: Position, size: u32, pos: Position)
    requires
        valid_size(size),
        size * 4 <= MAX_SIZE,
        center_ok(center, size),
    ensures
        in_cube(center, size, pos) ==> in_cube(grown_center(center, size), (size * 4) as u32, pos),
        in_cube(grown_center(center, size), (size * 4) as u32, pos) ==> ({
            let depth = levels(size as nat);
            let wide = padded_digits(
                code_of(normalized(grown_center(center, size), (size * 4) as u32, pos)) as u64,
                depth + 1,
            );
            let narrow = padded_digits(code_of(normalized(center, size, pos)) as u64, depth);
            &&& wide.len() == depth + 1
            &&& wide.last() < 64
            &&& if in_cube(center, size, pos) {
                wide == narrow.push(GROW_SLOT)
            } else {
                ||| wide.last() != GROW_SLOT
                ||| span(size as nat) != size && 8 <= wide[depth - 1] < 64
            }
        }),
{
    let depth = levels(size as nat);
    let side = span(size as nat);
    lemma_valid_size(size);
    lemma_grown_offsets(center, size, pos);
    if in_cube(grown_center(center, size), (size * 4) as u32, pos) {
        let n = normalized(grown_center(center, size), (size * 4) as u32, pos);
        lemma_wide_digits(n, size);
        let wide = padded_digits(code_of(n) as u64, depth + 1);
        if !in_cube(center, size, pos) && wide.last() == GROW_SLOT {
            let rest = LocalPos {
                x: (n.x - side) as u32,
                y: (n.y - side) as u32,
                z: (n.z - side) as u32,
            };
            lemma_top_digit(rest, depth);
            let quarter = pow4((depth - 1) as nat);
            lemma_child_slot(
                rest.x as nat / quarter,
                rest.y as nat / quarter,
                rest.z as nat / quarter,
                0,
                0,
                0,
            );
            lemma_split_axis(rest.x as nat, quarter);
            lemma_split_axis(rest.y as nat, quarter);
            lemma_split_axis(rest.z as nat, quarter);
            let lower = padded_digits(code_of(rest) as u64, depth);
            assert(wide == lower.push(GROW_SLOT));
            assert(wide[depth - 1] == lower.last());
        }
    }
}

/// Where a cell lies in the cube after growth, counted from its low corner:
/// the span of the previous cube farther than before, on every axis.
pub(crate) proof fn lemma_grown_offsets(center: Position, size: u32, pos: Position)
    requires
        valid_size(size),
        size * 4 <= MAX_SIZE,
        center_ok(center, size),
    ensures
        ({
            let moved = grown_center(center, size);
            let wider = (size * 4) as u32;
            let side = span(size as nat);
            let n = normalized(moved, wider, pos);
            let m = normalized(center, size, pos);
            &&& center_ok(moved, wider)
            &&& in_cube(moved, wider, pos) ==> n.x < 4 * size && n.y < 4 * size && n.z < 4 * size
            &&& in_cube(center, size, pos) <==> in_cube(moved, wider, pos) && side <= n.x < side
                + size && side <= n.y < side + size && side <= n.z < side + size
            &&& in_cube(center, size, pos) ==> n.x == m.x + side && n.y == m.y + side && n.z == m.z
                + side
        }),
{
    lemma_valid_size(size);
}

/// The digits of a cell of a cube of `levels` levels: the child slot of
/// the leading base-4 digits of its axes, above the digits of the rest.
pub(crate) proof fn lemma_top_digit(n: LocalPos, levels: nat)
    requires
        2 <= levels <= 10,
        n.x < pow4(levels),
        n.y < pow4(levels),
        n.z < pow4(levels),
    ensures
        ({
            let side = pow4((levels - 1) as nat);
            let rest = LocalPos {
                x: (n.x as nat % side) as u32,
                y: (n.y as nat % side) as u32,
                z: (n.z as nat % side) as u32,
            };
            let top = child_slot(n.x as nat / side, n.y as nat / side, n.z as nat / side);
            let digits = padded_digits(code_of(n) as u64, levels);
            &&& n.x as nat / side < 4 && n.y as nat / side < 4 && n.z as nat / side < 4
            &&& top < 64
            &&& digits.len() == levels
            &&& digits == padded_digits(code_of(rest) as u64, (levels - 1) as nat).push(
                top as ChildIndex,
            )
        }),
{
    let side = pow4((levels - 1) as nat);
    reveal_with_fuel(pow4, 2);
    lemma_pow4_positive((levels - 1) as nat);
    lemma_pow64_fits((levels - 1) as nat);
    lemma_pow64_fits(levels);
    let hx = n.x as nat / side;
    let hy = n.y as nat / side;
    let hz = n.z as nat / side;
    let lx = n.x as nat % side;
    let ly = n.y as nat % side;
    let lz = n.z as nat % side;
    lemma_axis_fits(n.x, levels);
    lemma_axis_fits(n.y, levels);
    lemma_axis_fits(n.z, levels);
    lemma_split_axis(n.x as nat, side);
    lemma_split_axis(n.y as nat, side);
    lemma_split_axis(n.z as nat, side);
    lemma_axis_fits(lx as u32, levels);
    lemma_axis_fits(ly as u32, levels);
    lemma_axis_fits(lz as u32, levels);
    lemma_morton_split(lx, ly, lz, hx, hy, hz, (levels - 1) as nat);
    lemma_morton_bound(lx, ly, lz, (levels - 1) as nat);
    lemma_child_slot(hx, hy, hz, 0, 0, 0);
    let low = morton(lx, ly, lz);
    let top = child_slot(hx, hy, hz);
    assert(code_of(n) == low + top * pow64((levels - 1) as nat));
    assert(top * pow64((levels - 1) as nat) <= 63 * pow64((levels - 1) as nat))
        by (nonlinear_arith)
        requires
            top <= 63,
    ;
    lemma_padded_digits_push(low as u64, top, (levels - 1) as nat);
    lemma_padded_digits_bounds(low as u64, (levels - 1) as nat);
}

/// The digits of a cell of the grown cube, by where the cell lies: in the
/// second of the four cells along every axis it has the digit of the slot
/// that took the previous root above the digits of its place in that cell,
/// elsewhere it has another digit there.
pub(crate) proof fn lemma_wide_digits(n: LocalPos, size: u32)
    requires
        valid_size(size),
        size * 4 <= MAX_SIZE,
        n.x < 4 * size,
        n.y < 4 * size,
        n.z < 4 * size,
    ensures
        ({
            let depth = levels(size as nat);
            let side = span(size as nat);
            let wide = padded_digits(code_of(n) as u64, depth + 1);
            &&& wide.len() == depth + 1
            &&& wide.last() < 64
            &&& if side <= n.x < 2 * side && side <= n.y < 2 * side && side <= n.z < 2 * side {
                wide == padded_digits(
                    code_of(
                        LocalPos {
                            x: (n.x - side) as u32,
                            y: (n.y - side) as u32,
                            z: (n.z - side) as u32,
                        },
                    ) as u64,
                    depth,
                ).push(GROW_SLOT)
            } else {
                wide.last() != GROW_SLOT
            }
        }),
{
    let depth = levels(size as nat);
    let side = span(size as nat);
    lemma_valid_size(size);
    lemma_valid_size((size * 4) as u32);
    reveal_with_fuel(pow4, 2);
    lemma_top_digit(n, depth + 1);
    lemma_split_axis(n.x as nat, side);
    lemma_split_axis(n.y as nat, side);
    lemma_split_axis(n.z as nat, side);
    lemma_child_slot(n.x as nat / side, n.y as nat / side, n.z as nat / side, 1, 1, 1);
}

/// The leading digit of a cell of a cube that fills half of its span names
/// one of the first eight slots.
pub(crate) proof fn lemma_top_slot(center: Position, size: u32, pos: Position)
    requires
        valid_size(size),
        in_cube(center, size, pos),
        span(size as nat) != size,
    ensures
        padded_digits(code_of(normalized(center, size, pos)) as u64, levels(size as nat)).last()
            < 8,
{
    let depth = levels(size as nat);
    let n = normalized(center, size, pos);
    let quarter = pow4((depth - 1) as nat);
    lemma_valid_size(size);
    lemma_top_digit(n, depth);
    lemma_split_axis(n.x as nat, quarter);
    lemma_split_axis(n.y as nat, quarter);
    lemma_split_axis(n.z as nat, quarter);
    lemma_child_slot(n.x as nat / quarter, n.y as nat / quarter, n.z as nat / quarter, 0, 0, 0);
}

/// A coordinate below four times `side` splits into a base-4 digit and a
/// rest below `side`.
pub(crate) proof fn lemma_split_axis(v: nat, side: nat)
    by (nonlinear_arith)
    requires
        side > 0,
        v < 4 * side,
    ensures
        v / side < 4,
        v % side < side,
        v == v % side + (v / side) * side,
        v / side == 1 <==> side <= v < 2 * side,
        v / side < 2 <==> v < 2 * side,
        v / side == 1 ==> v % side == v - side,
{
}

/// An axis of a cube of at most ten levels takes part in a code as it is.
pub(crate) proof fn lemma_axis_fits(v: u32, levels: nat)
    requires
        levels <= 10,
        v < pow4(levels),
    ensures
        v & 0x1f_ffff == v,
{
    reveal_with_fuel(pow4, 11);
    lemma_small_axis(v);
}

/// An axis value of at most 21 bits takes part in a code as it is.
pub(crate) proof fn lemma_small_axis(v: u32)
    by (bit_vector)
    requires
        v < 0x20_0000,
    ensures
        v & 0x1f_ffff == v,
{
}

/// The codes of the deepest cube fit in 64 bits.
pub(crate) proof fn lemma_pow64_fits(depth: nat)
    requires
        depth <= 10,
    ensures
        pow64(depth) <= 0x1000_0000_0000_0000,
{
    reveal_with_fuel(pow64, 11);
}

/// No side up to the largest has more than ten levels.
pub(crate) proof fn lemma_levels_bound(size: u32)
    requires
        size <= MAX_SIZE,
    ensures
        levels(size as nat) <= 10,
{
    reveal_with_fuel(levels, 12);
}

/// The number of levels of a cube of side `size`.
pub(crate) fn level_count(size: u32) -> (n: usize)
    requires
        size <= MAX_SIZE,
    ensures
        n == levels(size as nat),
        n <= 10,
{
    let mut n: usize = 0;
    let mut rest = size;
    proof {
        lemma_levels_bound(size);
    }
    while rest > 1
        invariant
            levels(size as nat) == n + levels(rest as nat),
            levels(size as nat) <= 10,
            rest <= size <= MAX_SIZE,
        decreases rest,
    {
        rest = (rest + 3) / 4;
        n += 1;
    }
    n
}

/// How far growth moves the centre of a cube of side `size` along every
/// axis.
pub(crate) fn shift_of(size: u32) -> (shift: i32)
    requires
        valid_size(size),
    ensures
        shift == growth_shift(size),
{
    proof {
        lemma_valid_size(size);
    }
    if four_to(level_count(size)) == size {
        (size / 2) as i32
    } else {
        -((size / 2) as i32)
    }
}

/// `4^n`.
pub(crate) fn four_to(n: usize) -> (p: u32)
    requires
        n <= 15,
    ensures
        p == pow4(n as nat),
        p >= 1,
{
    let mut p: u32 = 1;
    let mut i: usize = 0;
    proof {
        lemma_pow4_monotonic(0, 15);
    }
    while i < n
        invariant
            i <= n <= 15,
            p == pow4(i as nat),
            1 <= p <= pow4(15),
        decreases n - i,
    {
        proof {
            reveal_with_fuel(pow4, 2);
            lemma_pow4_monotonic((i + 1) as nat, 15);
            reveal_with_fuel(pow4, 16);
            assert(pow4(15) == 0x4000_0000);
        }
        p = p * 4;
        i += 1;
    }
    p
}

/// `v` cut to the range of `u32`.
pub(crate) fn saturate(v: i64) -> (u: u32)
    ensures
        u == clamp_u32(v as int),
{
    if v < 0 {
        0
    } else if v > u32::MAX as i64 {
        u32::MAX
    } else {
        v as u32
    }
}

} // verus!
