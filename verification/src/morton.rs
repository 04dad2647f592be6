//! Morton (Z-order) codes of 3-D cell coordinates, and their base-64 digits.
//!
//! A code is read as a number in base 64. Each digit names one child of a
//! 4x4x4 subdivision: the digit of weight `64^k` is made of the base-4 digits
//! of weight `4^k` of the three axes.

use crate::position::LocalPos;
use vstd::prelude::*;

verus! {

/// Mask that keeps the 21 low bits of an axis value: only they take part in
/// a code.
pub const AXIS_MASK: u32 = 0x1f_ffff;

/// The child index of the cell `(cx, cy, cz)` of a 4x4x4 block, each axis in
/// `0..4`: the high bits of x, y, z, then their low bits.
#[verifier::opaque]
pub open spec fn child_slot(cx: nat, cy: nat, cz: nat) -> nat {
    32 * (cx / 2) + 16 * (cy / 2) + 8 * (cz / 2) + 4 * (cx % 2) + 2 * (cy % 2) + (cz % 2)
}

/// The Morton code of `(x, y, z)`: its base-64 digit of weight `64^k` is the
/// child slot of the axes' base-4 digits of weight `4^k`.
pub open spec fn morton(x: nat, y: nat, z: nat) -> nat
    decreases x + y + z,
{
    if x == 0 && y == 0 && z == 0 {
        0
    } else {
        child_slot(x % 4, y % 4, z % 4) + 64 * morton(x / 4, y / 4, z / 4)
    }
}

/// The code of a local position: the Morton code of its axes, each cut to
/// its 21 low bits.
pub open spec fn code_of(p: LocalPos) -> nat {
    morton((p.x & AXIS_MASK) as nat, (p.y & AXIS_MASK) as nat, (p.z & AXIS_MASK) as nat)
}

/// The base-64 digits of `code`, least significant first, without leading
/// zeros; the code zero has the single digit 0.
pub open spec fn digits_of(code: u64) -> Seq<usize>
    decreases code,
{
    if code < 64 {
        seq![code as usize]
    } else {
        seq![(code % 64) as usize] + digits_of(code / 64)
    }
}

/// The digits of `code`, least significant first, with zeros added at the
/// significant end until there are `levels` of them.
pub open spec fn padded_digits(code: u64, levels: nat) -> Seq<usize>
    decreases levels,
{
    if levels <= 1 {
        digits_of(code)
    } else {
        seq![(code % 64) as usize] + padded_digits(code / 64, (levels - 1) as nat)
    }
}

/// `4^n`.
pub open spec fn pow4(n: nat) -> nat
    decreases n,
{
    if n == 0 {
        1
    } else {
        4 * pow4((n - 1) as nat)
    }
}

/// `64^n`.
pub open spec fn pow64(n: nat) -> nat
    decreases n,
{
    if n == 0 {
        1
    } else {
        64 * pow64((n - 1) as nat)
    }
}

/// Moves bit `i` of `val` to bit `3 * i`, for the 21 low bits; every other
/// bit of the result is clear.
pub open spec fn interleave_bits(val: u32) -> u64 {
    let x0: u64 = (val & 0x1f_ffff) as u64;
    let x1: u64 = (x0 | x0 << 32) & 0x1f00000000ffff;
    let x2: u64 = (x1 | x1 << 16) & 0x1f0000ff0000ff;
    let x3: u64 = (x2 | x2 << 8) & 0x100f00f00f00f00f;
    let x4: u64 = (x3 | x3 << 4) & 0x10c30c30c30c30c3;
    (x4 | x4 << 2) & 0x1249249249249249
}

/// The three spread axes laid side by side: x above y above z.
pub open spec fn morton_bits(x: u32, y: u32, z: u32) -> u64 {
    (interleave_bits(x) << 2) | (interleave_bits(y) << 1) | interleave_bits(z)
}

/// The six low bits of the interleaving are the child slot of the two low
/// bits of each axis.
proof fn lemma_bits_low_digit(x: u32, y: u32, z: u32)
    by (bit_vector)
    ensures
        ({
            let a: u64 = ((x & 0x1f_ffff) % 4) as u64;
            let b: u64 = ((y & 0x1f_ffff) % 4) as u64;
            let d: u64 = ((z & 0x1f_ffff) % 4) as u64;
            morton_bits(x, y, z) % 64 == 32 * (a / 2) + 16 * (b / 2) + 8 * (d / 2) + 4 * (a % 2)
                + 2 * (b % 2) + (d % 2)
        }),
{
}

/// What stands above the six low bits of the interleaving is the
/// interleaving of what stands above the two low bits of each axis.
proof fn lemma_bits_shift(x: u32, y: u32, z: u32, qx: u32, qy: u32, qz: u32)
    by (bit_vector)
    requires
        qx == (x & 0x1f_ffff) >> 2,
        qy == (y & 0x1f_ffff) >> 2,
        qz == (z & 0x1f_ffff) >> 2,
    ensures
        morton_bits(x, y, z) >> 6 == morton_bits(qx, qy, qz),
{
}

/// Dropping six bits divides by 64.
proof fn lemma_code_shift_is_div(c: u64)
    by (bit_vector)
    ensures
        c >> 6 == c / 64,
{
}

/// Dropping two bits of an axis divides it by 4 and stays within 21 bits.
proof fn lemma_axis_shift_is_div(v: u32)
    by (bit_vector)
    ensures
        (v & 0x1f_ffff) >> 2 == (v & 0x1f_ffff) / 4,
        ((v & 0x1f_ffff) >> 2) & 0x1f_ffff == (v & 0x1f_ffff) >> 2,
{
}

/// Axes without low bits interleave to zero.
proof fn lemma_bits_zero(x: u32, y: u32, z: u32)
    by (bit_vector)
    requires
        x & 0x1f_ffff == 0,
        y & 0x1f_ffff == 0,
        z & 0x1f_ffff == 0,
    ensures
        morton_bits(x, y, z) == 0,
{
}

/// The bit-parallel interleaving computes the Morton code.
pub proof fn lemma_morton_bits(x: u32, y: u32, z: u32)
    ensures
        morton_bits(x, y, z) == code_of(LocalPos { x, y, z }),
    decreases (x & AXIS_MASK) + (y & AXIS_MASK) + (z & AXIS_MASK),
{
    let mx = x & AXIS_MASK;
    let my = y & AXIS_MASK;
    let mz = z & AXIS_MASK;
    if mx == 0 && my == 0 && mz == 0 {
        lemma_bits_zero(x, y, z);
    } else {
        reveal(child_slot);
        lemma_bits_low_digit(x, y, z);
        lemma_bits_shift(x, y, z, mx >> 2, my >> 2, mz >> 2);
        let c = morton_bits(x, y, z);
        lemma_code_shift_is_div(c);
        lemma_axis_shift_is_div(x);
        lemma_axis_shift_is_div(y);
        lemma_axis_shift_is_div(z);
        lemma_morton_bits(mx / 4, my / 4, mz / 4);
        assert(c == c % 64 + 64 * (c / 64));
    }
}

/// The Morton code of a local position, by bit-parallel interleaving of the
/// 21 low bits of each axis.
pub fn morton_code(norm_p: LocalPos) -> (code: u64)
    ensures
        code == code_of(norm_p),
        code == morton_bits(norm_p.x, norm_p.y, norm_p.z),
{
    proof {
        lemma_morton_bits(norm_p.x, norm_p.y, norm_p.z);
    }
    (interleave(norm_p.x) << 2) | (interleave(norm_p.y) << 1) | interleave(norm_p.z)
}

/// Spreads the 21 low bits of `val` three places apart, in five rounds
/// that each double the gaps.
fn interleave(val: u32) -> (spread: u64)
    ensures
        spread == interleave_bits(val),
{
    let x0: u64 = (val & 0x1f_ffff) as u64;
    let x1: u64 = (x0 | x0 << 32) & 0x1f00000000ffff;
    let x2: u64 = (x1 | x1 << 16) & 0x1f0000ff0000ff;
    let x3: u64 = (x2 | x2 << 8) & 0x100f00f00f00f00f;
    let x4: u64 = (x3 | x3 << 4) & 0x10c30c30c30c30c3;
    (x4 | x4 << 2) & 0x1249249249249249
}

/// Every digit is below 64, and there is at least one.
pub proof fn lemma_digits_of_bounds(code: u64)
    ensures
        digits_of(code).len() >= 1,
        forall|i: int| 0 <= i < digits_of(code).len() ==> #[trigger] digits_of(code)[i] < 64,
    decreases code,
{
    if code >= 64 {
        lemma_digits_of_bounds(code / 64);
    }
}

/// A code below `64^levels` has at most `levels` digits; one that reaches
/// `64^(levels - 1)` has at least `levels`.
pub proof fn lemma_digits_of_len(code: u64, levels: nat)
    requires
        levels >= 1,
    ensures
        code < pow64(levels) ==> digits_of(code).len() <= levels,
        code >= pow64((levels - 1) as nat) ==> digits_of(code).len() >= levels,
    decreases levels,
{
    lemma_digits_of_bounds(code);
    reveal_with_fuel(pow64, 2);
    if levels > 1 {
        lemma_pow64_positive((levels - 2) as nat);
        if code >= 64 {
            lemma_digits_of_len(code / 64, (levels - 1) as nat);
        }
    }
}

/// No power of 64 is zero.
pub proof fn lemma_pow64_positive(n: nat)
    ensures
        pow64(n) >= 1,
    decreases n,
{
    if n > 0 {
        lemma_pow64_positive((n - 1) as nat);
    }
}

/// No power of 4 is zero.
pub proof fn lemma_pow4_positive(n: nat)
    ensures
        pow4(n) >= 1,
    decreases n,
{
    if n > 0 {
        lemma_pow4_positive((n - 1) as nat);
    }
}

/// A cell of a cube of side `4^levels` that does not lie in the lowest
/// quarter on every axis has a code of exactly `levels` digits.
pub proof fn lemma_digits_per_level(p: LocalPos, levels: nat)
    requires
        1 <= levels <= 10,
        p.x < pow4(levels),
        p.y < pow4(levels),
        p.z < pow4(levels),
        p.x >= pow4((levels - 1) as nat) || p.y >= pow4((levels - 1) as nat) || p.z >= pow4(
            (levels - 1) as nat,
        ),
    ensures
        code_of(p) <= u64::MAX,
        digits_of(code_of(p) as u64).len() == levels,
{
    lemma_axis_in_range(p.x, levels);
    lemma_axis_in_range(p.y, levels);
    lemma_axis_in_range(p.z, levels);
    lemma_morton_bound(p.x as nat, p.y as nat, p.z as nat, levels);
    lemma_morton_bound(p.x as nat, p.y as nat, p.z as nat, (levels - 1) as nat);
    reveal_with_fuel(pow64, 11);
    lemma_digits_of_len(code_of(p) as u64, levels);
}

/// Every cell of a cube of side `4^levels` has exactly `levels` digits on
/// its path, and the path is a function of the cell alone.
pub proof fn lemma_path_per_level(p: LocalPos, levels: nat)
    requires
        1 <= levels <= 10,
        p.x < pow4(levels),
        p.y < pow4(levels),
        p.z < pow4(levels),
    ensures
        code_of(p) <= u64::MAX,
        padded_digits(code_of(p) as u64, levels).len() == levels,
{
    lemma_axis_in_range(p.x, levels);
    lemma_axis_in_range(p.y, levels);
    lemma_axis_in_range(p.z, levels);
    lemma_morton_bound(p.x as nat, p.y as nat, p.z as nat, levels);
    reveal_with_fuel(pow64, 11);
    lemma_padded_digits_bounds(code_of(p) as u64, levels);
}

/// An axis of a cube of at most ten levels takes part in a code as it is.
proof fn lemma_axis_in_range(v: u32, levels: nat)
    requires
        levels <= 10,
        v < pow4(levels),
    ensures
        v & AXIS_MASK == v,
{
    reveal_with_fuel(pow4, 11);
    assert(v < 0x20_0000);
    assert(v & 0x1f_ffff == v) by (bit_vector)
        requires
            v < 0x20_0000,
    ;
}

/// Padding changes nothing but the length: the result has `levels` digits,
/// or as many as the code has if those are more; each is below 64.
pub proof fn lemma_padded_digits_bounds(code: u64, levels: nat)
    ensures
        padded_digits(code, levels).len() >= levels,
        padded_digits(code, levels).len() >= 1,
        code < pow64(levels) && levels >= 1 ==> padded_digits(code, levels).len() == levels,
        forall|i: int|
            0 <= i < padded_digits(code, levels).len() ==> #[trigger] padded_digits(
                code,
                levels,
            )[i] < 64,
    decreases levels,
{
    lemma_digits_of_bounds(code);
    reveal_with_fuel(pow64, 2);
    if levels <= 1 {
        if levels == 1 {
            lemma_digits_of_len(code, 1);
        }
    } else {
        lemma_padded_digits_bounds(code / 64, (levels - 1) as nat);
    }
}

/// The padded digits are the plain digits followed by zeros.
pub proof fn lemma_padded_digits_is_padding(code: u64, levels: nat)
    ensures
        padded_digits(code, levels).len() >= digits_of(code).len(),
        padded_digits(code, levels).take(digits_of(code).len() as int) == digits_of(code),
        forall|i: int|
            digits_of(code).len() <= i < padded_digits(code, levels).len()
                ==> #[trigger] padded_digits(code, levels)[i] == 0,
        padded_digits(code, levels).len() == if digits_of(code).len() >= levels {
            digits_of(code).len()
        } else {
            levels
        },
    decreases levels,
{
    lemma_digits_of_bounds(code);
    if levels <= 1 {
        assert(padded_digits(code, levels).take(digits_of(code).len() as int) =~= digits_of(code));
    } else {
        let rest = padded_digits(code / 64, (levels - 1) as nat);
        let all = padded_digits(code, levels);
        lemma_padded_digits_is_padding(code / 64, (levels - 1) as nat);
        lemma_digits_of_bounds(code / 64);
        if code < 64 {
            assert(digits_of(0) =~= seq![0usize]);
            assert(rest.take(1)[0] == rest[0]);
            assert forall|i: int| 1 <= i < all.len() implies #[trigger] all[i] == 0 by {
                assert(all[i] == rest[i - 1]);
                if i - 1 == 0 {
                    assert(rest.take(1)[0] == digits_of(0)[0]);
                }
            }
            assert(all.take(1) =~= digits_of(code));
        } else {
            let plain = digits_of(code / 64);
            assert forall|i: int| digits_of(code).len() <= i < all.len() implies #[trigger] all[i]
                == 0 by {
                assert(all[i] == rest[i - 1]);
            }
            assert forall|i: int| 0 <= i < digits_of(code).len() implies all.take(
                digits_of(code).len() as int,
            )[i] == digits_of(code)[i] by {
                if i > 0 {
                    assert(all[i] == rest[i - 1]);
                    assert(rest.take(plain.len() as int)[i - 1] == rest[i - 1]);
                }
            }
            assert(all.take(digits_of(code).len() as int) =~= digits_of(code));
        }
    }
}

/// Codes below `64^levels` with the same padded digits are the same code.
pub proof fn lemma_padded_digits_injective(a: u64, b: u64, levels: nat)
    requires
        levels >= 1,
        a < pow64(levels),
        b < pow64(levels),
        padded_digits(a, levels) == padded_digits(b, levels),
    ensures
        a == b,
    decreases levels,
{
    reveal_with_fuel(pow64, 2);
    if levels == 1 {
        assert(digits_of(a)[0] == digits_of(b)[0]);
    } else {
        let pa = padded_digits(a, levels);
        let pb = padded_digits(b, levels);
        let ra = padded_digits(a / 64, (levels - 1) as nat);
        let rb = padded_digits(b / 64, (levels - 1) as nat);
        assert(pa[0] == pb[0]);
        assert(ra =~= pa.skip(1));
        assert(rb =~= pb.skip(1));
        lemma_padded_digits_injective(a / 64, b / 64, (levels - 1) as nat);
    }
}

/// Two numbers of six binary digits that are equal have equal digits.
proof fn lemma_slot_digits(
    a: (nat, nat),
    b: (nat, nat),
    c: (nat, nat),
    d: (nat, nat),
    e: (nat, nat),
    f: (nat, nat),
)
    requires
        a.0 <= 1 && a.1 <= 1,
        b.0 <= 1 && b.1 <= 1,
        c.0 <= 1 && c.1 <= 1,
        d.0 <= 1 && d.1 <= 1,
        e.0 <= 1 && e.1 <= 1,
        f.0 <= 1 && f.1 <= 1,
        32 * a.0 + 16 * b.0 + 8 * c.0 + 4 * d.0 + 2 * e.0 + f.0 == 32 * a.1 + 16 * b.1 + 8 * c.1 + 4
            * d.1 + 2 * e.1 + f.1,
    ensures
        a.0 == a.1 && b.0 == b.1 && c.0 == c.1 && d.0 == d.1 && e.0 == e.1 && f.0 == f.1,
{
}

/// The two binary digits of a base-4 digit.
proof fn lemma_base4_digit(c: nat) -> (bits: (nat, nat))
    requires
        c < 4,
    ensures
        bits.0 == c / 2,
        bits.1 == c % 2,
        bits.0 <= 1,
        bits.1 <= 1,
        c == 2 * bits.0 + bits.1,
{
    (c / 2, c % 2)
}

/// A child slot is below 64, and tells the three axis digits apart.
pub proof fn lemma_child_slot(cx: nat, cy: nat, cz: nat, dx: nat, dy: nat, dz: nat)
    requires
        cx < 4,
        cy < 4,
        cz < 4,
        dx < 4,
        dy < 4,
        dz < 4,
    ensures
        child_slot(cx, cy, cz) < 64,
        child_slot(cx, cy, cz) == child_slot(dx, dy, dz) ==> cx == dx && cy == dy && cz == dz,
        child_slot(0, 0, 0) == 0,
        child_slot(1, 1, 1) == 7,
        child_slot(cx, cy, cz) < 8 <==> cx < 2 && cy < 2 && cz < 2,
{
    let a = lemma_base4_digit(cx);
    let b = lemma_base4_digit(cy);
    let c = lemma_base4_digit(cz);
    let d = lemma_base4_digit(dx);
    let e = lemma_base4_digit(dy);
    let f = lemma_base4_digit(dz);
    assert(child_slot(cx, cy, cz) == 32 * a.0 + 16 * b.0 + 8 * c.0 + 4 * a.1 + 2 * b.1 + c.1) by {
        reveal(child_slot);
    }
    assert(child_slot(dx, dy, dz) == 32 * d.0 + 16 * e.0 + 8 * f.0 + 4 * d.1 + 2 * e.1 + f.1) by {
        reveal(child_slot);
    }
    assert(child_slot(0, 0, 0) == 0 && child_slot(1, 1, 1) == 7) by {
        reveal(child_slot);
    }
    if child_slot(cx, cy, cz) == child_slot(dx, dy, dz) {
        lemma_slot_digits(
            (a.0, d.0),
            (b.0, e.0),
            (c.0, f.0),
            (a.1, d.1),
            (b.1, e.1),
            (c.1, f.1),
        );
    }
}

/// The code is below `64^levels` exactly when every axis is below
/// `4^levels`.
pub proof fn lemma_morton_bound(x: nat, y: nat, z: nat, levels: nat)
    ensures
        (x < pow4(levels) && y < pow4(levels) && z < pow4(levels)) <==> morton(x, y, z) < pow64(
            levels,
        ),
    decreases levels,
{
    reveal_with_fuel(pow64, 2);
    reveal_with_fuel(pow4, 2);
    if levels == 0 {
        if !(x == 0 && y == 0 && z == 0) {
            lemma_child_slot(x % 4, y % 4, z % 4, 0, 0, 0);
            lemma_morton_positive(x, y, z);
        }
    } else {
        lemma_child_slot(x % 4, y % 4, z % 4, 0, 0, 0);
        lemma_morton_bound(x / 4, y / 4, z / 4, (levels - 1) as nat);
    }
}

/// Only the origin has the code zero.
pub proof fn lemma_morton_positive(x: nat, y: nat, z: nat)
    requires
        !(x == 0 && y == 0 && z == 0),
    ensures
        morton(x, y, z) > 0,
    decreases x + y + z,
{
    lemma_child_slot(x % 4, y % 4, z % 4, 0, 0, 0);
    if !(x / 4 == 0 && y / 4 == 0 && z / 4 == 0) {
        lemma_morton_positive(x / 4, y / 4, z / 4);
    }
}

/// Different cells have different codes.
pub proof fn lemma_morton_injective(x: nat, y: nat, z: nat, u: nat, v: nat, w: nat)
    requires
        morton(x, y, z) == morton(u, v, w),
    ensures
        x == u && y == v && z == w,
    decreases x + y + z,
{
    if x == 0 && y == 0 && z == 0 {
        if !(u == 0 && v == 0 && w == 0) {
            lemma_morton_positive(u, v, w);
        }
    } else if u == 0 && v == 0 && w == 0 {
        lemma_morton_positive(x, y, z);
    } else {
        lemma_child_slot(x % 4, y % 4, z % 4, u % 4, v % 4, w % 4);
        lemma_child_slot(u % 4, v % 4, w % 4, x % 4, y % 4, z % 4);
        lemma_morton_injective(x / 4, y / 4, z / 4, u / 4, v / 4, w / 4);
    }
}

/// The lowest digit of a code and the code of what stands above it.
pub proof fn lemma_morton_unfold(x: nat, y: nat, z: nat)
    ensures
        morton(x, y, z) == child_slot(x % 4, y % 4, z % 4) + 64 * morton(x / 4, y / 4, z / 4),
{
    lemma_child_slot(0, 0, 0, 0, 0, 0);
    assert(morton(0, 0, 0) == 0);
}

/// Adding a multiple of 4 changes the quotient by 4 and keeps the rest.
proof fn lemma_add_multiple_of_4(x: nat, s: nat)
    ensures
        (x + 4 * s) % 4 == x % 4,
        (x + 4 * s) / 4 == x / 4 + s,
{
}

/// A cell of a cube of side `4^(levels + 1)` splits, on every axis, into
/// the base-4 digit above and the rest below: its code is the code of the
/// rest with the child slot of the three digits put above.
pub proof fn lemma_morton_split(x: nat, y: nat, z: nat, hx: nat, hy: nat, hz: nat, levels: nat)
    requires
        x < pow4(levels),
        y < pow4(levels),
        z < pow4(levels),
        hx < 4,
        hy < 4,
        hz < 4,
    ensures
        morton(x + hx * pow4(levels), y + hy * pow4(levels), z + hz * pow4(levels)) == morton(
            x,
            y,
            z,
        ) + child_slot(hx, hy, hz) * pow64(levels),
    decreases levels,
{
    let top = child_slot(hx, hy, hz);
    if levels == 0 {
        let one = pow4(0);
        assert(one == 1 && pow64(0) == 1);
        assert(hx * one == hx && hy * one == hy && hz * one == hz && top * one == top)
            by (nonlinear_arith)
            requires
                one == 1,
        ;
        assert(x == 0 && y == 0 && z == 0);
        lemma_morton_unfold(hx, hy, hz);
        lemma_morton_unfold(0, 0, 0);
        assert(hx % 4 == hx && hy % 4 == hy && hz % 4 == hz);
        assert(hx / 4 == 0 && hy / 4 == 0 && hz / 4 == 0);
    } else {
        let q = pow4((levels - 1) as nat);
        let r = pow64((levels - 1) as nat);
        assert(pow4(levels) == 4 * q);
        assert(pow64(levels) == 64 * r);
        let sx = hx * q;
        let sy = hy * q;
        let sz = hz * q;
        assert(hx * (4 * q) == 4 * sx && hy * (4 * q) == 4 * sy && hz * (4 * q) == 4 * sz)
            by (nonlinear_arith)
            requires
                sx == hx * q,
                sy == hy * q,
                sz == hz * q,
        ;
        assert(top * (64 * r) == 64 * (top * r)) by (nonlinear_arith);
        lemma_morton_split(x / 4, y / 4, z / 4, hx, hy, hz, (levels - 1) as nat);
        lemma_add_multiple_of_4(x, sx);
        lemma_add_multiple_of_4(y, sy);
        lemma_add_multiple_of_4(z, sz);
        lemma_morton_unfold(x, y, z);
        lemma_morton_unfold(x + 4 * sx, y + 4 * sy, z + 4 * sz);
    }
}

/// A code below `64^levels` with the digit `top` put above it has the
/// digits of the code followed by `top`.
pub proof fn lemma_padded_digits_push(code: u64, top: nat, levels: nat)
    requires
        levels >= 1,
        code < pow64(levels),
        top < 64,
        code + top * pow64(levels) <= u64::MAX,
    ensures
        padded_digits((code + top * pow64(levels)) as u64, levels + 1) == padded_digits(
            code,
            levels,
        ).push(top as usize),
    decreases levels,
{
    reveal_with_fuel(pow64, 2);
    let r = pow64((levels - 1) as nat);
    let t = top * r;
    assert(top * (64 * r) == 64 * t) by (nonlinear_arith)
        requires
            t == top * r,
    ;
    let up = (code + 64 * t) as u64;
    assert(up == code + top * pow64(levels));
    assert(up % 64 == code % 64);
    assert(up / 64 == code / 64 + t);
    if levels == 1 {
        assert(t == top) by (nonlinear_arith)
            requires
                t == top * r,
                r == 1,
        ;
        assert(up / 64 == top);
        assert(digits_of(top as u64) =~= seq![top as usize]);
        assert(padded_digits(up / 64, 1) == digits_of(top as u64));
        assert(padded_digits(code, 1) == digits_of(code));
        assert(digits_of(code) =~= seq![code as usize]);
        assert(padded_digits(up, 2) == seq![(up % 64) as usize] + padded_digits(up / 64, 1));
        assert(padded_digits(up, 2) =~= padded_digits(code, 1).push(top as usize));
    } else {
        lemma_padded_digits_push(code / 64, top, (levels - 1) as nat);
        let lower = padded_digits(code / 64, (levels - 1) as nat);
        assert(padded_digits(up / 64, levels) == lower.push(top as usize));
        assert(padded_digits(up, levels + 1) == seq![(up % 64) as usize] + padded_digits(
            up / 64,
            levels,
        ));
        assert(padded_digits(code, levels) == seq![(code % 64) as usize] + lower);
        assert(padded_digits(up, levels + 1) =~= padded_digits(code, levels).push(top as usize));
    }
}

} // verus!
