//! Line rasterization in exact integer arithmetic.
//!
//! A segment is stepped one pixel per unit along its dominant axis (the axis
//! with the larger absolute delta; ties go to x). The coordinate on the other
//! axis advances by the exact ratio of the two deltas, so after `k` steps it
//! is the rational `start * d + k * delta` over `d`, where `d` is the absolute
//! dominant delta. Each rational coordinate is rounded with a direction-aware
//! rule keyed on the sign of that axis' delta, which keeps chained segments
//! free of both gaps and doubled corner pixels.

use vstd::prelude::*;
use vstd::arithmetic::div_mod::{
    lemma_div_by_multiple, lemma_div_is_ordered, lemma_div_plus_one, lemma_fundamental_div_mod,
    lemma_fundamental_div_mod_converse_div, lemma_mod_multiples_basic,
};
use vstd::arithmetic::mul::{lemma_mul_is_commutative, lemma_mul_is_distributive_add_other_way};

verus! {

/// Largest coordinate magnitude accepted for line endpoints; keeps every
/// intermediate product of the rasterizer inside `i64`.
pub const COORD_LIMIT: i64 = 0x4000_0000;

/// Absolute value of a mathematical integer.
pub open spec fn abs_of(v: int) -> int {
    if v < 0 {
        -v
    } else {
        v
    }
}

/// Unit step along an axis whose total delta is `d`; a zero delta steps
/// positively.
pub open spec fn step_sign(d: int) -> int {
    if d < 0 {
        -1
    } else {
        1
    }
}

/// Round the rational `num / den` (with `den > 0`) to an integer under the
/// direction-aware rule for an axis whose signed delta has the sign of `dir`.
///
/// For a non-negative value, a positive direction rounds a fractional part of
/// exactly one half up, while a non-positive direction rounds it down. For a
/// negative value the rule is mirrored: a positive direction rounds a half
/// away from zero only when the fraction strictly exceeds one half, a
/// non-positive direction already at one half. An exact integer is returned
/// unchanged in every case.
pub open spec fn round_dir(num: int, den: int, dir: int) -> int
    recommends
        den > 0,
{
    if num >= 0 {
        let q = num / den;
        let rem = num % den;
        if dir > 0 {
            if 2 * rem >= den {
                q + 1
            } else {
                q
            }
        } else {
            if 2 * rem > den {
                q + 1
            } else {
                q
            }
        }
    } else {
        let q = -((-num) / den);
        let rem = (-num) % den;
        if dir > 0 {
            if 2 * rem > den {
                q - 1
            } else {
                q
            }
        } else {
            if 2 * rem >= den {
                q - 1
            } else {
                q
            }
        }
    }
}

/// Whether the segment `from -> to` steps along y (strictly steeper than 45
/// degrees); ties step along x.
pub open spec fn y_dominant(from: (int, int), to: (int, int)) -> bool {
    abs_of(to.1 - from.1) > abs_of(to.0 - from.0)
}

/// Number of pixels the segment `from -> to` touches, both endpoints
/// included: the absolute dominant delta plus one.
pub open spec fn line_len(from: (int, int), to: (int, int)) -> int {
    if y_dominant(from, to) {
        abs_of(to.1 - from.1) + 1
    } else {
        abs_of(to.0 - from.0) + 1
    }
}

/// The `k`-th pixel of the rasterized segment `from -> to`, for
/// `0 <= k < line_len(from, to)`. The dominant coordinate moves by exactly
/// one unit per step; the other coordinate is the exact rational position
/// rounded under the direction-aware rule.
pub open spec fn line_point(from: (int, int), to: (int, int), k: int) -> (int, int) {
    let dx = to.0 - from.0;
    let dy = to.1 - from.1;
    if y_dominant(from, to) {
        let d = abs_of(dy);
        (round_dir(from.0 * d + k * dx, d, dx), from.1 + k * step_sign(dy))
    } else if dx == 0 {
        (from.0, from.1)
    } else {
        let d = abs_of(dx);
        (from.0 + k * step_sign(dx), round_dir(from.1 * d + k * dy, d, dy))
    }
}

/// Whether `(x, y)` is among the first `t` pixels of the segment.
pub open spec fn on_line_prefix(from: (int, int), to: (int, int), t: int, x: int, y: int) -> bool {
    exists|k: int| 0 <= k < t && line_point(from, to, k) == (x, y)
}

/// Whether `(x, y)` is touched by the rasterized segment `from -> to`.
pub open spec fn on_line(from: (int, int), to: (int, int), x: int, y: int) -> bool {
    on_line_prefix(from, to, line_len(from, to), x, y)
}

/// No pixel lies on an empty prefix of a segment.
pub proof fn lemma_prefix_empty(from: (int, int), to: (int, int), x: int, y: int)
    ensures
        !on_line_prefix(from, to, 0, x, y),
{
    if on_line_prefix(from, to, 0, x, y) {
        let k = choose|k: int| 0 <= k < 0 && line_point(from, to, k) == (x, y);
    }
}

/// Extending a prefix of a segment by one step adds exactly the pixels of
/// that step.
pub proof fn lemma_prefix_extend(from: (int, int), to: (int, int), k: int, x: int, y: int)
    requires
        0 <= k,
    ensures
        on_line_prefix(from, to, k + 1, x, y) <==> (on_line_prefix(from, to, k, x, y)
            || line_point(from, to, k) == (x, y)),
{
    if on_line_prefix(from, to, k + 1, x, y) {
        let j = choose|j: int| 0 <= j < k + 1 && line_point(from, to, j) == (x, y);
        if j < k {
            assert(on_line_prefix(from, to, k, x, y));
        }
    }
    if on_line_prefix(from, to, k, x, y) {
        let j = choose|j: int| 0 <= j < k && line_point(from, to, j) == (x, y);
        assert(0 <= j < k + 1 && line_point(from, to, j) == (x, y));
        assert(on_line_prefix(from, to, k + 1, x, y));
    }
    if line_point(from, to, k) == (x, y) {
        assert(0 <= k < k + 1 && line_point(from, to, k) == (x, y));
        assert(on_line_prefix(from, to, k + 1, x, y));
    }
}

/// Rounding a value that is already an integer returns it unchanged,
/// whatever the direction: `round_dir(v * den, den, dir) == v`.
pub proof fn lemma_round_exact(v: int, den: int, dir: int)
    requires
        den > 0,
    ensures
        round_dir(v * den, den, dir) == v,
{
    if v >= 0 {
        lemma_div_by_multiple(v, den);
        lemma_mod_multiples_basic(v, den);
    } else {
        lemma_div_by_multiple(-v, den);
        lemma_mod_multiples_basic(-v, den);
        vstd::arithmetic::mul::lemma_mul_unary_negation(v, den);
        assert((-v) * den >= 0) by (nonlinear_arith)
            requires
                v < 0,
                den > 0,
        ;
    }
}

/// With a positive direction the rounding rule is the floor form of
/// round-half-up: `round_dir(num, den, dir) == (2*num + den) / (2*den)`.
proof fn lemma_round_floor_pos(num: int, den: int, dir: int)
    requires
        den > 0,
        dir > 0,
    ensures
        round_dir(num, den, dir) == (2 * num + den) / (2 * den),
{
    if num >= 0 {
        let q = num / den;
        let r = num % den;
        lemma_fundamental_div_mod(num, den);
        if 2 * r >= den {
            assert(2 * num + den == (q + 1) * (2 * den) + (2 * r - den)) by (nonlinear_arith)
                requires
                    num == den * q + r,
            ;
            lemma_fundamental_div_mod_converse_div(2 * num + den, 2 * den, q + 1, 2 * r - den);
        } else {
            assert(2 * num + den == q * (2 * den) + (2 * r + den)) by (nonlinear_arith)
                requires
                    num == den * q + r,
            ;
            lemma_fundamental_div_mod_converse_div(2 * num + den, 2 * den, q, 2 * r + den);
        }
    } else {
        let q = (-num) / den;
        let r = (-num) % den;
        lemma_fundamental_div_mod(-num, den);
        if 2 * r > den {
            assert(2 * num + den == (-q - 1) * (2 * den) + (3 * den - 2 * r)) by (nonlinear_arith)
                requires
                    -num == den * q + r,
            ;
            lemma_fundamental_div_mod_converse_div(2 * num + den, 2 * den, -q - 1, 3 * den - 2 * r);
        } else {
            assert(2 * num + den == (-q) * (2 * den) + (den - 2 * r)) by (nonlinear_arith)
                requires
                    -num == den * q + r,
            ;
            lemma_fundamental_div_mod_converse_div(2 * num + den, 2 * den, -q, den - 2 * r);
        }
    }
}

/// With a non-positive direction the rounding rule is the ceiling form of
/// round-half-down: `round_dir(num, den, dir) == -((den - 2*num) / (2*den))`.
proof fn lemma_round_ceil_nonpos(num: int, den: int, dir: int)
    requires
        den > 0,
        dir <= 0,
    ensures
        round_dir(num, den, dir) == -((den - 2 * num) / (2 * den)),
{
    if num >= 0 {
        let q = num / den;
        let r = num % den;
        lemma_fundamental_div_mod(num, den);
        if 2 * r > den {
            assert(den - 2 * num == (-q - 1) * (2 * den) + (3 * den - 2 * r)) by (nonlinear_arith)
                requires
                    num == den * q + r,
            ;
            lemma_fundamental_div_mod_converse_div(den - 2 * num, 2 * den, -q - 1, 3 * den - 2 * r);
        } else {
            assert(den - 2 * num == (-q) * (2 * den) + (den - 2 * r)) by (nonlinear_arith)
                requires
                    num == den * q + r,
            ;
            lemma_fundamental_div_mod_converse_div(den - 2 * num, 2 * den, -q, den - 2 * r);
        }
    } else {
        let q = (-num) / den;
        let r = (-num) % den;
        lemma_fundamental_div_mod(-num, den);
        if 2 * r >= den {
            assert(den - 2 * num == (q + 1) * (2 * den) + (2 * r - den)) by (nonlinear_arith)
                requires
                    -num == den * q + r,
            ;
            lemma_fundamental_div_mod_converse_div(den - 2 * num, 2 * den, q + 1, 2 * r - den);
        } else {
            assert(den - 2 * num == q * (2 * den) + (den + 2 * r)) by (nonlinear_arith)
                requires
                    -num == den * q + r,
            ;
            lemma_fundamental_div_mod_converse_div(den - 2 * num, 2 * den, q, den + 2 * r);
        }
    }
}

/// Advancing the rational by one step of size `dir`, no larger than the
/// denominator, moves the rounded value by zero or one pixel in the step's
/// direction.
proof fn lemma_round_step(num: int, den: int, dir: int)
    requires
        den > 0,
        -den <= dir <= den,
    ensures
        0 <= (round_dir(num + dir, den, dir) - round_dir(num, den, dir)) * step_sign(dir),
        (round_dir(num + dir, den, dir) - round_dir(num, den, dir)) * step_sign(dir) <= 1,
{
    if dir > 0 {
        lemma_round_floor_pos(num, den, dir);
        lemma_round_floor_pos(num + dir, den, dir);
        let a = 2 * num + den;
        lemma_div_is_ordered(a, a + 2 * dir, 2 * den);
        lemma_div_is_ordered(a + 2 * dir, a + 2 * den, 2 * den);
        lemma_div_plus_one(a, 2 * den);
    } else {
        lemma_round_ceil_nonpos(num, den, dir);
        lemma_round_ceil_nonpos(num + dir, den, dir);
        let b = den - 2 * num;
        let a = den - 2 * (num + dir);
        assert(a == b + 2 * (-dir));
        lemma_div_is_ordered(b, a, 2 * den);
        lemma_div_is_ordered(a, b + 2 * den, 2 * den);
        lemma_div_plus_one(b, 2 * den);
    }
}

/// Law: a rasterized segment is a monotonic staircase with no gaps: from
/// each pixel to the next, the dominant coordinate moves by exactly one
/// unit in the direction of its delta, and the other coordinate moves by
/// zero or one unit in the direction of its own delta. In particular
/// consecutive pixels differ by at most one in each axis.
pub proof fn lemma_line_step(from: (int, int), to: (int, int), k: int)
    requires
        0 <= k,
        k + 1 < line_len(from, to),
    ensures
        ({
            let p = line_point(from, to, k);
            let q = line_point(from, to, k + 1);
            &&& abs_of(q.0 - p.0) <= 1
            &&& abs_of(q.1 - p.1) <= 1
            &&& if y_dominant(from, to) {
                &&& q.1 - p.1 == step_sign(to.1 - from.1)
                &&& 0 <= (q.0 - p.0) * step_sign(to.0 - from.0) <= 1
            } else {
                &&& q.0 - p.0 == step_sign(to.0 - from.0)
                &&& 0 <= (q.1 - p.1) * step_sign(to.1 - from.1) <= 1
            }
        }),
{
    let dx = to.0 - from.0;
    let dy = to.1 - from.1;
    if y_dominant(from, to) {
        let d = abs_of(dy);
        lemma_mul_is_distributive_add_other_way(dx, k, 1);
        assert((k + 1) * dx == k * dx + 1 * dx);
        lemma_mul_is_distributive_add_other_way(step_sign(dy), k, 1);
        assert((k + 1) * step_sign(dy) == k * step_sign(dy) + 1 * step_sign(dy));
        lemma_round_step(from.0 * d + k * dx, d, dx);
    } else if dx == 0 {
        assert(line_len(from, to) == 1);
    } else {
        let d = abs_of(dx);
        lemma_mul_is_distributive_add_other_way(dy, k, 1);
        assert((k + 1) * dy == k * dy + 1 * dy);
        lemma_mul_is_distributive_add_other_way(step_sign(dx), k, 1);
        assert((k + 1) * step_sign(dx) == k * step_sign(dx) + 1 * step_sign(dx));
        lemma_round_step(from.1 * d + k * dy, d, dy);
    }
}

/// Law: a segment touches its two endpoints; the first pixel drawn is
/// `from` and the last is `to`, so chained segments that share an endpoint
/// meet in the same pixel and a stroke has no gap at the seam.
pub proof fn lemma_line_endpoints(from: (int, int), to: (int, int))
    ensures
        line_len(from, to) >= 1,
        line_point(from, to, 0) == from,
        line_point(from, to, line_len(from, to) - 1) == to,
        on_line(from, to, from.0, from.1),
        on_line(from, to, to.0, to.1),
{
    let dx = to.0 - from.0;
    let dy = to.1 - from.1;
    if y_dominant(from, to) {
        let d = abs_of(dy);
        lemma_round_exact(from.0, d, dx);
        assert(0 * dx == 0);
        assert(line_point(from, to, 0) == from);
        lemma_mul_is_distributive_add_other_way(d, from.0, dx);
        assert((from.0 + dx) * d == from.0 * d + dx * d);
        lemma_mul_is_commutative(dx, d);
        lemma_round_exact(to.0, d, dx);
        assert(d * step_sign(dy) == dy);
        assert(line_point(from, to, d) == to);
    } else if dx == 0 {
        assert(dy == 0);
        assert(line_point(from, to, 0) == from);
        assert(line_point(from, to, 0) == to);
    } else {
        let d = abs_of(dx);
        lemma_round_exact(from.1, d, dy);
        assert(0 * dy == 0);
        assert(line_point(from, to, 0) == from);
        lemma_mul_is_distributive_add_other_way(d, from.1, dy);
        assert((from.1 + dy) * d == from.1 * d + dy * d);
        lemma_mul_is_commutative(dy, d);
        lemma_round_exact(to.1, d, dy);
        assert(d * step_sign(dx) == dx);
        assert(line_point(from, to, d) == to);
    }
    let n = line_len(from, to);
    assert(0 <= 0 < n && line_point(from, to, 0) == (from.0, from.1));
    assert(on_line_prefix(from, to, n, from.0, from.1));
    assert(0 <= n - 1 < n && line_point(from, to, n - 1) == (to.0, to.1));
    assert(on_line_prefix(from, to, n, to.0, to.1));
}

/// Law: a degenerate segment, both endpoints equal, covers exactly that one
/// pixel.
pub proof fn lemma_single_point(p: (int, int), x: int, y: int)
    ensures
        line_len(p, p) == 1,
        on_line(p, p, x, y) <==> (x == p.0 && y == p.1),
{
    assert(line_point(p, p, 0) == p);
    lemma_prefix_empty(p, p, x, y);
    lemma_prefix_extend(p, p, 0, x, y);
}

/// Law: a horizontal rightward segment covers exactly the pixels between
/// its endpoints, all on its row.
pub proof fn lemma_horizontal_line(from: (int, int), to: (int, int), x: int, y: int)
    requires
        from.1 == to.1,
        from.0 <= to.0,
    ensures
        line_len(from, to) == to.0 - from.0 + 1,
        on_line(from, to, x, y) <==> (from.0 <= x <= to.0 && y == from.1),
{
    let dx = to.0 - from.0;
    if dx == 0 {
        lemma_single_point(from, x, y);
    } else {
        assert(!y_dominant(from, to));
        assert forall|k: int| 0 <= k <= dx implies line_point(from, to, k) == (
            from.0 + k,
            from.1,
        ) by {
            assert(from.1 * dx + k * 0 == from.1 * dx);
            lemma_round_exact(from.1, dx, 0);
            assert(step_sign(dx) == 1);
        }
        if on_line(from, to, x, y) {
            let k = choose|k: int|
                0 <= k < line_len(from, to) && line_point(from, to, k) == (x, y);
            assert(line_point(from, to, k) == (from.0 + k, from.1));
        }
        if from.0 <= x <= to.0 && y == from.1 {
            let k = x - from.0;
            assert(line_point(from, to, k) == (x, y));
            assert(0 <= k < line_len(from, to) && line_point(from, to, k) == (x, y));
            assert(on_line_prefix(from, to, line_len(from, to), x, y));
        }
    }
}

/// Law: a 45-degree diagonal segment covers exactly the pixels of the exact
/// diagonal between its endpoints, a monotonic staircase in which each
/// consecutive pixel moves by one in each axis.
pub proof fn lemma_diagonal_line(from: (int, int), c: int, x: int, y: int)
    requires
        c >= 0,
    ensures
        line_len(from, (from.0 + c, from.1 + c)) == c + 1,
        on_line(from, (from.0 + c, from.1 + c), x, y) <==> (from.0 <= x <= from.0 + c && y
            == from.1 + (x - from.0)),
{
    let to = (from.0 + c, from.1 + c);
    if c == 0 {
        lemma_single_point(from, x, y);
    } else {
        assert(!y_dominant(from, to));
        assert forall|k: int| 0 <= k <= c implies line_point(from, to, k) == (
            from.0 + k,
            from.1 + k,
        ) by {
            lemma_mul_is_distributive_add_other_way(c, from.1, k);
            assert((from.1 + k) * c == from.1 * c + k * c);
            lemma_round_exact(from.1 + k, c, c);
            assert(step_sign(c) == 1);
        }
        if on_line(from, to, x, y) {
            let k = choose|k: int|
                0 <= k < line_len(from, to) && line_point(from, to, k) == (x, y);
            assert(line_point(from, to, k) == (from.0 + k, from.1 + k));
        }
        if from.0 <= x <= from.0 + c && y == from.1 + (x - from.0) {
            let k = x - from.0;
            assert(line_point(from, to, k) == (x, y));
            assert(0 <= k < line_len(from, to) && line_point(from, to, k) == (x, y));
            assert(on_line_prefix(from, to, line_len(from, to), x, y));
        }
    }
}

/// Round the rational `num / den` under the direction-aware rule; executable
/// counterpart of [`round_dir`].
pub(crate) fn round_div(num: i64, den: i64, dir: i64) -> (r: i64)
    requires
        0 < den <= 0x1_0000_0000,
        -0x7000_0000_0000_0000 <= num <= 0x7000_0000_0000_0000,
    ensures
        r == round_dir(num as int, den as int, dir as int),
{
    if num >= 0 {
        let q: i64 = ((num as u64) / (den as u64)) as i64;
        let rem: i64 = ((num as u64) % (den as u64)) as i64;
        if dir > 0 {
            if 2 * rem >= den {
                q + 1
            } else {
                q
            }
        } else {
            if 2 * rem > den {
                q + 1
            } else {
                q
            }
        }
    } else {
        let m: i64 = -num;
        let q: i64 = ((m as u64) / (den as u64)) as i64;
        let rem: i64 = ((m as u64) % (den as u64)) as i64;
        let qn: i64 = -q;
        if dir > 0 {
            if 2 * rem > den {
                qn - 1
            } else {
                qn
            }
        } else {
            if 2 * rem >= den {
                qn - 1
            } else {
                qn
            }
        }
    }
}

} // verus!
