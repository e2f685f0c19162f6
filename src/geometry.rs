//! Integer geometry of the simulation: headings, unit steps, toroidal wrap
//! and the forward vision cone.
//!
//! A heading is an integer direction vector rather than an angle: every
//! question the simulation asks of it (which unit step it points to, whether
//! a point lies inside the cone of view) then has an exact integer answer.
use vstd::prelude::*;

verus! {

/// Largest magnitude of a heading component.
pub const HEADING_LIMIT: i64 = 1048576;

/// A heading whose larger component is below this is scaled up before it is
/// stored, so that rotations keep their precision.
pub const HEADING_HALF: i64 = 524288;

/// Largest magnitude of a component of the input of `normalize`.
pub const RAW_LIMIT: i64 = 1099511627776;

/// Largest magnitude of a rendered target coordinate. Every rendered grid
/// position (below `2^31 * SCALING_FACTOR`, under `2^36`) lies within it.
pub const TARGET_LIMIT: i64 = 0x40_0000_0000;

/// Largest magnitude of a component of a rotation vector.
pub const ROTATION_LIMIT: i64 = 1024;

/// Maximum distance, in grid units, at which an agent notices another.
pub const VISION_RANGE: i64 = 60;

/// Factor from grid units to rendered units.
pub const SCALING_FACTOR: i64 = 20;

/// The direction an agent faces, as a non-zero integer vector.
#[derive(Clone, Copy, PartialEq, Eq, Debug)]
pub struct Heading {
    pub dx: i64,
    pub dy: i64,
}

pub open spec fn abs(v: int) -> int {
    if v < 0 { -v } else { v }
}

pub open spec fn max_abs(x: int, y: int) -> int {
    if abs(x) >= abs(y) { abs(x) } else { abs(y) }
}

impl Heading {
    /// Non-zero, and each component within `HEADING_LIMIT`.
    pub open spec fn wf(self) -> bool {
        &&& !(self.dx == 0 && self.dy == 0)
        &&& -HEADING_LIMIT <= self.dx <= HEADING_LIMIT
        &&& -HEADING_LIMIT <= self.dy <= HEADING_LIMIT
    }

    /// The heading of angle zero: facing along the positive x axis.
    pub fn east() -> (r: Heading)
        ensures
            r.wf(),
            r == (Heading { dx: HEADING_HALF, dy: 0 }),
    {
        Heading { dx: HEADING_HALF, dy: 0 }
    }
}

/// Halves towards zero, so that a vector and its mirror image shrink alike.
pub open spec fn halve(v: int) -> int {
    if v >= 0 { v / 2 } else { -((-v) / 2) }
}

/// Doubles a non-zero vector until its larger component reaches `HEADING_HALF`.
pub open spec fn grow(x: int, y: int) -> (int, int)
    decreases HEADING_LIMIT - max_abs(x, y),
{
    if (x == 0 && y == 0) || max_abs(x, y) >= HEADING_HALF {
        (x, y)
    } else {
        grow(2 * x, 2 * y)
    }
}

/// Halves a vector until both components are within `HEADING_LIMIT`.
pub open spec fn shrink(x: int, y: int) -> (int, int)
    decreases abs(x) + abs(y),
{
    if max_abs(x, y) <= HEADING_LIMIT {
        (x, y)
    } else {
        shrink(halve(x), halve(y))
    }
}

/// The stored form of the direction of `(x, y)`.
pub open spec fn normalized(x: int, y: int) -> (int, int) {
    let g = grow(x, y);
    shrink(g.0, g.1)
}

/// The rounded cosine (or sine) of a direction vector: with `a` the
/// component along the axis and `b` the other, `round(a / |(a, b)|)`, where
/// a half rounds away from zero. `|a| / |(a, b)| >= 1/2` iff `3a² >= b²`.
pub open spec fn unit_component(a: int, b: int) -> int {
    if 3 * a * a >= b * b {
        if a > 0 { 1 } else if a < 0 { -1 } else { 0 }
    } else {
        0
    }
}

/// The displacement of one step forward along `h`.
pub open spec fn step_of(h: Heading) -> (int, int) {
    (unit_component(h.dx as int, h.dy as int), unit_component(h.dy as int, h.dx as int))
}

/// Toroidal wrap of a coordinate into `[0, m)`.
pub open spec fn wrap(v: int, m: int) -> int {
    v % m
}

/// `(x, y)` rotated by the direction of `(c, s)`, scaled by its length.
pub open spec fn rotated(x: int, y: int, c: int, s: int) -> (int, int) {
    (x * c - y * s, x * s + y * c)
}

/// The direction from the origin to `(dx, dy)`; the zero vector counts as
/// facing along the x axis, as `atan2(0, 0) == 0`.
pub open spec fn bearing(dx: int, dy: int) -> (int, int) {
    if dx == 0 && dy == 0 { (1, 0) } else { (dx, dy) }
}

/// The angle between `h` and `b` is at most a half field of view (π/8).
///
/// With `p = b·h` and `n = |b|²|h|²`, this is `p / √n >= cos(π/8)`, and
/// `cos²(π/8) = (2 + √2) / 4`; squaring twice leaves integers only.
pub open spec fn in_cone(h: (int, int), b: (int, int)) -> bool {
    let p = b.0 * h.0 + b.1 * h.1;
    let n = (b.0 * b.0 + b.1 * b.1) * (h.0 * h.0 + h.1 * h.1);
    let a = 4 * p * p - 2 * n;
    &&& p >= 0
    &&& a >= 0
    &&& a * a >= 2 * n * n
}

/// An observer at `(x, y)` facing `h` sees a point at `(ox, oy)`: it lies
/// within `VISION_RANGE` and inside the forward cone.
pub open spec fn sees(x: int, y: int, h: Heading, ox: int, oy: int) -> bool {
    let dx = ox - x;
    let dy = oy - y;
    &&& dx * dx + dy * dy <= VISION_RANGE * VISION_RANGE
    &&& in_cone((h.dx as int, h.dy as int), bearing(dx, dy))
}

fn halve_exec(v: i64) -> (r: i64)
    ensures
        r == halve(v as int),
{
    if v >= 0 { v / 2 } else { -((-(v as i128)) / 2) as i64 }
}

fn max_abs_exec(x: i64, y: i64) -> (r: i64)
    requires
        -RAW_LIMIT * 4 <= x <= RAW_LIMIT * 4,
        -RAW_LIMIT * 4 <= y <= RAW_LIMIT * 4,
    ensures
        r == max_abs(x as int, y as int),
{
    let ax = if x < 0 { -x } else { x };
    let ay = if y < 0 { -y } else { y };
    if ax >= ay { ax } else { ay }
}

/// The stored heading for the direction of `(x, y)`: scaled up when short,
/// halved towards zero when long.
pub fn normalize(x: i64, y: i64) -> (r: Heading)
    requires
        !(x == 0 && y == 0),
        -RAW_LIMIT <= x <= RAW_LIMIT,
        -RAW_LIMIT <= y <= RAW_LIMIT,
    ensures
        r.wf(),
        (r.dx as int, r.dy as int) == normalized(x as int, y as int),
{
    let mut gx = x;
    let mut gy = y;
    while max_abs_exec(gx, gy) < HEADING_HALF
        invariant
            !(gx == 0 && gy == 0),
            -RAW_LIMIT <= gx <= RAW_LIMIT,
            -RAW_LIMIT <= gy <= RAW_LIMIT,
            grow(gx as int, gy as int) == grow(x as int, y as int),
        decreases HEADING_LIMIT - max_abs(gx as int, gy as int),
    {
        gx = 2 * gx;
        gy = 2 * gy;
    }
    assert(grow(gx as int, gy as int) == (gx as int, gy as int));
    let mut sx = gx;
    let mut sy = gy;
    while max_abs_exec(sx, sy) > HEADING_LIMIT
        invariant
            !(sx == 0 && sy == 0),
            -RAW_LIMIT <= sx <= RAW_LIMIT,
            -RAW_LIMIT <= sy <= RAW_LIMIT,
            shrink(sx as int, sy as int) == shrink(gx as int, gy as int),
        decreases abs(sx as int) + abs(sy as int),
    {
        let nx = halve_exec(sx);
        let ny = halve_exec(sy);
        sx = nx;
        sy = ny;
    }
    Heading { dx: sx, dy: sy }
}

fn unit_component_exec(a: i64, b: i64) -> (r: i32)
    requires
        -HEADING_LIMIT <= a <= HEADING_LIMIT,
        -HEADING_LIMIT <= b <= HEADING_LIMIT,
    ensures
        r == unit_component(a as int, b as int),
{
    assert(0 <= a * a <= HEADING_LIMIT * HEADING_LIMIT) by (nonlinear_arith)
        requires
            -HEADING_LIMIT <= a <= HEADING_LIMIT,
    ;
    assert(0 <= b * b <= HEADING_LIMIT * HEADING_LIMIT) by (nonlinear_arith)
        requires
            -HEADING_LIMIT <= b <= HEADING_LIMIT,
    ;
    assert(3 * a * a == 3 * (a * a)) by (nonlinear_arith);
    if 3 * (a * a) >= b * b {
        if a > 0 { 1 } else if a < 0 { -1 } else { 0 }
    } else {
        0
    }
}

/// A step moves at most one cell along each axis.
pub proof fn lemma_step_unit(h: Heading)
    ensures
        -1 <= step_of(h).0 <= 1,
        -1 <= step_of(h).1 <= 1,
{
}

/// The displacement of one step forward along `h`: the rounded cosine and
/// sine of its direction.
pub fn step(h: Heading) -> (r: (i32, i32))
    requires
        h.wf(),
    ensures
        (r.0 as int, r.1 as int) == step_of(h),
        -1 <= r.0 <= 1 && -1 <= r.1 <= 1,
{
    (unit_component_exec(h.dx, h.dy), unit_component_exec(h.dy, h.dx))
}

/// `v` moved by `d` (one of -1, 0, 1) and wrapped into `[0, m)`.
pub fn wrap_step(v: i32, d: i32, m: i32) -> (r: i32)
    requires
        0 <= v < m,
        -1 <= d <= 1,
    ensures
        r == wrap(v + d, m as int),
        0 <= r < m,
{
    let s = v as i64 + d as i64;
    if s < 0 {
        assert((s as int + m as int) % (m as int) == (s as int) % (m as int)) by {
            vstd::arithmetic::div_mod::lemma_mod_add_multiples_vanish(s as int, m as int);
        }
        assert((s as int + m as int) % (m as int) == s as int + m as int) by {
            vstd::arithmetic::div_mod::lemma_small_mod((s + m) as nat, m as nat);
        }
        (s + m as i64) as i32
    } else if s >= m as i64 {
        assert((s as int - m as int) % (m as int) == (s as int) % (m as int)) by {
            vstd::arithmetic::div_mod::lemma_mod_sub_multiples_vanish(s as int, m as int);
        }
        assert((s as int - m as int) % (m as int) == s as int - m as int) by {
            vstd::arithmetic::div_mod::lemma_small_mod((s - m) as nat, m as nat);
        }
        (s - m as i64) as i32
    } else {
        assert((s as int) % (m as int) == s as int) by {
            vstd::arithmetic::div_mod::lemma_small_mod(s as nat, m as nat);
        }
        s as i32
    }
}

/// `h` turned by the direction of `(c, s)`, in stored form.
pub fn rotate_heading(h: Heading, c: i64, s: i64) -> (r: Heading)
    requires
        h.wf(),
        !(c == 0 && s == 0),
        -ROTATION_LIMIT <= c <= ROTATION_LIMIT,
        -ROTATION_LIMIT <= s <= ROTATION_LIMIT,
    ensures
        r.wf(),
        ({
            let v = rotated(h.dx as int, h.dy as int, c as int, s as int);
            (r.dx as int, r.dy as int) == normalized(v.0, v.1)
        }),
{
    let x = h.dx;
    let y = h.dy;
    assert(-HEADING_LIMIT * ROTATION_LIMIT <= x * c <= HEADING_LIMIT * ROTATION_LIMIT)
        by (nonlinear_arith)
        requires
            -HEADING_LIMIT <= x <= HEADING_LIMIT,
            -ROTATION_LIMIT <= c <= ROTATION_LIMIT,
    ;
    assert(-HEADING_LIMIT * ROTATION_LIMIT <= y * s <= HEADING_LIMIT * ROTATION_LIMIT)
        by (nonlinear_arith)
        requires
            -HEADING_LIMIT <= y <= HEADING_LIMIT,
            -ROTATION_LIMIT <= s <= ROTATION_LIMIT,
    ;
    assert(-HEADING_LIMIT * ROTATION_LIMIT <= x * s <= HEADING_LIMIT * ROTATION_LIMIT)
        by (nonlinear_arith)
        requires
            -HEADING_LIMIT <= x <= HEADING_LIMIT,
            -ROTATION_LIMIT <= s <= ROTATION_LIMIT,
    ;
    assert(-HEADING_LIMIT * ROTATION_LIMIT <= y * c <= HEADING_LIMIT * ROTATION_LIMIT)
        by (nonlinear_arith)
        requires
            -HEADING_LIMIT <= y <= HEADING_LIMIT,
            -ROTATION_LIMIT <= c <= ROTATION_LIMIT,
    ;
    let rx = x * c - y * s;
    let ry = x * s + y * c;
    assert(!(rx == 0 && ry == 0)) by {
        let xi = x as int;
        let yi = y as int;
        let ci = c as int;
        let si = s as int;
        lemma_rotation_scales_norm(xi, yi, ci, si);
        assert(xi * xi + yi * yi > 0) by (nonlinear_arith)
            requires
                !(xi == 0 && yi == 0),
        ;
        assert(ci * ci + si * si > 0) by (nonlinear_arith)
            requires
                !(ci == 0 && si == 0),
        ;
        assert((xi * xi + yi * yi) * (ci * ci + si * si) > 0) by (nonlinear_arith)
            requires
                xi * xi + yi * yi > 0,
                ci * ci + si * si > 0,
        ;
    }
    normalize(rx, ry)
}

/// Whether an observer at `(x, y)` facing `h` sees the point `(ox, oy)`.
pub fn sees_point(x: i32, y: i32, h: Heading, ox: i32, oy: i32) -> (r: bool)
    requires
        h.wf(),
    ensures
        r == sees(x as int, y as int, h, ox as int, oy as int),
{
    let dx = ox as i128 - x as i128;
    let dy = oy as i128 - y as i128;
    assert(0 <= dx * dx <= 0x1_0000_0000 * 0x1_0000_0000) by (nonlinear_arith)
        requires
            -0x1_0000_0000 <= dx <= 0x1_0000_0000,
    ;
    assert(0 <= dy * dy <= 0x1_0000_0000 * 0x1_0000_0000) by (nonlinear_arith)
        requires
            -0x1_0000_0000 <= dy <= 0x1_0000_0000,
    ;
    let range = VISION_RANGE as i128;
    if dx * dx + dy * dy > range * range {
        return false;
    }
    proof {
        lemma_square_bound(dx as int, dy as int);
        lemma_square_bound(dy as int, dx as int);
    }
    let (bx, by) = if dx == 0 && dy == 0 { (1i128, 0i128) } else { (dx, dy) };
    let hx = h.dx as i128;
    let hy = h.dy as i128;
    proof {
        lemma_cone_bounds(bx as int, by as int, hx as int, hy as int);
    }
    let p = bx * hx + by * hy;
    let n = (bx * bx + by * by) * (hx * hx + hy * hy);
    let a = 4 * (p * p) - 2 * n;
    p >= 0 && a >= 0 && a * a >= 2 * n * n
}

proof fn lemma_square_of_difference(a: int, b: int)
    ensures
        (a - b) * (a - b) == a * a - 2 * (a * b) + b * b,
{
    assert((a - b) * (a - b) == a * a - 2 * (a * b) + b * b) by (nonlinear_arith);
}

proof fn lemma_square_of_sum(a: int, b: int)
    ensures
        (a + b) * (a + b) == a * a + 2 * (a * b) + b * b,
{
    assert((a + b) * (a + b) == a * a + 2 * (a * b) + b * b) by (nonlinear_arith);
}

proof fn lemma_product_of_products(a: int, b: int, c: int, d: int)
    ensures
        (a * b) * (c * d) == (a * c) * (b * d),
{
    assert((a * b) * (c * d) == (a * c) * (b * d)) by (nonlinear_arith);
}

proof fn lemma_rotation_scales_norm(x: int, y: int, c: int, s: int)
    ensures
        (x * c - y * s) * (x * c - y * s) + (x * s + y * c) * (x * s + y * c) == (x * x + y * y)
            * (c * c + s * s),
{
    lemma_square_of_difference(x * c, y * s);
    lemma_square_of_sum(x * s, y * c);
    lemma_product_of_products(x, c, y, s);
    lemma_product_of_products(x, s, y, c);
    lemma_product_of_products(x, c, x, c);
    lemma_product_of_products(y, s, y, s);
    lemma_product_of_products(x, s, x, s);
    lemma_product_of_products(y, c, y, c);
    assert((x * y) * (c * s) == (x * y) * (s * c)) by (nonlinear_arith);
    assert((x * x + y * y) * (c * c + s * s) == (x * x) * (c * c) + (x * x) * (s * s) + (y * y)
        * (c * c) + (y * y) * (s * s)) by (nonlinear_arith);
}

pub proof fn lemma_square_bound(a: int, b: int)
    requires
        a * a + b * b <= VISION_RANGE * VISION_RANGE,
    ensures
        -VISION_RANGE <= a <= VISION_RANGE,
{
    assert(b * b >= 0) by (nonlinear_arith);
    if a > VISION_RANGE {
        assert(a * a > VISION_RANGE * VISION_RANGE) by (nonlinear_arith)
            requires
                a > VISION_RANGE,
        ;
    }
    if a < -VISION_RANGE {
        assert(a * a > VISION_RANGE * VISION_RANGE) by (nonlinear_arith)
            requires
                a < -VISION_RANGE,
        ;
    }
}

proof fn lemma_cone_bounds(bx: int, by: int, hx: int, hy: int)
    requires
        -VISION_RANGE <= bx <= VISION_RANGE,
        -VISION_RANGE <= by <= VISION_RANGE,
        -HEADING_LIMIT <= hx <= HEADING_LIMIT,
        -HEADING_LIMIT <= hy <= HEADING_LIMIT,
    ensures
        -0x400_0000 <= bx * hx <= 0x400_0000,
        -0x400_0000 <= by * hy <= 0x400_0000,
        0 <= bx * bx <= 3600,
        0 <= by * by <= 3600,
        0 <= hx * hx <= 0x100_0000_0000,
        0 <= hy * hy <= 0x100_0000_0000,
        -0x800_0000 <= bx * hx + by * hy <= 0x800_0000,
        0 <= bx * bx + by * by <= 8000,
        0 <= hx * hx + hy * hy <= 0x200_0000_0000,
        0 <= (bx * bx + by * by) * (hx * hx + hy * hy) <= 0x40_0000_0000_0000,
        0 <= (bx * hx + by * hy) * (bx * hx + by * hy) <= 0x40_0000_0000_0000,
        4 * (bx * hx + by * hy) * (bx * hx + by * hy) == 4 * ((bx * hx + by * hy) * (bx * hx + by
            * hy)),
        ({
            let p = bx * hx + by * hy;
            let n = (bx * bx + by * by) * (hx * hx + hy * hy);
            &&& -0x100_0000_0000_0000 <= 4 * p * p - 2 * n <= 0x100_0000_0000_0000
            &&& 0 <= (4 * p * p - 2 * n) * (4 * p * p - 2 * n) <= 0x1_0000_0000_0000_0000_0000_0000_0000
            &&& 0 <= 2 * n * n <= 0x1_0000_0000_0000_0000_0000_0000_0000
        }),
{
    assert(-0x400_0000 <= bx * hx <= 0x400_0000) by (nonlinear_arith)
        requires
            -VISION_RANGE <= bx <= VISION_RANGE,
            -HEADING_LIMIT <= hx <= HEADING_LIMIT,
    ;
    assert(-0x400_0000 <= by * hy <= 0x400_0000) by (nonlinear_arith)
        requires
            -VISION_RANGE <= by <= VISION_RANGE,
            -HEADING_LIMIT <= hy <= HEADING_LIMIT,
    ;
    assert(0 <= bx * bx <= 3600) by (nonlinear_arith)
        requires
            -VISION_RANGE <= bx <= VISION_RANGE,
    ;
    assert(0 <= by * by <= 3600) by (nonlinear_arith)
        requires
            -VISION_RANGE <= by <= VISION_RANGE,
    ;
    assert(0 <= hx * hx <= 0x100_0000_0000) by (nonlinear_arith)
        requires
            -HEADING_LIMIT <= hx <= HEADING_LIMIT,
    ;
    assert(0 <= hy * hy <= 0x100_0000_0000) by (nonlinear_arith)
        requires
            -HEADING_LIMIT <= hy <= HEADING_LIMIT,
    ;
    let p = bx * hx + by * hy;
    let nb = bx * bx + by * by;
    let nh = hx * hx + hy * hy;
    assert(0 <= nb * nh <= 0x40_0000_0000_0000) by (nonlinear_arith)
        requires
            0 <= nb <= 8000,
            0 <= nh <= 0x200_0000_0000,
    ;
    assert(0 <= p * p <= 0x40_0000_0000_0000) by (nonlinear_arith)
        requires
            -0x800_0000 <= p <= 0x800_0000,
    ;
    let n = nb * nh;
    let a = 4 * p * p - 2 * n;
    assert(4 * p * p == 4 * (p * p)) by (nonlinear_arith);
    assert(0 <= a * a <= 0x1_0000_0000_0000_0000_0000_0000_0000) by (nonlinear_arith)
        requires
            -0x100_0000_0000_0000 <= a <= 0x100_0000_0000_0000,
    ;
    assert(0 <= 2 * n * n <= 0x1_0000_0000_0000_0000_0000_0000_0000) by (nonlinear_arith)
        requires
            0 <= n <= 0x40_0000_0000_0000,
    ;
}

/// The vision test is inclusive at its distance boundary: a point at exactly
/// `VISION_RANGE` inside the cone is seen.
pub proof fn lemma_vision_range_inclusive(x: int, y: int, h: Heading, ox: int, oy: int)
    requires
        (ox - x) * (ox - x) + (oy - y) * (oy - y) == VISION_RANGE * VISION_RANGE,
        in_cone((h.dx as int, h.dy as int), bearing(ox - x, oy - y)),
    ensures
        sees(x, y, h, ox, oy),
{
}

proof fn lemma_sum_of_squares_positive(x: int, y: int)
    requires
        !(x == 0 && y == 0),
    ensures
        x * x + y * y > 0,
{
    assert(x * x >= 0) by (nonlinear_arith);
    assert(y * y >= 0) by (nonlinear_arith);
    if x > 0 {
        assert(x * x > 0) by (nonlinear_arith)
            requires
                x > 0,
        ;
    } else if x < 0 {
        assert(x * x > 0) by (nonlinear_arith)
            requires
                x < 0,
        ;
    } else if y > 0 {
        assert(y * y > 0) by (nonlinear_arith)
            requires
                y > 0,
        ;
    } else {
        assert(y * y > 0) by (nonlinear_arith)
            requires
                y < 0,
        ;
    }
}

/// A square is never twice a non-zero square (√2 is irrational).
proof fn lemma_square_not_twice_square(a: int, n: int)
    requires
        a >= 0,
        n > 0,
    ensures
        a * a != 2 * n * n,
    decreases n,
{
    if a * a == 2 * n * n {
        let k = a / 2;
        let r = a % 2;
        assert(a == 2 * k + r && 0 <= r < 2);
        if r == 1 {
            assert(a * a == 2 * (2 * k * k + 2 * k) + 1) by (nonlinear_arith)
                requires
                    a == 2 * k + 1,
            ;
            assert(2 * n * n == 2 * (n * n)) by (nonlinear_arith);
            let odd = 2 * k * k + 2 * k;
            let half = n * n;
            assert(2 * half == 2 * odd + 1);
        }
        assert(n * n == 2 * k * k) by (nonlinear_arith)
            requires
                a == 2 * k,
                a * a == 2 * n * n,
        ;
        let m = n / 2;
        let q = n % 2;
        assert(n == 2 * m + q && 0 <= q < 2);
        if q == 1 {
            assert(n * n == 2 * (2 * m * m + 2 * m) + 1) by (nonlinear_arith)
                requires
                    n == 2 * m + 1,
            ;
            assert(2 * k * k == 2 * (k * k)) by (nonlinear_arith);
            let odd = 2 * m * m + 2 * m;
            let half = k * k;
            assert(2 * half == 2 * odd + 1);
        }
        assert(k * k == 2 * m * m) by (nonlinear_arith)
            requires
                n == 2 * m,
                n * n == 2 * k * k,
        ;
        assert(k >= 0 && 0 < m < n);
        lemma_square_not_twice_square(k, m);
    }
}

/// The angle boundary of the cone is never met exactly: for a non-zero
/// heading and bearing, `a² == 2n²` would make √2 rational. So whether a
/// point lies inside the cone never turns on how the boundary counts; the
/// test `a² >= 2n²` counts it as inside.
pub proof fn lemma_vision_angle_boundary_unreached(h: (int, int), b: (int, int))
    requires
        !(h.0 == 0 && h.1 == 0),
        !(b.0 == 0 && b.1 == 0),
    ensures
        ({
            let p = b.0 * h.0 + b.1 * h.1;
            let n = (b.0 * b.0 + b.1 * b.1) * (h.0 * h.0 + h.1 * h.1);
            let a = 4 * p * p - 2 * n;
            a * a != 2 * n * n
        }),
{
    let p = b.0 * h.0 + b.1 * h.1;
    let nb = b.0 * b.0 + b.1 * b.1;
    let nh = h.0 * h.0 + h.1 * h.1;
    lemma_sum_of_squares_positive(b.0, b.1);
    lemma_sum_of_squares_positive(h.0, h.1);
    assert(nb * nh > 0) by (nonlinear_arith)
        requires
            nb > 0,
            nh > 0,
    ;
    let n = nb * nh;
    let a = 4 * p * p - 2 * n;
    let abs_a = if a >= 0 { a } else { -a };
    assert(abs_a * abs_a == a * a) by (nonlinear_arith)
        requires
            abs_a == a || abs_a == -a,
    ;
    lemma_square_not_twice_square(abs_a, n);
}

} // verus!
