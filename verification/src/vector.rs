//! Two-dimensional fixed-point vectors and direct-pursuit steering.

use vstd::prelude::*;
use vstd::math::abs;
use crate::fixed::{clamp_i32, div_toward_zero, floor_sqrt, isqrt, saturate, trunc_div};

verus! {

/// A position, velocity or impulse: two components in thousandths.
#[derive(Clone, Copy, Debug, PartialEq, Eq, Structural)]
pub struct Vec2 {
    pub x: i32,
    pub y: i32,
}

/// Directions are normalised to one part in 2^31, so that rounding the length
/// of a displacement never costs more than one thousandth of speed.
pub const DIRECTION_SCALE: i128 = 0x8000_0000;

impl Vec2 {
    pub fn new(x: i32, y: i32) -> (v: Vec2)
        ensures
            v == (Vec2 { x, y }),
    {
        Vec2 { x, y }
    }

    pub fn zero() -> (v: Vec2)
        ensures
            v == (Vec2 { x: 0, y: 0 }),
    {
        Vec2 { x: 0, y: 0 }
    }

    /// Squared length of the vector.
    pub open spec fn norm_squared(self) -> int {
        self.x * self.x + self.y * self.y
    }

    pub fn length_squared(self) -> (r: u64)
        ensures
            r == self.norm_squared(),
    {
        let x: i64 = self.x as i64;
        let y: i64 = self.y as i64;
        assert(0 <= x * x <= 0x4000_0000_0000_0000) by (nonlinear_arith)
            requires
                -0x8000_0000 <= x <= 0x8000_0000,
        ;
        assert(0 <= y * y <= 0x4000_0000_0000_0000) by (nonlinear_arith)
            requires
                -0x8000_0000 <= y <= 0x8000_0000,
        ;
        (x * x) as u64 + (y * y) as u64
    }
}

/// Squared distance between two positions.
pub open spec fn distance_squared(a: Vec2, b: Vec2) -> int {
    (b.x - a.x) * (b.x - a.x) + (b.y - a.y) * (b.y - a.y)
}

/// Computes the squared distance between two positions.
pub fn squared_distance(a: Vec2, b: Vec2) -> (r: u128)
    ensures
        r == distance_squared(a, b),
{
    let dx: i128 = b.x as i128 - a.x as i128;
    let dy: i128 = b.y as i128 - a.y as i128;
    assert(0 <= dx * dx <= 0x1_0000_0000_0000_0000) by (nonlinear_arith)
        requires
            -0x1_0000_0000 <= dx <= 0x1_0000_0000,
    ;
    assert(0 <= dy * dy <= 0x1_0000_0000_0000_0000) by (nonlinear_arith)
        requires
            -0x1_0000_0000 <= dy <= 0x1_0000_0000,
    ;
    (dx * dx) as u128 + (dy * dy) as u128
}

/// Length of the displacement `(dx, dy)` in units of `1 / DIRECTION_SCALE`,
/// rounded down.
pub open spec fn scaled_length(dx: int, dy: int) -> int {
    floor_sqrt((dx * dx + dy * dy) * (DIRECTION_SCALE * DIRECTION_SCALE))
}

/// One component of a velocity of magnitude `speed` along a displacement whose
/// scaled length is `len`: `d * speed / length`, rounded toward zero and held
/// to the component range.
pub open spec fn scaled_component(d: int, speed: int, len: int) -> int {
    clamp_i32(trunc_div(d * speed * DIRECTION_SCALE, len))
}

/// Velocity of magnitude `speed` pointing from `from` straight at `to`; zero
/// where the two coincide and there is no direction to take.
pub open spec fn pursuit(from: Vec2, to: Vec2, speed: int) -> Vec2 {
    let dx = to.x - from.x;
    let dy = to.y - from.y;
    if dx == 0 && dy == 0 {
        Vec2 { x: 0, y: 0 }
    } else {
        let len = scaled_length(dx, dy);
        Vec2 {
            x: scaled_component(dx, speed, len) as i32,
            y: scaled_component(dy, speed, len) as i32,
        }
    }
}

/// Computes the direct-pursuit velocity from `from` toward `to`.
pub fn pursue(from: Vec2, to: Vec2, speed: i32) -> (v: Vec2)
    ensures
        v == pursuit(from, to, speed as int),
{
    let dx: i128 = to.x as i128 - from.x as i128;
    let dy: i128 = to.y as i128 - from.y as i128;
    if dx == 0 && dy == 0 {
        return Vec2::zero();
    }
    let d2: u128 = squared_distance(from, to);
    assert(1 <= d2 <= 0x2_0000_0000_0000_0000) by (nonlinear_arith)
        requires
            d2 == dx * dx + dy * dy,
            dx != 0 || dy != 0,
            -0x1_0000_0000 <= dx <= 0x1_0000_0000,
            -0x1_0000_0000 <= dy <= 0x1_0000_0000,
    ;
    let k2: u128 = (DIRECTION_SCALE * DIRECTION_SCALE) as u128;
    assert(k2 <= d2 * k2 <= u128::MAX) by (nonlinear_arith)
        requires
            1 <= d2 <= 0x2_0000_0000_0000_0000,
            k2 == 0x4000_0000_0000_0000,
    ;
    let len: u64 = isqrt(d2 * k2);
    assert(len >= 1) by {
        if len == 0 {
            assert((len + 1) * (len + 1) == 1);
        }
    }
    let s: i128 = speed as i128;
    assert(-0x1_0000_0000_0000_0000 <= dx * s <= 0x1_0000_0000_0000_0000) by (nonlinear_arith)
        requires
            -0x1_0000_0000 <= dx <= 0x1_0000_0000,
            -0x1_0000_0000 <= s <= 0x1_0000_0000,
    ;
    assert(-0x1_0000_0000_0000_0000 <= dy * s <= 0x1_0000_0000_0000_0000) by (nonlinear_arith)
        requires
            -0x1_0000_0000 <= dy <= 0x1_0000_0000,
            -0x1_0000_0000 <= s <= 0x1_0000_0000,
    ;
    let vx: i32 = saturate(div_toward_zero(dx * s * DIRECTION_SCALE, len as i128));
    let vy: i32 = saturate(div_toward_zero(dy * s * DIRECTION_SCALE, len as i128));
    Vec2 { x: vx, y: vy }
}

// Floor division of a non-negative numerator brackets it between two
// multiples of the divisor.
proof fn lemma_floor_div_bounds(n: int, d: int)
    requires
        n >= 0,
        d > 0,
    ensures
        0 <= n / d,
        (n / d) * d <= n,
        n < (n / d + 1) * d,
{
    vstd::arithmetic::div_mod::lemma_fundamental_div_mod(n, d);
    vstd::arithmetic::div_mod::lemma_mod_bound(n, d);
    vstd::arithmetic::div_mod::lemma_div_pos_is_pos(n, d);
    assert((n / d + 1) * d == (n / d) * d + d) by (nonlinear_arith);
    assert(d * (n / d) == (n / d) * d) by (nonlinear_arith);
}

// Squaring keeps the order of non-negative integers.
proof fn lemma_square_le(a: int, b: int)
    requires
        0 <= a <= b,
    ensures
        a * a <= b * b,
{
    assert(a * a <= b * b) by (nonlinear_arith)
        requires
            0 <= a <= b,
    ;
}

// The square of a product of three is the product of the squares.
proof fn lemma_square_of_product(x: int, y: int, z: int)
    ensures
        (x * y * z) * (x * y * z) == ((x * x) * (y * y)) * (z * z),
{
    let xy = x * y;
    assert((xy * z) * (xy * z) == (xy * xy) * (z * z)) by (nonlinear_arith);
    assert(xy * xy == (x * x) * (y * y)) by (nonlinear_arith)
        requires
            xy == x * y,
    ;
}

proof fn lemma_square_lt(a: int, b: int)
    requires
        0 <= a < b,
    ensures
        a * a < b * b,
{
    assert(a * a < b * b) by (nonlinear_arith)
        requires
            0 <= a < b,
    ;
}

// What rounding toward zero and saturation leave of one component: with `q`
// the floor of `|d| * |speed| * DIRECTION_SCALE / len`, the component's
// magnitude is `q`, or `q - 1` where saturation cut it.
proof fn lemma_component_magnitude(d: int, speed: int, len: int) -> (q: int)
    requires
        len > 0,
        i32::MIN <= speed <= i32::MAX,
        abs(d) * DIRECTION_SCALE <= len,
    ensures
        q == (abs(d) * abs(speed) * DIRECTION_SCALE) / len,
        0 <= q <= abs(speed),
        q - 1 <= abs(scaled_component(d, speed, len)) <= q,
        q * len <= abs(d) * abs(speed) * DIRECTION_SCALE,
        abs(d) * abs(speed) * DIRECTION_SCALE < (q + 1) * len,
        d * speed * DIRECTION_SCALE >= 0 ==> 0 <= scaled_component(d, speed, len),
        d * speed * DIRECTION_SCALE <= 0 ==> scaled_component(d, speed, len) <= 0,
        -2 * len < scaled_component(d, speed, len) * len - d * speed * DIRECTION_SCALE < 2 * len,
{
    let k = DIRECTION_SCALE as int;
    let n = abs(d) * abs(speed) * k;
    let m = d * speed * k;
    assert(n >= 0 && (m == n || m == -n)) by (nonlinear_arith)
        requires
            n == abs(d) * abs(speed) * k,
            m == d * speed * k,
            k == 0x8000_0000,
            abs(d) == d || abs(d) == -d,
            abs(speed) == speed || abs(speed) == -speed,
            abs(d) >= 0,
            abs(speed) >= 0,
    ;
    let q = n / len;
    lemma_floor_div_bounds(n, len);
    assert(n <= abs(speed) * len) by (nonlinear_arith)
        requires
            n == abs(d) * abs(speed) * k,
            abs(d) * k <= len,
            abs(speed) >= 0,
    ;
    assert(q <= abs(speed)) by (nonlinear_arith)
        requires
            q * len <= n,
            n <= abs(speed) * len,
            len > 0,
            q >= 0,
            abs(speed) >= 0,
    ;
    let c = scaled_component(d, speed, len);
    if m >= 0 {
        assert(m == n);
        assert(trunc_div(m, len) == q);
        assert(c == q || c == q - 1);
    } else {
        assert(-m == n);
        assert(trunc_div(m, len) == -q);
        assert(c == -q);
    }
    assert(-2 * len < c * len - m < 2 * len) by (nonlinear_arith)
        requires
            len > 0,
            q * len <= n,
            n < (q + 1) * len,
            (m == n && (c == q || c == q - 1)) || (m == -n && c == -q),
    ;
    q
}

// The scaled length of a displacement that is not zero: at least the scale,
// and at least each of the scaled components.
proof fn lemma_scaled_length(dx: int, dy: int) -> (len: int)
    requires
        dx != 0 || dy != 0,
    ensures
        len == scaled_length(dx, dy),
        crate::fixed::is_floor_sqrt(
            (dx * dx + dy * dy) * (DIRECTION_SCALE * DIRECTION_SCALE),
            len,
        ),
        len >= DIRECTION_SCALE,
        abs(dx) * DIRECTION_SCALE <= len,
        abs(dy) * DIRECTION_SCALE <= len,
{
    let k = DIRECTION_SCALE as int;
    let dd = dx * dx + dy * dy;
    let n = dd * (k * k);
    assert(dd >= 1 && dx * dx >= 0 && dy * dy >= 0) by (nonlinear_arith)
        requires
            dd == dx * dx + dy * dy,
            dx != 0 || dy != 0,
    ;
    assert(n >= k * k) by (nonlinear_arith)
        requires
            n == dd * (k * k),
            dd >= 1,
    ;
    crate::fixed::lemma_floor_sqrt_exists(n);
    let len = scaled_length(dx, dy);
    assert(len == floor_sqrt(n));
    assert(len >= k) by {
        if len < k {
            lemma_square_le(len + 1, k);
        }
    }
    assert(abs(dx) * k <= len) by {
        if abs(dx) * k > len {
            lemma_square_le(len + 1, abs(dx) * k);
            assert((abs(dx) * k) * (abs(dx) * k) <= n) by (nonlinear_arith)
                requires
                    n == (dx * dx + dy * dy) * (k * k),
                    abs(dx) == dx || abs(dx) == -dx,
                    dy * dy >= 0,
                    k == 0x8000_0000,
            ;
        }
    }
    assert(abs(dy) * k <= len) by {
        if abs(dy) * k > len {
            lemma_square_le(len + 1, abs(dy) * k);
            assert((abs(dy) * k) * (abs(dy) * k) <= n) by (nonlinear_arith)
                requires
                    n == (dx * dx + dy * dy) * (k * k),
                    abs(dy) == dy || abs(dy) == -dy,
                    dx * dx >= 0,
                    k == 0x8000_0000,
            ;
        }
    }
    len
}

/// A pursuit velocity has the magnitude asked for: short of `|speed|` by less
/// than three thousandths, and above it by less than one. The direction
/// varies with the two positions; the magnitude does not.
pub proof fn lemma_pursuit_magnitude(from: Vec2, to: Vec2, speed: i32)
    requires
        from != to,
    ensures
        pursuit(from, to, speed as int).norm_squared() < (abs(speed as int) + 1) * (abs(speed as int) + 1),
        abs(speed as int) >= 3 ==> (abs(speed as int) - 3) * (abs(speed as int) - 3) <= pursuit(
            from,
            to,
            speed as int,
        ).norm_squared(),
{
    let dx = to.x - from.x;
    let dy = to.y - from.y;
    let k = DIRECTION_SCALE as int;
    let a = abs(speed as int) as int;
    let n = (dx * dx + dy * dy) * (k * k);
    let len = lemma_scaled_length(dx, dy);
    let qx = lemma_component_magnitude(dx, speed as int, len);
    let qy = lemma_component_magnitude(dy, speed as int, len);
    let v = pursuit(from, to, speed as int);
    let p = abs(v.x as int) as int;
    let q = abs(v.y as int) as int;
    assert(v.x == scaled_component(dx, speed as int, len));
    assert(v.y == scaled_component(dy, speed as int, len));
    assert(v.norm_squared() == p * p + q * q) by (nonlinear_arith)
        requires
            v.norm_squared() == v.x * v.x + v.y * v.y,
            p == v.x || p == -v.x,
            q == v.y || q == -v.y,
    ;
    let nx = abs(dx) * a * k;
    let ny = abs(dy) * a * k;
    // nx^2 + ny^2 == a^2 * n
    assert(nx * nx + ny * ny == (a * a) * n) by {
        let ax = abs(dx) as int;
        let ay = abs(dy) as int;
        lemma_square_of_product(ax, a, k);
        lemma_square_of_product(ay, a, k);
        assert(ax * ax == dx * dx) by (nonlinear_arith)
            requires
                ax == dx || ax == -dx,
        ;
        assert(ay * ay == dy * dy) by (nonlinear_arith)
            requires
                ay == dy || ay == -dy,
        ;
        let u = dx * dx;
        let w = dy * dy;
        let aa = a * a;
        let kk = k * k;
        assert((u * aa) * kk + (w * aa) * kk == aa * ((u + w) * kk)) by (nonlinear_arith);
    }
    // Above: the quotients, and so the components, stay under |speed| + 1.
    lemma_square_le(p, qx);
    lemma_square_le(q, qy);
    lemma_square_le(qx * len, nx);
    lemma_square_le(qy * len, ny);
    let big = qx * qx + qy * qy;
    assert((qx * len) * (qx * len) + (qy * len) * (qy * len) == big * (len * len)) by (nonlinear_arith)
        requires
            big == qx * qx + qy * qy,
    ;
    assert(big < (a + 1) * (a + 1)) by {
        if a == 0 {
            assert(qx == 0 && qy == 0);
            assert(big == 0) by (nonlinear_arith)
                requires
                    big == qx * qx + qy * qy,
                    qx == 0,
                    qy == 0,
            ;
            assert((a + 1) * (a + 1) == 1) by (nonlinear_arith)
                requires
                    a == 0,
            ;
        } else if big >= (a + 1) * (a + 1) {
            // big * len^2 >= ((a + 1) * len)^2 >= (a * (len + 1))^2 > a^2 * n
            assert(big * (len * len) >= (a * (len + 1)) * (a * (len + 1))) by (nonlinear_arith)
                requires
                    big >= (a + 1) * (a + 1),
                    0 < a <= len,
            ;
            assert((a * a) * n < (a * (len + 1)) * (a * (len + 1))) by (nonlinear_arith)
                requires
                    n < (len + 1) * (len + 1),
                    a > 0,
            ;
        }
    }
    // Below: the quotients fall short of their exact values by less than one.
    lemma_square_lt(nx, (qx + 1) * len);
    lemma_square_lt(ny, (qy + 1) * len);
    let up = (qx + 1) * (qx + 1) + (qy + 1) * (qy + 1);
    assert(((qx + 1) * len) * ((qx + 1) * len) + ((qy + 1) * len) * ((qy + 1) * len) == up * (len
        * len)) by (nonlinear_arith)
        requires
            up == (qx + 1) * (qx + 1) + (qy + 1) * (qy + 1),
    ;
    assert(up > a * a) by (nonlinear_arith)
        requires
            up * (len * len) > (a * a) * n,
            n >= len * len,
            len > 0,
            a >= 0,
    ;
    lemma_square_le(qx + 1, p + 2);
    lemma_square_le(qy + 1, q + 2);
    if a >= 3 {
        let m = p * p + q * q;
        if m < (a - 3) * (a - 3) {
            assert((4 * (p + q)) * (4 * (p + q)) <= 32 * m) by (nonlinear_arith)
                requires
                    m == p * p + q * q,
            ;
            assert(4 * (p + q) < 6 * (a - 3)) by (nonlinear_arith)
                requires
                    (4 * (p + q)) * (4 * (p + q)) <= 32 * m,
                    m < (a - 3) * (a - 3),
                    a >= 3,
                    p >= 0,
                    q >= 0,
            ;
            assert((p + 2) * (p + 2) + (q + 2) * (q + 2) < a * a) by (nonlinear_arith)
                requires
                    m == p * p + q * q,
                    m < (a - 3) * (a - 3),
                    4 * (p + q) < 6 * (a - 3),
            ;
        }
    }
}

/// A pursuit velocity points from `from` at `to`. Each component has the sign
/// of the displacement along it, or the opposite sign where the speed is
/// negative; and the velocity is parallel to the displacement to within
/// rounding: the cross product of the two is smaller in magnitude than twice
/// the sum of the displacement's components.
pub proof fn lemma_pursuit_direction(from: Vec2, to: Vec2, speed: i32)
    requires
        from != to,
    ensures
        ({
            let v = pursuit(from, to, speed as int);
            let dx = to.x - from.x;
            let dy = to.y - from.y;
            &&& speed >= 0 ==> v.x * dx >= 0 && v.y * dy >= 0
            &&& speed <= 0 ==> v.x * dx <= 0 && v.y * dy <= 0
            &&& -2 * (abs(dx) + abs(dy)) < v.x * dy - v.y * dx < 2 * (abs(dx) + abs(dy))
        }),
{
    let dx = to.x - from.x;
    let dy = to.y - from.y;
    let k = DIRECTION_SCALE as int;
    let s = speed as int;
    let len = lemma_scaled_length(dx, dy);
    lemma_component_magnitude(dx, s, len);
    lemma_component_magnitude(dy, s, len);
    let v = pursuit(from, to, s);
    let vx = v.x as int;
    let vy = v.y as int;
    assert(vx == scaled_component(dx, s, len));
    assert(vy == scaled_component(dy, s, len));
    let mx = dx * s * k;
    let my = dy * s * k;
    // Signs.
    assert(s >= 0 ==> vx * dx >= 0) by (nonlinear_arith)
        requires
            mx == dx * s * k,
            k == 0x8000_0000,
            mx >= 0 ==> 0 <= vx,
            mx <= 0 ==> vx <= 0,
    ;
    assert(s >= 0 ==> vy * dy >= 0) by (nonlinear_arith)
        requires
            my == dy * s * k,
            k == 0x8000_0000,
            my >= 0 ==> 0 <= vy,
            my <= 0 ==> vy <= 0,
    ;
    assert(s <= 0 ==> vx * dx <= 0) by (nonlinear_arith)
        requires
            mx == dx * s * k,
            k == 0x8000_0000,
            mx >= 0 ==> 0 <= vx,
            mx <= 0 ==> vx <= 0,
    ;
    assert(s <= 0 ==> vy * dy <= 0) by (nonlinear_arith)
        requires
            my == dy * s * k,
            k == 0x8000_0000,
            my >= 0 ==> 0 <= vy,
            my <= 0 ==> vy <= 0,
    ;
    // The cross product, scaled by the length, is what rounding left over.
    let rx = vx * len - mx;
    let ry = vy * len - my;
    let cross = vx * dy - vy * dx;
    assert(cross * len == rx * dy - ry * dx) by {
        let sk = s * k;
        assert(mx == dx * sk && my == dy * sk) by (nonlinear_arith)
            requires
                mx == dx * s * k,
                my == dy * s * k,
                sk == s * k,
        ;
        assert(mx * dy == my * dx) by (nonlinear_arith)
            requires
                mx == dx * sk,
                my == dy * sk,
        ;
        let px = vx * len;
        let py = vy * len;
        assert(cross * len == px * dy - py * dx) by (nonlinear_arith)
            requires
                cross == vx * dy - vy * dx,
                px == vx * len,
                py == vy * len,
        ;
        assert(rx * dy == px * dy - mx * dy) by (nonlinear_arith)
            requires
                rx == px - mx,
        ;
        assert(ry * dx == py * dx - my * dx) by (nonlinear_arith)
            requires
                ry == py - my,
        ;
    }
    let ax = abs(dx) as int;
    let ay = abs(dy) as int;
    assert(-2 * len * ay <= rx * dy <= 2 * len * ay) by (nonlinear_arith)
        requires
            -2 * len < rx < 2 * len,
            ay == dy || ay == -dy,
            ay >= 0,
            len > 0,
    ;
    assert(-2 * len * ax <= ry * dx <= 2 * len * ax) by (nonlinear_arith)
        requires
            -2 * len < ry < 2 * len,
            ax == dx || ax == -dx,
            ax >= 0,
            len > 0,
    ;
    // One of the two components is not zero, and on it the bound is strict.
    assert(-2 * len * (ax + ay) < cross * len < 2 * len * (ax + ay)) by (nonlinear_arith)
        requires
            cross * len == rx * dy - ry * dx,
            -2 * len < rx < 2 * len,
            -2 * len < ry < 2 * len,
            ax == dx || ax == -dx,
            ay == dy || ay == -dy,
            ax >= 0,
            ay >= 0,
            ax > 0 || ay > 0,
            len > 0,
    ;
    assert(-2 * (ax + ay) < cross < 2 * (ax + ay)) by (nonlinear_arith)
        requires
            -2 * len * (ax + ay) < cross * len < 2 * len * (ax + ay),
            len > 0,
    ;
}

} // verus!
