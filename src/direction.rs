use vstd::prelude::*;

verus! {

/// Fixed-point unit of a direction component: `DIR_ONE` stands for 1.0.
pub const DIR_ONE: i64 = 16_777_216;

/// A direction in color space, each component in units of `1 / DIR_ONE`.
#[derive(Clone, Copy)]
pub struct Direction {
    pub x: i64,
    pub y: i64,
    pub z: i64,
}

impl Direction {
    /// Every component of a unit vector lies in `[-1, 1]`.
    pub open spec fn wf(&self) -> bool {
        &&& -DIR_ONE <= self.x <= DIR_ONE
        &&& -DIR_ONE <= self.y <= DIR_ONE
        &&& -DIR_ONE <= self.z <= DIR_ONE
    }

    /// The component along channel `c` (0: red, 1: green, 2: blue).
    pub open spec fn comp(&self, c: int) -> int {
        if c == 0 {
            self.x as int
        } else if c == 1 {
            self.y as int
        } else {
            self.z as int
        }
    }
}

/// Integer division rounding toward zero, for a positive divisor.
pub open spec fn trunc_div(a: int, q: int) -> int {
    if a >= 0 {
        a / q
    } else {
        -((-a) / q)
    }
}

/// `r` is the integer square root of `v`.
pub open spec fn is_isqrt(v: int, r: int) -> bool {
    0 <= r && r * r <= v < (r + 1) * (r + 1)
}

/// The squared Euclidean norm of a raw sample.
pub open spec fn norm_sq(x: int, y: int, z: int) -> int {
    x * x + y * y + z * z
}

/// Quotient of `a` by a positive `q`, rounded toward zero.
pub fn trunc_div_i128(a: i128, q: i128) -> (r: i128)
    requires
        q > 0,
        a > i128::MIN,
    ensures
        r == trunc_div(a as int, q as int),
{
    if a >= 0 {
        a / q
    } else {
        let m: i128 = -a;
        -(m / q)
    }
}

/// The integer square root of `v`, by bisection.
pub fn isqrt(v: u128) -> (r: u64)
    ensures
        is_isqrt(v as int, r as int),
{
    let mut lo: u128 = 0;
    let mut hi: u128 = 0x1_0000_0000_0000_0000;
    assert(hi * hi > v) by (nonlinear_arith)
        requires
            hi == 0x1_0000_0000_0000_0000u128,
            v <= 0xffff_ffff_ffff_ffff_ffff_ffff_ffff_ffffu128,
    ;
    while hi - lo > 1
        invariant
            lo < hi <= 0x1_0000_0000_0000_0000,
            lo * lo <= v,
            v < hi * hi,
        decreases hi - lo,
    {
        let mid: u128 = lo + (hi - lo) / 2;
        assert(mid * mid <= 0xffff_ffff_ffff_ffffu128 * 0xffff_ffff_ffff_ffffu128)
            by (nonlinear_arith)
            requires
                mid <= 0xffff_ffff_ffff_ffffu128,
        ;
        if mid * mid <= v {
            lo = mid;
        } else {
            hi = mid;
        }
    }
    assert(hi == lo + 1);
    lo as u64
}

/// A component no larger in magnitude than the root of a sum of squares that
/// contains its own square.
proof fn lemma_comp_within_root(a: int, s: int, n: int)
    requires
        a * a <= s,
        is_isqrt(s, n),
    ensures
        -n <= a <= n,
{
    if a > n {
        assert(a * a >= (n + 1) * (n + 1)) by (nonlinear_arith)
            requires
                a >= n + 1,
                n >= 0,
        ;
    }
    if a < -n {
        assert(a * a >= (n + 1) * (n + 1)) by (nonlinear_arith)
            requires
                -a >= n + 1,
                n >= 0,
        ;
    }
}

/// A scaled component `a * DIR_ONE / n` with `|a| <= n` stays within one unit.
proof fn lemma_scaled_within_one(a: int, n: int)
    requires
        n > 0,
        -n <= a <= n,
    ensures
        -DIR_ONE <= trunc_div(a * DIR_ONE, n) <= DIR_ONE,
{
    if a >= 0 {
        assert(a * DIR_ONE <= n * DIR_ONE) by (nonlinear_arith)
            requires
                a <= n,
        ;
        assert((a * DIR_ONE) / n <= DIR_ONE) by (nonlinear_arith)
            requires
                a * DIR_ONE <= n * DIR_ONE,
                n > 0,
                a >= 0,
        ;
        assert((a * DIR_ONE) / n >= 0) by (nonlinear_arith)
            requires
                a >= 0,
                n > 0,
        ;
    } else {
        assert(-(a * DIR_ONE) == (-a) * DIR_ONE) by (nonlinear_arith);
        assert((-a) * DIR_ONE <= n * DIR_ONE) by (nonlinear_arith)
            requires
                -a <= n,
        ;
        assert(((-a) * DIR_ONE) / n <= DIR_ONE) by (nonlinear_arith)
            requires
                (-a) * DIR_ONE <= n * DIR_ONE,
                n > 0,
                a < 0,
        ;
        assert(((-a) * DIR_ONE) / n >= 0) by (nonlinear_arith)
            requires
                a < 0,
                n > 0,
        ;
    }
}

/// The Euclidean norm of a direction is within `1e-5` of one:
/// `(1 - 1e-5)² <= |d|² <= (1 + 1e-5)²`, with `|d|²` in units of `DIR_ONE²`.
pub open spec fn unit_within_tolerance(d: Direction) -> bool {
    let sq = d.x * d.x + d.y * d.y + d.z * d.z;
    &&& 99_999 * 99_999 * (DIR_ONE * DIR_ONE) <= 10_000_000_000 * sq
    &&& 10_000_000_000 * sq <= 100_001 * 100_001 * (DIR_ONE * DIR_ONE)
}

proof fn lemma_trunc_div_brackets(a: int, n: int)
    requires
        n > 0,
    ensures
        0 <= abs_int(trunc_div(a, n)),
        abs_int(trunc_div(a, n)) * n <= abs_int(a) < (abs_int(trunc_div(a, n)) + 1) * n,
        trunc_div(a, n) * trunc_div(a, n) == abs_int(trunc_div(a, n)) * abs_int(trunc_div(a, n)),
{
    let v = trunc_div(a, n);
    assert(v * v == (-v) * (-v)) by (nonlinear_arith);
    let b = abs_int(a);
    assert(0 <= b / n && (b / n) * n <= b < (b / n + 1) * n) by (nonlinear_arith)
        requires
            b >= 0,
            n > 0,
    ;
}

/// Absolute value.
pub open spec fn abs_int(a: int) -> int {
    if a < 0 {
        -a
    } else {
        a
    }
}

proof fn lemma_sq_le(e: int, n: int, b: int)
    requires
        0 <= e,
        0 <= n,
        e * n <= b,
    ensures
        e * e * (n * n) <= b * b,
{
    assert(e * e * (n * n) == (e * n) * (e * n)) by (nonlinear_arith);
    assert((e * n) * (e * n) <= b * b) by (nonlinear_arith)
        requires
            0 <= e * n <= b,
    ;
}

proof fn lemma_sq_lt(e: int, n: int, b: int)
    requires
        0 <= b,
        0 <= n,
        b < (e + 1) * n,
    ensures
        b * b < (e + 1) * (e + 1) * (n * n),
{
    assert((e + 1) * (e + 1) * (n * n) == ((e + 1) * n) * ((e + 1) * n)) by (nonlinear_arith);
    assert(b * b < ((e + 1) * n) * ((e + 1) * n)) by (nonlinear_arith)
        requires
            0 <= b < (e + 1) * n,
    ;
}

/// The fixed-point normalization yields a vector whose squared norm is within
/// `[DIR_ONE² - 6 DIR_ONE - 2, DIR_ONE² + 2 DIR_ONE]`, hence a norm within
/// `1e-5` of one.
pub proof fn lemma_normalized_norm(x: int, y: int, z: int, n: int)
    requires
        !(x == 0 && y == 0 && z == 0),
        is_isqrt(norm_sq(x, y, z) * (DIR_ONE * DIR_ONE), n),
        n > 0,
    ensures
        unit_within_tolerance(
            Direction {
                x: trunc_div(x * (DIR_ONE * DIR_ONE), n) as i64,
                y: trunc_div(y * (DIR_ONE * DIR_ONE), n) as i64,
                z: trunc_div(z * (DIR_ONE * DIR_ONE), n) as i64,
            },
        ),
{
    let dd = DIR_ONE * DIR_ONE;
    let t = norm_sq(x, y, z) * dd;
    let ax = x * dd;
    let ay = y * dd;
    let az = z * dd;
    let dx = trunc_div(ax, n);
    let dy = trunc_div(ay, n);
    let dz = trunc_div(az, n);
    lemma_trunc_div_brackets(ax, n);
    lemma_trunc_div_brackets(ay, n);
    lemma_trunc_div_brackets(az, n);
    let ex = abs_int(dx);
    let ey = abs_int(dy);
    let ez = abs_int(dz);
    let bx = abs_int(ax);
    let by_ = abs_int(ay);
    let bz = abs_int(az);
    // the squared magnitudes sum to t * DIR_ONE²
    let q = dd * dd;
    assert(bx * bx == x * x * q && by_ * by_ == y * y * q && bz * bz == z * z * q)
        by (nonlinear_arith)
        requires
            bx == abs_int(ax),
            by_ == abs_int(ay),
            bz == abs_int(az),
            ax == x * dd,
            ay == y * dd,
            az == z * dd,
            q == dd * dd,
    ;
    assert(t * dd == (x * x + y * y + z * z) * q) by (nonlinear_arith)
        requires
            t == (x * x + y * y + z * z) * dd,
            q == dd * dd,
    ;
    assert(bx * bx + by_ * by_ + bz * bz == t * dd) by (nonlinear_arith)
        requires
            bx * bx == x * x * q,
            by_ * by_ == y * y * q,
            bz * bz == z * z * q,
            t * dd == (x * x + y * y + z * z) * q,
    ;
    // the root is at least DIR_ONE
    assert(norm_sq(x, y, z) >= 1) by (nonlinear_arith)
        requires
            !(x == 0 && y == 0 && z == 0),
    ;
    assert(n >= DIR_ONE) by (nonlinear_arith)
        requires
            t < (n + 1) * (n + 1),
            t == norm_sq(x, y, z) * dd,
            norm_sq(x, y, z) >= 1,
            dd == DIR_ONE * DIR_ONE,
            n >= 0,
    ;
    // upper bound
    lemma_sq_le(ex, n, bx);
    lemma_sq_le(ey, n, by_);
    lemma_sq_le(ez, n, bz);
    let e = ex * ex + ey * ey + ez * ez;
    assert(e * (n * n) <= t * dd) by (nonlinear_arith)
        requires
            ex * ex * (n * n) <= bx * bx,
            ey * ey * (n * n) <= by_ * by_,
            ez * ez * (n * n) <= bz * bz,
            bx * bx + by_ * by_ + bz * bz == t * dd,
            e == ex * ex + ey * ey + ez * ez,
    ;
    assert(t * dd < (n + 1) * (n + 1) * dd) by (nonlinear_arith)
        requires
            t < (n + 1) * (n + 1),
            dd > 0,
    ;
    assert(e <= dd + 2 * DIR_ONE) by (nonlinear_arith)
        requires
            e * (n * n) < (n + 1) * (n + 1) * dd,
            n >= DIR_ONE,
            DIR_ONE > 0,
            dd == DIR_ONE * DIR_ONE,
            e >= 0,
    ;
    // lower bound
    lemma_sq_lt(ex, n, bx);
    lemma_sq_lt(ey, n, by_);
    lemma_sq_lt(ez, n, bz);
    let f = (ex + 1) * (ex + 1) + (ey + 1) * (ey + 1) + (ez + 1) * (ez + 1);
    assert(t * dd < f * (n * n)) by (nonlinear_arith)
        requires
            bx * bx < (ex + 1) * (ex + 1) * (n * n),
            by_ * by_ < (ey + 1) * (ey + 1) * (n * n),
            bz * bz < (ez + 1) * (ez + 1) * (n * n),
            bx * bx + by_ * by_ + bz * bz == t * dd,
            f == (ex + 1) * (ex + 1) + (ey + 1) * (ey + 1) + (ez + 1) * (ez + 1),
    ;
    assert(n * n * dd <= t * dd) by (nonlinear_arith)
        requires
            n * n <= t,
            dd > 0,
    ;
    assert(dd < f) by (nonlinear_arith)
        requires
            n * n * dd < f * (n * n),
            n > 0,
    ;
    assert(ex <= DIR_ONE && ey <= DIR_ONE && ez <= DIR_ONE) by (nonlinear_arith)
        requires
            ex * ex + ey * ey + ez * ez <= dd + 2 * DIR_ONE,
            dd == DIR_ONE * DIR_ONE,
            ex >= 0,
            ey >= 0,
            ez >= 0,
            DIR_ONE == 16_777_216,
    ;
    assert(e >= dd - 6 * DIR_ONE - 2) by (nonlinear_arith)
        requires
            dd < f,
            f == (ex + 1) * (ex + 1) + (ey + 1) * (ey + 1) + (ez + 1) * (ez + 1),
            e == ex * ex + ey * ey + ez * ez,
            0 <= ex <= DIR_ONE,
            0 <= ey <= DIR_ONE,
            0 <= ez <= DIR_ONE,
    ;
    assert(dx * dx + dy * dy + dz * dz == e);
    assert(99_999 * 99_999 * (DIR_ONE * DIR_ONE) <= 10_000_000_000 * e <= 100_001 * 100_001 * (
    DIR_ONE * DIR_ONE)) by (nonlinear_arith)
        requires
            dd - 6 * DIR_ONE - 2 <= e <= dd + 2 * DIR_ONE,
            dd == DIR_ONE * DIR_ONE,
            DIR_ONE == 16_777_216,
    ;
}

/// Normalizes a raw direction sample (three quantized normal draws) to a unit
/// direction in fixed point. With `n` the integer square root of
/// `(x² + y² + z²) * DIR_ONE²` (the norm in units of `1 / DIR_ONE`), each
/// component becomes `raw * DIR_ONE² / n`, rounded toward zero. `None` exactly
/// when the sample is the zero vector.
pub fn normalize_direction(x: i32, y: i32, z: i32) -> (r: Option<Direction>)
    ensures
        r.is_none() == (x == 0 && y == 0 && z == 0),
        r matches Some(d) ==> {
            &&& d.wf()
            &&& unit_within_tolerance(d)
            &&& exists|n: int|
                #![trigger is_isqrt(norm_sq(x as int, y as int, z as int) * (DIR_ONE * DIR_ONE), n)]
                is_isqrt(norm_sq(x as int, y as int, z as int) * (DIR_ONE * DIR_ONE), n) && n > 0
                    && d.x == trunc_div(x * (DIR_ONE * DIR_ONE), n) && d.y == trunc_div(
                    y * (DIR_ONE * DIR_ONE),
                    n,
                ) && d.z == trunc_div(z * (DIR_ONE * DIR_ONE), n)
        },
{
    if x == 0 && y == 0 && z == 0 {
        return None;
    }
    let one: i128 = DIR_ONE as i128;
    let xs: i128 = x as i128 * one;
    let ys: i128 = y as i128 * one;
    let zs: i128 = z as i128 * one;
    assert(xs * xs <= 0x4000_0000_0000_0000_0000_0000_0000 && ys * ys
        <= 0x4000_0000_0000_0000_0000_0000_0000 && zs * zs <= 0x4000_0000_0000_0000_0000_0000_0000)
        by (nonlinear_arith)
        requires
            -0x80_0000_0000_0000 <= xs <= 0x7f_ffff_ff00_0000,
            -0x80_0000_0000_0000 <= ys <= 0x7f_ffff_ff00_0000,
            -0x80_0000_0000_0000 <= zs <= 0x7f_ffff_ff00_0000,
    ;
    assert(xs * xs >= 0 && ys * ys >= 0 && zs * zs >= 0) by (nonlinear_arith);
    let s: i128 = xs * xs + ys * ys + zs * zs;
    let ghost sn = norm_sq(x as int, y as int, z as int) * (DIR_ONE * DIR_ONE);
    assert(s == sn) by (nonlinear_arith)
        requires
            xs == x * DIR_ONE,
            ys == y * DIR_ONE,
            zs == z * DIR_ONE,
            s == xs * xs + ys * ys + zs * zs,
            sn == norm_sq(x as int, y as int, z as int) * (DIR_ONE * DIR_ONE),
    ;
    let n: u64 = isqrt(s as u128);
    if n == 0 {
        assert(is_isqrt(s as int, n as int));
        assert(s < 1);
        assert(false) by (nonlinear_arith)
            requires
                s < 1,
                s == xs * xs + ys * ys + zs * zs,
                xs == x * 16_777_216,
                ys == y * 16_777_216,
                zs == z * 16_777_216,
                !(x == 0 && y == 0 && z == 0),
        ;
    }
    proof {
        assert(xs * xs <= s && ys * ys <= s && zs * zs <= s);
        lemma_comp_within_root(xs as int, s as int, n as int);
        lemma_comp_within_root(ys as int, s as int, n as int);
        lemma_comp_within_root(zs as int, s as int, n as int);
        lemma_scaled_within_one(xs as int, n as int);
        lemma_scaled_within_one(ys as int, n as int);
        lemma_scaled_within_one(zs as int, n as int);
        assert(xs * DIR_ONE == x * (DIR_ONE * DIR_ONE)) by (nonlinear_arith)
            requires
                xs == x * DIR_ONE,
        ;
        assert(ys * DIR_ONE == y * (DIR_ONE * DIR_ONE)) by (nonlinear_arith)
            requires
                ys == y * DIR_ONE,
        ;
        assert(zs * DIR_ONE == z * (DIR_ONE * DIR_ONE)) by (nonlinear_arith)
            requires
                zs == z * DIR_ONE,
        ;
    }
    let nq: i128 = n as i128;
    let dx = trunc_div_i128(xs * one, nq);
    let dy = trunc_div_i128(ys * one, nq);
    let dz = trunc_div_i128(zs * one, nq);
    let d = Direction { x: dx as i64, y: dy as i64, z: dz as i64 };
    assert(is_isqrt(sn, n as int));
    proof {
        lemma_normalized_norm(x as int, y as int, z as int, n as int);
    }
    Some(d)
}

} // verus!
