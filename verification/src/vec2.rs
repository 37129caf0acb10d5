//! Fixed-point planar vectors and the integer arithmetic the simulation is
//! built on: truncating and rounding division, integer square roots, and
//! length-limited scaling of vectors.
//!
//! A coordinate counts milliunits: `SCALE` subunits make one world unit.

use vstd::prelude::*;

verus! {

/// Fixed-point subunits per world unit.
pub const SCALE: i64 = 1000;

/// Largest coordinate magnitude (in subunits) the simulation accepts;
/// keeps every intermediate product inside `i64`.
pub const COORD_LIMIT: i64 = 1_000_000_000;

/// Largest component magnitude accepted by the squared-norm helpers:
/// `2 * NORM_LIMIT * NORM_LIMIT` still fits in `i64`.
pub const NORM_LIMIT: i64 = 2_100_000_000;

/// Truncating division (quotient rounded toward zero), the behaviour of
/// `/` on machine integers, stated over mathematical integers.
pub open spec fn stdiv(a: int, b: int) -> int
    recommends
        b > 0,
{
    if a >= 0 {
        a / b
    } else {
        -((-a) / b)
    }
}

/// Rounding division: nearest integer, halves away from zero.
pub open spec fn srdiv(a: int, b: int) -> int
    recommends
        b > 0,
{
    if a >= 0 {
        (a + b / 2) / b
    } else {
        -((-a + b / 2) / b)
    }
}

/// The integer square root: the largest `r` with `r * r <= n`.
pub open spec fn spec_isqrt(n: nat) -> nat
    decreases n,
{
    if n == 0 {
        0
    } else {
        let r = spec_isqrt((n - 1) as nat);
        if (r + 1) * (r + 1) <= n {
            r + 1
        } else {
            r
        }
    }
}

/// `spec_isqrt` is exactly the integer square root.
pub proof fn lemma_isqrt(n: nat)
    ensures
        (spec_isqrt(n) as int) * (spec_isqrt(n) as int) <= n as int,
        (n as int) < (spec_isqrt(n) + 1) * (spec_isqrt(n) + 1),
    decreases n,
{
    let si = spec_isqrt(n) as int;
    let ni = n as int;
    if n == 0 {
        assert(si == 0);
        assert(si * si <= ni && ni < (si + 1) * (si + 1)) by (nonlinear_arith)
            requires
                si == 0,
                ni == 0,
        ;
    } else {
        lemma_isqrt((n - 1) as nat);
        let r = spec_isqrt((n - 1) as nat) as int;
        assert(r >= 0);
        assert(r * r <= ni - 1);
        assert(ni - 1 < (r + 1) * (r + 1));
        if (r + 1) * (r + 1) <= ni {
            assert(si == r + 1);
            assert(si * si <= ni);
            assert(ni < (si + 1) * (si + 1)) by (nonlinear_arith)
                requires
                    si == r + 1,
                    ni <= (r + 1) * (r + 1),
                    r >= 0,
            ;
        } else {
            assert(si == r);
            assert(si * si <= ni);
            assert(ni < (si + 1) * (si + 1));
        }
    }
}

/// `stdiv` never grows a magnitude: `|stdiv(a, b)| * b <= |a|`.
pub proof fn lemma_stdiv_mag(a: int, b: int)
    requires
        b > 0,
    ensures
        a >= 0 ==> 0 <= stdiv(a, b) && stdiv(a, b) * b <= a,
        a < 0 ==> stdiv(a, b) <= 0 && -(stdiv(a, b) * b) <= -a,
        a == 0 ==> stdiv(a, b) == 0,
{
    if a >= 0 {
        assert(0 <= a / b && (a / b) * b <= a) by (nonlinear_arith)
            requires
                a >= 0,
                b > 0,
        ;
    } else {
        let q = (-a) / b;
        assert(0 <= q && q * b <= -a) by (nonlinear_arith)
            requires
                a < 0,
                b > 0,
                q == (-a) / b,
        ;
        assert(stdiv(a, b) == -q);
        assert((-q) * b == -(q * b)) by (nonlinear_arith);
    }
}

/// A bound on the dividend carries to the quotient: if `|a| <= b * c`
/// then `|stdiv(a, b)| <= c`.
pub proof fn lemma_stdiv_bound(a: int, b: int, c: int)
    requires
        b > 0,
        c >= 0,
        -(b * c) <= a <= b * c,
    ensures
        -c <= stdiv(a, b) <= c,
{
    if a >= 0 {
        assert(a / b <= c) by (nonlinear_arith)
            requires
                b > 0,
                c >= 0,
                0 <= a <= b * c,
        ;
        assert(a / b >= 0) by (nonlinear_arith)
            requires
                a >= 0,
                b > 0,
        ;
    } else {
        assert((-a) / b <= c) by (nonlinear_arith)
            requires
                b > 0,
                c >= 0,
                0 <= -a <= b * c,
        ;
        assert((-a) / b >= 0) by (nonlinear_arith)
            requires
                a < 0,
                b > 0,
        ;
    }
}

/// Truncating division on machine integers, rounding toward zero.
pub fn div_trunc(a: i64, b: i64) -> (r: i64)
    requires
        b > 0,
        a > i64::MIN,
    ensures
        r == stdiv(a as int, b as int),
        -(if a >= 0 { a as int } else { -(a as int) }) <= r <= (if a >= 0 {
            a as int
        } else {
            -(a as int)
        }),
{
    proof {
        let m: int = if a >= 0 {
            a as int
        } else {
            -(a as int)
        };
        assert(b * m >= m) by (nonlinear_arith)
            requires
                b >= 1,
                m >= 0,
        ;
        lemma_stdiv_bound(a as int, b as int, m);
    }
    if a >= 0 {
        let q: u64 = (a as u64) / (b as u64);
        q as i64
    } else {
        let n: i64 = -a;
        let q: u64 = (n as u64) / (b as u64);
        -(q as i64)
    }
}

/// Truncating division on wide machine integers, rounding toward zero.
pub fn div_trunc_wide(a: i128, b: i128) -> (r: i128)
    requires
        b > 0,
        a > i128::MIN,
    ensures
        r == stdiv(a as int, b as int),
        -(if a >= 0 { a as int } else { -(a as int) }) <= r <= (if a >= 0 {
            a as int
        } else {
            -(a as int)
        }),
{
    proof {
        let m: int = if a >= 0 {
            a as int
        } else {
            -(a as int)
        };
        assert(b * m >= m) by (nonlinear_arith)
            requires
                b >= 1,
                m >= 0,
        ;
        lemma_stdiv_bound(a as int, b as int, m);
    }
    if a >= 0 {
        let q: u128 = (a as u128) / (b as u128);
        q as i128
    } else {
        let n: i128 = -a;
        let q: u128 = (n as u128) / (b as u128);
        -(q as i128)
    }
}

/// Rounding division on machine integers: nearest integer, halves away
/// from zero.
pub fn div_round(a: i64, b: i64) -> (r: i64)
    requires
        b > 0,
        a > i64::MIN,
    ensures
        r == srdiv(a as int, b as int),
        -(if a >= 0 { a as int } else { -(a as int) }) <= r <= (if a >= 0 {
            a as int
        } else {
            -(a as int)
        }),
{
    proof {
        let m: int = if a >= 0 {
            a as int
        } else {
            -(a as int)
        };
        let bi = b as int;
        assert(0 <= (m + bi / 2) / bi <= m) by (nonlinear_arith)
            requires
                bi > 0,
                m >= 0,
        ;
    }
    if a >= 0 {
        let q: u64 = ((a as u64) + (b as u64) / 2) / (b as u64);
        q as i64
    } else {
        let n: i64 = -a;
        let q: u64 = ((n as u64) + (b as u64) / 2) / (b as u64);
        -(q as i64)
    }
}

/// Integer square root on machine integers, by binary search.
pub fn isqrt(n: i64) -> (r: i64)
    requires
        n >= 0,
    ensures
        r == spec_isqrt(n as nat),
        0 <= r <= n,
        r * r <= n < (r + 1) * (r + 1),
{
    proof {
        lemma_isqrt(n as nat);
        let s = spec_isqrt(n as nat) as int;
        assert(s <= n) by (nonlinear_arith)
            requires
                s >= 0,
                s * s <= n,
        ;
    }
    let mut lo: i64 = 0;
    let mut hi: i64 = 3_037_000_500;
    if n < hi {
        hi = n + 1;
    }
    proof {
        assert(n < hi * hi) by (nonlinear_arith)
            requires
                0 <= n,
                (hi == n + 1) || (hi == 3_037_000_500 && n <= 0x7fff_ffff_ffff_ffff),
        ;
    }
    while lo + 1 < hi
        invariant
            0 <= lo < hi <= 3_037_000_500,
            lo * lo <= n,
            n < hi * hi,
            n >= 0,
        decreases hi - lo,
    {
        let mid: i64 = (((lo as u64) + (hi as u64)) / 2) as i64;
        proof {
            assert(lo < mid < hi && mid * mid < i64::MAX) by (nonlinear_arith)
                requires
                    0 <= lo,
                    lo + 1 < hi <= 3_037_000_500,
                    mid == (lo + hi) / 2,
            ;
        }
        if mid * mid <= n {
            lo = mid;
        } else {
            hi = mid;
        }
    }
    proof {
        lemma_isqrt(n as nat);
        let s = spec_isqrt(n as nat) as int;
        assert(s == lo) by (nonlinear_arith)
            requires
                s >= 0,
                lo >= 0,
                s * s <= n < (s + 1) * (s + 1),
                lo * lo <= n < (lo + 1) * (lo + 1),
        ;
    }
    lo
}

/// A planar fixed-point vector; each component counts milliunits.
#[derive(Clone, Copy, PartialEq, Eq, Structural, Debug)]
pub struct Vec2 {
    pub x: i64,
    pub y: i64,
}

/// A vector scaled onto (at most) magnitude `m`, over mathematical
/// integers: each component becomes `c * m / (len + 1)` with `len` the
/// integer length, so the result's length never exceeds `m`.
pub open spec fn spec_scaled(x: int, y: int, m: int) -> (int, int) {
    let l = spec_isqrt((x * x + y * y) as nat) as int;
    (stdiv(x * m, l + 1), stdiv(y * m, l + 1))
}

/// A vector clamped to magnitude at most `m`: unchanged when already
/// short enough, otherwise rescaled by `spec_scaled`.
pub open spec fn spec_clamp(x: int, y: int, m: int) -> (int, int) {
    if x * x + y * y <= m * m {
        (x, y)
    } else {
        spec_scaled(x, y, m)
    }
}

/// `spec_scaled` keeps the squared length at most `m * m`, bounds each
/// component by `m`, and never flips a component's sign.
pub proof fn lemma_scaled_bounds(x: int, y: int, m: int)
    requires
        m >= 0,
    ensures
        spec_scaled(x, y, m).0 * spec_scaled(x, y, m).0 + spec_scaled(x, y, m).1 * spec_scaled(
            x,
            y,
            m,
        ).1 <= m * m,
        -m <= spec_scaled(x, y, m).0 <= m,
        -m <= spec_scaled(x, y, m).1 <= m,
        x == 0 ==> spec_scaled(x, y, m).0 == 0,
        y == 0 ==> spec_scaled(x, y, m).1 == 0,
        x > 0 ==> spec_scaled(x, y, m).0 >= 0,
        x < 0 ==> spec_scaled(x, y, m).0 <= 0,
        y > 0 ==> spec_scaled(x, y, m).1 >= 0,
        y < 0 ==> spec_scaled(x, y, m).1 <= 0,
{
    let s = x * x + y * y;
    assert(x * x >= 0 && y * y >= 0) by (nonlinear_arith);
    lemma_isqrt(s as nat);
    let l = spec_isqrt(s as nat) as int;
    let (rx, ry) = spec_scaled(x, y, m);
    lemma_stdiv_mag(x * m, l + 1);
    lemma_stdiv_mag(y * m, l + 1);
    assert(x > 0 ==> x * m >= 0) by (nonlinear_arith)
        requires
            m >= 0,
    ;
    assert(x < 0 ==> x * m <= 0) by (nonlinear_arith)
        requires
            m >= 0,
    ;
    assert(y > 0 ==> y * m >= 0) by (nonlinear_arith)
        requires
            m >= 0,
    ;
    assert(y < 0 ==> y * m <= 0) by (nonlinear_arith)
        requires
            m >= 0,
    ;
    assert(x == 0 ==> x * m == 0) by (nonlinear_arith);
    assert(y == 0 ==> y * m == 0) by (nonlinear_arith);
    assert(rx * rx * ((l + 1) * (l + 1)) <= (x * m) * (x * m)) by (nonlinear_arith)
        requires
            l >= 0,
            (rx >= 0 && rx * (l + 1) <= x * m) || (rx <= 0 && -(rx * (l + 1)) <= -(x * m)),
    ;
    assert(ry * ry * ((l + 1) * (l + 1)) <= (y * m) * (y * m)) by (nonlinear_arith)
        requires
            l >= 0,
            (ry >= 0 && ry * (l + 1) <= y * m) || (ry <= 0 && -(ry * (l + 1)) <= -(y * m)),
    ;
    assert((x * m) * (x * m) + (y * m) * (y * m) == s * (m * m)) by (nonlinear_arith)
        requires
            s == x * x + y * y,
    ;
    assert(rx * rx >= 0 && ry * ry >= 0 && m * m >= 0) by (nonlinear_arith);
    assert(rx * rx + ry * ry <= m * m) by (nonlinear_arith)
        requires
            rx * rx * ((l + 1) * (l + 1)) + ry * ry * ((l + 1) * (l + 1)) <= s * (m * m),
            s < (l + 1) * (l + 1),
            l >= 0,
            rx * rx >= 0,
            ry * ry >= 0,
            m * m >= 0,
    ;
    assert(-m <= rx <= m && -m <= ry <= m) by (nonlinear_arith)
        requires
            rx * rx + ry * ry <= m * m,
            m >= 0,
            rx * rx >= 0,
            ry * ry >= 0,
    ;
}

impl Vec2 {
    /// The squared Euclidean length, over mathematical integers.
    pub open spec fn spec_norm_sq(self) -> int {
        self.x * self.x + self.y * self.y
    }

    /// Both components lie in `[-b, b]`.
    pub open spec fn in_range(self, b: int) -> bool {
        &&& -b <= self.x <= b
        &&& -b <= self.y <= b
    }

    /// The origin vector.
    pub fn zero() -> (r: Self)
        ensures
            r == (Vec2 { x: 0, y: 0 }),
    {
        Vec2 { x: 0, y: 0 }
    }

    /// Component-wise sum.
    pub fn plus(self, o: Self) -> (r: Self)
        requires
            i64::MIN <= self.x + o.x <= i64::MAX,
            i64::MIN <= self.y + o.y <= i64::MAX,
        ensures
            r.x == self.x + o.x,
            r.y == self.y + o.y,
    {
        Vec2 { x: self.x + o.x, y: self.y + o.y }
    }

    /// Component-wise difference.
    pub fn minus(self, o: Self) -> (r: Self)
        requires
            i64::MIN <= self.x - o.x <= i64::MAX,
            i64::MIN <= self.y - o.y <= i64::MAX,
        ensures
            r.x == self.x - o.x,
            r.y == self.y - o.y,
    {
        Vec2 { x: self.x - o.x, y: self.y - o.y }
    }

    /// The squared Euclidean length.
    pub fn norm_sq(self) -> (r: i64)
        requires
            self.in_range(NORM_LIMIT as int),
        ensures
            r == self.spec_norm_sq(),
    {
        proof {
            assert(0 <= self.x * self.x <= NORM_LIMIT * NORM_LIMIT && 0 <= self.y * self.y
                <= NORM_LIMIT * NORM_LIMIT) by (nonlinear_arith)
                requires
                    -NORM_LIMIT <= self.x <= NORM_LIMIT,
                    -NORM_LIMIT <= self.y <= NORM_LIMIT,
            ;
        }
        self.x * self.x + self.y * self.y
    }

    /// The Euclidean length, rounded down to an integer.
    pub fn length(self) -> (r: i64)
        requires
            self.in_range(NORM_LIMIT as int),
        ensures
            r == spec_isqrt(self.spec_norm_sq() as nat),
            0 <= r,
            r * r <= self.spec_norm_sq() < (r + 1) * (r + 1),
    {
        let s = self.norm_sq();
        proof {
            assert(self.x * self.x >= 0 && self.y * self.y >= 0) by (nonlinear_arith);
        }
        isqrt(s)
    }

    /// The vector rescaled onto magnitude at most `m`: direction kept
    /// (component signs preserved), squared length at most `m * m`.
    pub fn scaled_to(self, m: i64) -> (r: Self)
        requires
            self.in_range(NORM_LIMIT as int),
            0 <= m <= COORD_LIMIT,
        ensures
            (r.x as int, r.y as int) == spec_scaled(self.x as int, self.y as int, m as int),
            r.spec_norm_sq() <= m * m,
            r.in_range(m as int),
            self.x == 0 ==> r.x == 0,
            self.y == 0 ==> r.y == 0,
            self.x > 0 ==> r.x >= 0,
            self.x < 0 ==> r.x <= 0,
            self.y > 0 ==> r.y >= 0,
            self.y < 0 ==> r.y <= 0,
    {
        proof {
            lemma_scaled_bounds(self.x as int, self.y as int, m as int);
            assert(-(NORM_LIMIT * COORD_LIMIT) <= self.x * m <= NORM_LIMIT * COORD_LIMIT && -(
            NORM_LIMIT * COORD_LIMIT) <= self.y * m <= NORM_LIMIT * COORD_LIMIT)
                by (nonlinear_arith)
                requires
                    -NORM_LIMIT <= self.x <= NORM_LIMIT,
                    -NORM_LIMIT <= self.y <= NORM_LIMIT,
                    0 <= m <= COORD_LIMIT,
            ;
        }
        let l = self.length();
        proof {
            assert(self.spec_norm_sq() <= 2 * NORM_LIMIT * NORM_LIMIT) by (nonlinear_arith)
                requires
                    -NORM_LIMIT <= self.x <= NORM_LIMIT,
                    -NORM_LIMIT <= self.y <= NORM_LIMIT,
            ;
            assert(l <= 3_000_000_000) by (nonlinear_arith)
                requires
                    0 <= l,
                    l * l <= self.spec_norm_sq(),
                    self.spec_norm_sq() <= 2 * NORM_LIMIT * NORM_LIMIT,
            ;
        }
        let rx = div_trunc(self.x * m, l + 1);
        let ry = div_trunc(self.y * m, l + 1);
        Vec2 { x: rx, y: ry }
    }

    /// The vector clamped to magnitude at most `m`: unchanged when its
    /// length is already at most `m`, otherwise rescaled onto `m`.
    pub fn clamp_len(self, m: i64) -> (r: Self)
        requires
            self.in_range(NORM_LIMIT as int),
            0 <= m <= COORD_LIMIT,
        ensures
            (r.x as int, r.y as int) == spec_clamp(self.x as int, self.y as int, m as int),
            r.spec_norm_sq() <= m * m,
            r.in_range(m as int),
    {
        let s = self.norm_sq();
        proof {
            assert(0 <= m * m <= COORD_LIMIT * COORD_LIMIT) by (nonlinear_arith)
                requires
                    0 <= m <= COORD_LIMIT,
            ;
            assert(self.spec_norm_sq() <= m * m ==> -m <= self.x <= m && -m <= self.y <= m)
                by (nonlinear_arith)
                requires
                    m >= 0,
            ;
        }
        if s <= m * m {
            self
        } else {
            self.scaled_to(m)
        }
    }
}

} // verus!
