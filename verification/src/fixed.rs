//! Double-precision arithmetic on integers: positive numbers as a 53-bit
//! significand and an exponent, rounded to nearest with ties to even, and the
//! order of bit patterns.

use vstd::prelude::*;
use vstd::arithmetic::power2::{
    lemma2_to64, lemma_pow2_adds, lemma_pow2_pos, lemma_pow2_unfold, pow2,
};

verus! {

/// A positive number: `m` times two to the power `e`.
#[derive(Clone, Copy, Debug, PartialEq, Eq, Structural)]
pub struct Positive {
    pub m: u64,
    pub e: i64,
}

/// How many binary digits a number has.
pub open spec fn width(n: nat) -> nat
    decreases n,
{
    if n == 0 {
        0
    } else {
        1 + width(n / 2)
    }
}

/// The significand and exponent nearest to `n` times two to the power `e`; of
/// two that are equally near, the one with an even significand.
pub open spec fn nearest(n: nat, e: int) -> (nat, int) {
    let w = width(n);
    if w <= 53 {
        (n * pow2((53 - w) as nat), e - (53 - w))
    } else {
        let s = (w - 53) as nat;
        let q = n / pow2(s);
        let r = n % pow2(s);
        let up = 2 * r > pow2(s) || (2 * r == pow2(s) && q % 2 == 1);
        let m = if up {
            q + 1
        } else {
            q
        };
        if m == 0x20_0000_0000_0000 {
            (0x10_0000_0000_0000, e + s + 1)
        } else {
            (m, e + s)
        }
    }
}

impl Positive {
    /// The significand has exactly 53 bits.
    pub open spec fn normal(self) -> bool {
        0x10_0000_0000_0000 <= self.m < 0x20_0000_0000_0000
    }

    /// The number is this significand and exponent.
    pub open spec fn is(self, x: (nat, int)) -> bool {
        self.normal() && self.m == x.0 && self.e == x.1
    }

    /// The product, before rounding.
    pub open spec fn product(self, o: Positive) -> (nat, int) {
        nearest(self.m as nat * o.m as nat, self.e + o.e)
    }

    /// The sum.
    pub open spec fn sum(self, o: Positive) -> (nat, int) {
        if self.e >= o.e {
            nearest(self.m as nat * pow2((self.e - o.e) as nat) + o.m as nat, o.e as int)
        } else {
            nearest(o.m as nat * pow2((o.e - self.e) as nat) + self.m as nat, self.e as int)
        }
    }

    /// The quotient: 60 more bits than asked for, and one that says whether
    /// something is left over.
    pub open spec fn quotient(self, o: Positive) -> (nat, int) {
        let n = self.m as nat * pow2(60);
        let q = n / (o.m as nat);
        let sticky: nat = if n % (o.m as nat) == 0 {
            0
        } else {
            1
        };
        nearest(2 * q + sticky, self.e - o.e - 61)
    }

    /// Greater than.
    pub open spec fn above(self, o: Positive) -> bool {
        self.e > o.e || (self.e == o.e && self.m > o.m)
    }

    /// The bit pattern of the number as a double.
    pub open spec fn pattern(self) -> int {
        (self.e + 1075) * 0x10_0000_0000_0000 + (self.m - 0x10_0000_0000_0000)
    }
}

/// Two to the powers that are needed here.
proof fn lemma_powers()
    ensures
        pow2(0) == 1,
        pow2(1) == 2,
        pow2(6) == 0x40,
        pow2(12) == 0x1000,
        pow2(52) == 0x10_0000_0000_0000,
        pow2(53) == 0x20_0000_0000_0000,
        pow2(60) == 0x1000_0000_0000_0000,
        pow2(64) == 0x1_0000_0000_0000_0000,
        pow2(65) == 0x2_0000_0000_0000_0000,
        pow2(70) == 0x40_0000_0000_0000_0000,
        pow2(76) == 0x1000_0000_0000_0000_0000,
        pow2(127) == 0x8000_0000_0000_0000_0000_0000_0000_0000,
        pow2(128) == 0x1_0000_0000_0000_0000_0000_0000_0000_0000nat,
{
    lemma2_to64();
    lemma_product(32, 20, 0x1_0000_0000, 0x10_0000, 0x10_0000_0000_0000);
    lemma_product(52, 1, 0x10_0000_0000_0000, 2, 0x20_0000_0000_0000);
    lemma_product(52, 8, 0x10_0000_0000_0000, 0x100, 0x1000_0000_0000_0000);
    lemma_product(60, 3, 0x1000_0000_0000_0000, 8, 0x8000_0000_0000_0000);
    lemma_product(64, 1, 0x1_0000_0000_0000_0000, 2, 0x2_0000_0000_0000_0000);
    lemma_product(64, 6, 0x1_0000_0000_0000_0000, 0x40, 0x40_0000_0000_0000_0000);
    lemma_product(64, 12, 0x1_0000_0000_0000_0000, 0x1000, 0x1000_0000_0000_0000_0000);
    lemma_product(
        64,
        63,
        0x1_0000_0000_0000_0000,
        0x8000_0000_0000_0000,
        0x8000_0000_0000_0000_0000_0000_0000_0000,
    );
    lemma_product(
        64,
        64,
        0x1_0000_0000_0000_0000,
        0x1_0000_0000_0000_0000,
        0x1_0000_0000_0000_0000_0000_0000_0000_0000nat,
    );
}

proof fn lemma_product(a: nat, b: nat, x: nat, y: nat, z: nat)
    requires
        pow2(a) == x,
        pow2(b) == y,
        x * y == z,
    ensures
        pow2(a + b) == z,
{
    lemma_pow2_adds(a, b);
}

proof fn lemma_width(n: nat)
    requires
        n > 0,
    ensures
        width(n) >= 1,
        pow2((width(n) - 1) as nat) <= n < pow2(width(n)),
    decreases n,
{
    if n == 1 {
        lemma_powers();
        assert(width(1) == 1 + width(0));
    } else {
        lemma_width(n / 2);
        lemma_pow2_unfold(width(n));
        lemma_pow2_unfold((width(n) - 1) as nat);
    }
}

/// Two to the power of a small number.
fn two_to(k: u32) -> (r: u128)
    requires
        k < 128,
    ensures
        r == pow2(k as nat),
{
    let mut r: u128 = 1;
    let mut i: u32 = 0;
    proof {
        lemma_powers();
    }
    while i < k
        invariant
            i <= k < 128,
            r == pow2(i as nat),
        decreases k - i,
    {
        proof {
            lemma_pow2_unfold((i + 1) as nat);
            lemma_pow2_127((i + 1) as nat);
        }
        r = r * 2;
        i += 1;
    }
    r
}

proof fn lemma_pow2_127(k: nat)
    requires
        k < 128,
    ensures
        pow2(k) <= 0x8000_0000_0000_0000_0000_0000_0000_0000,
{
    lemma_powers();
    if k < 127 {
        vstd::arithmetic::power2::lemma_pow2_strictly_increases(k, 127);
    }
}

fn width_of(n: u128) -> (r: u32)
    ensures
        r == width(n as nat),
        r <= 128,
{
    let mut k: u32 = 0;
    let mut m: u128 = n;
    let ghost mut p: nat = 1;
    proof {
        lemma_powers();
        assert(m * 1 == m);
    }
    while m > 0
        invariant
            width(n as nat) == k + width(m as nat),
            k <= 128,
            p == pow2(k as nat),
            m * p <= n,
        decreases m,
    {
        proof {
            lemma_powers();
            lemma_pow2_unfold((k + 1) as nat);
            assert((m / 2) * (p * 2) <= m * p) by (nonlinear_arith)
                requires
                    m > 0,
                    p >= 0,
            ;
            assert(p <= m * p) by (nonlinear_arith)
                requires
                    m > 0,
                    p >= 0,
            ;
            p = p * 2;
        }
        m = m / 2;
        k += 1;
    }
    proof {
        lemma_powers();
    }
    k
}

/// Rounds `n` times two to the power `e`.
fn round(n: u128, e: i64) -> (r: Positive)
    requires
        n > 0,
        -100_000 <= e <= 100_000,
    ensures
        r.is(nearest(n as nat, e as int)),
{
    let w: u32 = width_of(n);
    proof {
        lemma_width(n as nat);
        lemma_powers();
    }
    if w <= 53 {
        let k: u32 = 53 - w;
        let p: u128 = two_to(k);
        proof {
            lemma_pow2_adds((w - 1) as nat, k as nat);
            lemma_pow2_adds(w as nat, k as nat);
            lemma_pow2_unfold(53);
            lemma_pow2_pos(k as nat);
            let a = pow2((w - 1) as nat) as int;
            let b = pow2(w as nat) as int;
            let c = p as int;
            let x = n as int;
            assert(a * c <= x * c && x * c < b * c) by (nonlinear_arith)
                requires
                    a <= x,
                    x < b,
                    c > 0,
            ;
        }
        let m: u128 = n * p;
        Positive { m: m as u64, e: e - k as i64 }
    } else {
        let s: u32 = w - 53;
        let p: u128 = two_to(s);
        proof {
            lemma_pow2_pos(s as nat);
            lemma_pow2_adds(52, s as nat);
            lemma_pow2_adds(53, s as nat);
            let x = n as int;
            let c = p as int;
            assert(pow2((52 + s) as nat) == 0x10_0000_0000_0000 * c);
            assert(pow2((53 + s) as nat) == 0x20_0000_0000_0000 * c);
            assert(0x10_0000_0000_0000 <= x / c && x / c < 0x20_0000_0000_0000) by (nonlinear_arith)
                requires
                    0x10_0000_0000_0000 * c <= x,
                    x < 0x20_0000_0000_0000 * c,
                    c > 0,
            ;
            vstd::arithmetic::power2::lemma_pow2_strictly_increases(s as nat, 76);
        }
        let q: u128 = n / p;
        let r: u128 = n % p;
        let up: bool = 2 * r > p || (2 * r == p && q % 2 == 1);
        let m: u128 = if up { q + 1 } else { q };
        if m == 0x20_0000_0000_0000 {
            Positive { m: 0x10_0000_0000_0000, e: e + s as i64 + 1 }
        } else {
            Positive { m: m as u64, e: e + s as i64 }
        }
    }
}

impl Positive {
    /// A number as a double.
    pub fn of(n: u64) -> (r: Positive)
        requires
            n > 0,
        ensures
            r.is(nearest(n as nat, 0)),
    {
        round(n as u128, 0)
    }

    pub fn times(self, o: Positive) -> (r: Positive)
        requires
            self.normal(),
            o.normal(),
            -10_000 <= self.e <= 10_000,
            -10_000 <= o.e <= 10_000,
        ensures
            r.is(self.product(o)),
    {
        proof {
            let a = self.m as int;
            let b = o.m as int;
            assert(0 < a * b && a * b < 0x20_0000_0000_0000 * 0x20_0000_0000_0000) by (nonlinear_arith)
                requires
                    0 < a < 0x20_0000_0000_0000,
                    0 < b < 0x20_0000_0000_0000,
            ;
        }
        round(self.m as u128 * o.m as u128, self.e + o.e)
    }

    /// The sum of two numbers whose exponents are not far apart.
    pub fn plus(self, o: Positive) -> (r: Positive)
        requires
            self.normal(),
            o.normal(),
            -10_000 <= self.e <= 10_000,
            -10_000 <= o.e <= 10_000,
            -70 <= self.e - o.e <= 70,
        ensures
            r.is(self.sum(o)),
    {
        if self.e >= o.e {
            let p: u128 = two_to((self.e - o.e) as u32);
            proof {
                lemma_scaled(self.m, (self.e - o.e) as nat);
            }
            round(self.m as u128 * p + o.m as u128, o.e)
        } else {
            let p: u128 = two_to((o.e - self.e) as u32);
            proof {
                lemma_scaled(o.m, (o.e - self.e) as nat);
            }
            round(o.m as u128 * p + self.m as u128, self.e)
        }
    }

    pub fn over(self, o: Positive) -> (r: Positive)
        requires
            self.normal(),
            o.normal(),
            -10_000 <= self.e <= 10_000,
            -10_000 <= o.e <= 10_000,
        ensures
            r.is(self.quotient(o)),
    {
        let p: u128 = two_to(60);
        proof {
            lemma_scaled(self.m, 60);
        }
        let n: u128 = self.m as u128 * p;
        let d: u128 = o.m as u128;
        let q: u128 = n / d;
        let sticky: u128 = if n % d == 0 { 0 } else { 1 };
        proof {
            lemma_powers();
            let a = self.m as int;
            let b = o.m as int;
            let x = a * (pow2(60) as int);
            assert(x >= b && x < 0x8000_0000_0000_0000 * b) by (nonlinear_arith)
                requires
                    x == a * 0x1000_0000_0000_0000,
                    0x10_0000_0000_0000 <= a < 0x20_0000_0000_0000,
                    0x10_0000_0000_0000 <= b < 0x20_0000_0000_0000,
            ;
            assert(1 <= x / b && x / b < 0x8000_0000_0000_0000) by (nonlinear_arith)
                requires
                    x >= b,
                    x < 0x8000_0000_0000_0000 * b,
                    b > 0,
            ;
        }
        round(2 * q + sticky, self.e - o.e - 61)
    }

    pub fn greater(self, o: Positive) -> (r: bool)
        ensures
            r == self.above(o),
    {
        self.e > o.e || (self.e == o.e && self.m > o.m)
    }

    /// The bit pattern of the number as a double.
    pub fn bits(self) -> (r: u64)
        requires
            self.normal(),
            -1074 <= self.e <= 971,
        ensures
            r == self.pattern(),
    {
        ((self.e + 1075) as u64) * 0x10_0000_0000_0000 + (self.m - 0x10_0000_0000_0000)
    }
}

proof fn lemma_scaled(m: u64, k: nat)
    requires
        0 < m < 0x20_0000_0000_0000,
        k <= 70,
    ensures
        0 < m * pow2(k) < 0x800_0000_0000_0000_0000_0000_0000_0000,
{
    lemma_powers();
    lemma_pow2_pos(k);
    if k < 70 {
        vstd::arithmetic::power2::lemma_pow2_strictly_increases(k, 70);
    }
    let a = m as int;
    let b = pow2(k) as int;
    assert(0 < a * b && a * b < 0x20_0000_0000_0000 * 0x40_0000_0000_0000_0000) by (nonlinear_arith)
        requires
            0 < a < 0x20_0000_0000_0000,
            0 < b <= 0x40_0000_0000_0000_0000,
    ;
}

/// The pattern of a NaN.
pub open spec fn is_nan(b: u64) -> bool {
    b % 0x8000_0000_0000_0000 > 0x7FF0_0000_0000_0000
}

/// Where a pattern that is no NaN stands in the order of doubles; both zeros
/// stand at 0.
pub open spec fn rank(b: u64) -> int {
    if b < 0x8000_0000_0000_0000 {
        b as int
    } else {
        -(b - 0x8000_0000_0000_0000)
    }
}

/// Less-than of doubles, given by their patterns.
pub open spec fn below(a: u64, b: u64) -> bool {
    !is_nan(a) && !is_nan(b) && rank(a) < rank(b)
}

/// The place of a pattern that is no NaN in the order of doubles, as a number:
/// greater for the greater double, and the same for both zeros.
pub fn order_key(b: u64) -> (r: u64)
    requires
        !is_nan(b),
    ensures
        r == rank(b) + 0x8000_0000_0000_0000,
{
    let top: u64 = 0x8000_0000_0000_0000;
    if b < top {
        b + top
    } else {
        top - (b - top)
    }
}

/// The pattern at a place in the order of doubles.
pub fn order_value(k: u64) -> (r: u64)
    requires
        k > 0,
    ensures
        rank(r) + 0x8000_0000_0000_0000 == k,
{
    let top: u64 = 0x8000_0000_0000_0000;
    if k >= top {
        k - top
    } else {
        top + (top - k)
    }
}

/// Less-than of doubles, given by their patterns.
pub fn less(a: u64, b: u64) -> (r: bool)
    ensures
        r == below(a, b),
{
    let top: u64 = 0x8000_0000_0000_0000;
    if a % top > 0x7FF0_0000_0000_0000 || b % top > 0x7FF0_0000_0000_0000 {
        return false;
    }
    if a < top {
        b < top && a < b
    } else if b < top {
        a - top > 0 || b > 0
    } else {
        a - top > b - top
    }
}

/// The pattern of the double nearest to a ratio.
pub open spec fn ratio_bits(a: nat, b: nat) -> int {
    if a == 0 {
        0
    } else {
        let x = nearest(a, 0);
        let y = nearest(b, 0);
        let q = (Positive { m: x.0 as u64, e: x.1 as i64 }).quotient(
            Positive { m: y.0 as u64, e: y.1 as i64 },
        );
        (q.1 + 1075) * 0x10_0000_0000_0000 + (q.0 - 0x10_0000_0000_0000)
    }
}

proof fn lemma_small(n: u64)
    requires
        0 < n < 0x20_0000_0000_0000,
    ensures
        1 <= width(n as nat) <= 53,
        nearest(n as nat, 0).1 == -(53 - width(n as nat)),
{
    lemma_width(n as nat);
    lemma_powers();
    if width(n as nat) > 53 {
        if width(n as nat) - 1 > 53 {
            vstd::arithmetic::power2::lemma_pow2_strictly_increases(
                53,
                (width(n as nat) - 1) as nat,
            );
        }
        assert(pow2((width(n as nat) - 1) as nat) >= pow2(53));
    }
}

/// The pattern of the double nearest to a ratio of counts.
pub fn ratio(a: u64, b: u64) -> (r: u64)
    requires
        0 < b < 0x20_0000_0000_0000,
        a < 0x20_0000_0000_0000,
    ensures
        r == ratio_bits(a as nat, b as nat),
{
    if a == 0 {
        return 0;
    }
    proof {
        lemma_small(a);
        lemma_small(b);
    }
    let x = Positive::of(a);
    let y = Positive::of(b);
    let q = x.over(y);
    proof {
        lemma_quotient_range(x, y);
    }
    q.bits()
}

proof fn lemma_quotient_range(x: Positive, y: Positive)
    requires
        x.normal(),
        y.normal(),
        -60 <= x.e <= 60,
        -60 <= y.e <= 60,
    ensures
        -400 <= x.quotient(y).1 <= 400,
{
    let n = x.m as nat * pow2(60);
    let q = n / (y.m as nat);
    let k = 2 * q + if n % (y.m as nat) == 0 {
        0nat
    } else {
        1nat
    };
    lemma_powers();
    let a = x.m as int;
    let b = y.m as int;
    let z = a * 0x1000_0000_0000_0000;
    assert(n == z);
    assert(z >= b && z < 0x8000_0000_0000_0000 * b) by (nonlinear_arith)
        requires
            z == a * 0x1000_0000_0000_0000,
            0x10_0000_0000_0000 <= a < 0x20_0000_0000_0000,
            0x10_0000_0000_0000 <= b < 0x20_0000_0000_0000,
    ;
    assert(1 <= z / b && z / b < 0x8000_0000_0000_0000) by (nonlinear_arith)
        requires
            z >= b,
            z < 0x8000_0000_0000_0000 * b,
            b > 0,
    ;
    assert(0 < k <= 0x1_0000_0000_0000_0000);
    lemma_width(k);
    if width(k) > 66 {
        vstd::arithmetic::power2::lemma_pow2_strictly_increases(65, (width(k) - 1) as nat);
    }
}

/// The pattern of `k` over two to the power 53.
pub open spec fn unit_bits(k: nat) -> int {
    if k == 0 {
        0
    } else {
        let x = nearest(k, -53);
        (x.1 + 1075) * 0x10_0000_0000_0000 + (x.0 - 0x10_0000_0000_0000)
    }
}

/// The pattern of `k` over two to the power 53.
pub fn unit(k: u64) -> (r: u64)
    requires
        k < 0x20_0000_0000_0000,
    ensures
        r == unit_bits(k as nat),
{
    if k == 0 {
        return 0;
    }
    proof {
        lemma_small(k);
    }
    round(k as u128, -53).bits()
}

/// Rounding is exact where 53 bits are enough. Elsewhere it misses by half of the
/// last place at most, and where it misses by just that, the significand is even.
pub proof fn lemma_nearest_close(n: nat, e: int)
    ensures
        ({
            let (m, x) = nearest(n, e);
            &&& x <= e ==> m == n * pow2((e - x) as nat)
            &&& x > e ==> {
                let unit = pow2((x - e) as nat) as int;
                let off = m * unit - n;
                &&& -unit <= 2 * off <= unit
                &&& (2 * off == unit || 2 * off == -unit) ==> m % 2 == 0
            }
        }),
{
    let w = width(n);
    if w > 53 {
        let s = (w - 53) as nat;
        let p = pow2(s) as int;
        lemma_pow2_pos(s);
        let q = n as int / p;
        let r = n as int % p;
        vstd::arithmetic::div_mod::lemma_fundamental_div_mod(n as int, p);
        vstd::arithmetic::div_mod::lemma_mod_bound(n as int, p);
        assert(n == q * p + r) by (nonlinear_arith)
            requires
                n as int == p * q + r,
        ;
        assert((q + 1) * p == q * p + p) by (nonlinear_arith);
        lemma_width(n);
        lemma_powers();
        lemma_pow2_adds(s, 53);
        assert(q < 0x20_0000_0000_0000) by (nonlinear_arith)
            requires
                q * p + r < p * 0x20_0000_0000_0000,
                r >= 0,
                p > 0,
        ;
        let (m, x) = nearest(n, e);
        let up = 2 * r > p || (2 * r == p && q % 2 == 1);
        if up && q + 1 == 0x20_0000_0000_0000 {
            lemma_pow2_unfold((s + 1) as nat);
            assert(x - e == s + 1);
            let unit = pow2((s + 1) as nat) as int;
            assert(unit == 2 * p);
            assert(m * unit == (q + 1) * p) by (nonlinear_arith)
                requires
                    m == 0x10_0000_0000_0000,
                    unit == 2 * p,
                    q + 1 == 0x20_0000_0000_0000,
            ;
        } else {
            assert(x - e == s);
        }
    }
}

/// The exponent of a rounded number lies by its width.
pub proof fn lemma_nearest_exponent(n: nat, e: int, lo: nat, hi: nat)
    requires
        pow2(lo) <= n < pow2(hi),
    ensures
        e + lo - 52 <= nearest(n, e).1 <= e + hi - 52,
{
    lemma_pow2_pos(lo);
    lemma_width(n);
    let w = width(n);
    if w <= lo {
        lemma_pow2_grows(w, lo);
    }
    if w > hi {
        lemma_pow2_grows(hi, (w - 1) as nat);
    }
}

proof fn lemma_pow2_grows(a: nat, b: nat)
    requires
        a <= b,
    ensures
        pow2(a) <= pow2(b),
{
    if a < b {
        vstd::arithmetic::power2::lemma_pow2_strictly_increases(a, b);
    }
}

/// The exponent of a whole number.
pub proof fn lemma_of_exponent(n: u64)
    requires
        n > 0,
    ensures
        -52 <= nearest(n as nat, 0).1 <= 12,
{
    lemma_powers();
    lemma_nearest_exponent(n as nat, 0, 0, 64);
}

/// The exponent of a product.
pub proof fn lemma_product_exponent(x: Positive, y: Positive)
    requires
        x.normal(),
        y.normal(),
    ensures
        x.e + y.e + 52 <= x.product(y).1 <= x.e + y.e + 54,
{
    lemma_powers();
    lemma_pow2_adds(52, 52);
    lemma_pow2_adds(53, 53);
    let (a, b) = (x.m as int, y.m as int);
    assert(0x10_0000_0000_0000 * 0x10_0000_0000_0000 <= a * b < 0x20_0000_0000_0000
        * 0x20_0000_0000_0000) by (nonlinear_arith)
        requires
            0x10_0000_0000_0000 <= a < 0x20_0000_0000_0000,
            0x10_0000_0000_0000 <= b < 0x20_0000_0000_0000,
    ;
    lemma_nearest_exponent(x.m as nat * y.m as nat, x.e + y.e, 104, 106);
}

/// The exponent of a sum.
pub proof fn lemma_sum_exponent(x: Positive, y: Positive)
    requires
        x.normal(),
        y.normal(),
    ensures
        x.e >= y.e ==> x.e <= x.sum(y).1 <= x.e + 2,
        x.e <= y.e ==> y.e <= x.sum(y).1 <= y.e + 2,
{
    let (p, q) = if x.e >= y.e {
        (x, y)
    } else {
        (y, x)
    };
    let d = (p.e - q.e) as nat;
    lemma_powers();
    lemma_pow2_pos(d);
    lemma_pow2_adds(52, d);
    lemma_pow2_adds(54, d);
    lemma_product(53, 1, 0x20_0000_0000_0000, 2, 0x40_0000_0000_0000);
    let (a, b, k) = (p.m as int, q.m as int, pow2(d) as int);
    assert(0x10_0000_0000_0000 * k <= a * k + b < 0x40_0000_0000_0000 * k) by (nonlinear_arith)
        requires
            0x10_0000_0000_0000 <= a < 0x20_0000_0000_0000,
            0 <= b < 0x20_0000_0000_0000,
            k >= 1,
    ;
    lemma_nearest_exponent(p.m as nat * pow2(d) + q.m as nat, q.e as int, 52 + d, 54 + d);
    assert(x.e == y.e ==> d == 0);
}

/// The exponent of a quotient.
pub proof fn lemma_quotient_exponent(x: Positive, y: Positive)
    requires
        x.normal(),
        y.normal(),
    ensures
        x.e - y.e - 53 <= x.quotient(y).1 <= x.e - y.e - 50,
{
    lemma_powers();
    lemma2_to64();
    lemma_product(60, 3, 0x1000_0000_0000_0000, 8, 0x8000_0000_0000_0000);
    let n = x.m as nat * pow2(60);
    let q = n / (y.m as nat);
    let (a, b, k) = (x.m as int, y.m as int, 0x1000_0000_0000_0000int);
    assert(0x800_0000_0000_0000 <= (a * k) / b <= 0x2000_0000_0000_0000) by (nonlinear_arith)
        requires
            0x10_0000_0000_0000 <= a < 0x20_0000_0000_0000,
            0x10_0000_0000_0000 <= b < 0x20_0000_0000_0000,
            k == 0x1000_0000_0000_0000,
    {
        vstd::arithmetic::div_mod::lemma_fundamental_div_mod(a * k, b);
        vstd::arithmetic::div_mod::lemma_mod_bound(a * k, b);
        let z = (a * k) / b;
        assert(b * z + (a * k) % b == a * k);
        if z < 0x800_0000_0000_0000 {
            assert(b * z + b <= 0x20_0000_0000_0000 * 0x800_0000_0000_0000) by (nonlinear_arith)
                requires
                    0 < b < 0x20_0000_0000_0000,
                    z + 1 <= 0x800_0000_0000_0000,
            ;
            assert(a * k >= 0x10_0000_0000_0000 * 0x1000_0000_0000_0000) by (nonlinear_arith)
                requires
                    a >= 0x10_0000_0000_0000,
                    k == 0x1000_0000_0000_0000,
            ;
        }
        if z > 0x2000_0000_0000_0000 {
            assert(b * z > 0x10_0000_0000_0000 * 0x2000_0000_0000_0000) by (nonlinear_arith)
                requires
                    b >= 0x10_0000_0000_0000,
                    z > 0x2000_0000_0000_0000,
            ;
            assert(a * k <= 0x20_0000_0000_0000 * 0x1000_0000_0000_0000) by (nonlinear_arith)
                requires
                    a < 0x20_0000_0000_0000,
                    k == 0x1000_0000_0000_0000,
            ;
        }
    }
    let sticky: nat = if n % (y.m as nat) == 0 {
        0
    } else {
        1
    };
    lemma_nearest_exponent(2 * q + sticky, x.e - y.e - 61, 60, 63);
}

/// The number with this significand and exponent.
pub open spec fn number(x: (nat, int)) -> Positive {
    Positive { m: x.0 as u64, e: x.1 as i64 }
}

/// The pattern of infinity.
pub const INFINITY: u64 = 0x7FF0_0000_0000_0000;

/// A pattern that stands for no number.
pub const NOT_A_NUMBER: u64 = 0x7FF8_0000_0000_0000;

/// `n` over `d`, rounded to the nearest integer, and of two equally near to the
/// even one.
pub open spec fn rounded(n: nat, d: nat) -> nat {
    let q = n / d;
    let r = n % d;
    if 2 * r > d || (2 * r == d && q % 2 == 1) {
        q + 1
    } else {
        q
    }
}

/// The significand and exponent of a pattern's size: the size is the first times
/// two to the power of the second.
pub open spec fn size_of(b: u64) -> (nat, int) {
    let x = (b % 0x8000_0000_0000_0000) as int;
    let exp = x / 0x10_0000_0000_0000;
    let frac = x % 0x10_0000_0000_0000;
    if exp == 0 {
        (frac as nat, -1074)
    } else {
        ((0x10_0000_0000_0000 + frac) as nat, exp - 1075)
    }
}

/// The pattern, without sign, of the double nearest to `n` times two to the power
/// `e`; below the normal range fewer digits are left.
pub open spec fn packed(n: nat, e: int) -> int {
    let lead = e + width(n) - 53;
    let q = if lead > -1074 {
        lead
    } else {
        -1074
    };
    let m = if q <= e {
        n * pow2((e - q) as nat)
    } else {
        rounded(n, pow2((q - e) as nat))
    };
    let bits = (q + 1074) * 0x10_0000_0000_0000 + m;
    if bits > INFINITY {
        INFINITY as int
    } else {
        bits
    }
}

/// The product of two doubles, given by their patterns.
pub open spec fn product_bits(a: u64, b: u64) -> u64 {
    let sa = a % 0x8000_0000_0000_0000;
    let sb = b % 0x8000_0000_0000_0000;
    let sign: int = if (a >= 0x8000_0000_0000_0000) == (b >= 0x8000_0000_0000_0000) {
        0
    } else {
        0x8000_0000_0000_0000
    };
    if is_nan(a) || is_nan(b) || (sa == INFINITY && sb == 0) || (sa == 0 && sb == INFINITY) {
        NOT_A_NUMBER
    } else if sa == INFINITY || sb == INFINITY {
        (sign + INFINITY) as u64
    } else if sa == 0 || sb == 0 {
        sign as u64
    } else {
        let (ma, ea) = size_of(a);
        let (mb, eb) = size_of(b);
        (sign + packed(ma * mb, ea + eb)) as u64
    }
}

fn split(b: u64) -> (r: (u64, i64))
    requires
        b % 0x8000_0000_0000_0000 < INFINITY,
    ensures
        (r.0 as nat, r.1 as int) == size_of(b),
        r.0 < 0x20_0000_0000_0000,
        -1074 <= r.1 <= 971,
        b % 0x8000_0000_0000_0000 > 0 ==> r.0 > 0,
{
    let x: u64 = b % 0x8000_0000_0000_0000;
    let exp: u64 = x / 0x10_0000_0000_0000;
    let frac: u64 = x % 0x10_0000_0000_0000;
    if exp == 0 {
        (frac, -1074)
    } else {
        (0x10_0000_0000_0000 + frac, exp as i64 - 1075)
    }
}

proof fn lemma_small_rounds(n: nat, s: nat)
    requires
        n < pow2(106),
        s >= 108,
    ensures
        rounded(n, pow2(s)) == 0,
{
    lemma_pow2_grows(108, s);
    lemma_pow2_adds(106, 2);
    lemma2_to64();
    let d = pow2(s);
    assert(4 * n < d);
    vstd::arithmetic::div_mod::lemma_small_mod(n, d);
    vstd::arithmetic::div_mod::lemma_basic_div(n as int, d as int);
}

fn pack(n: u128, e: i64) -> (r: u64)
    requires
        n > 0,
        (n as nat) < pow2(106),
        -3000 <= e <= 2000,
    ensures
        r == packed(n as nat, e as int),
        r <= INFINITY,
{
    let w: u32 = width_of(n);
    proof {
        lemma_powers();
        lemma_width(n as nat);
        if w > 106 {
            lemma_pow2_grows(106, (w - 1) as nat);
        }
    }
    let lead: i64 = e + w as i64 - 53;
    let q: i64 = if lead > -1074 { lead } else { -1074 };
    let m: u128;
    if q <= e {
        let k: u32 = (e - q) as u32;
        let p: u128 = two_to(k);
        proof {
            assert(k <= 53 - w);
            lemma_pow2_adds(w as nat, k as nat);
            lemma_pow2_grows((w + k) as nat, 53);
            lemma_pow2_pos(k as nat);
            let (x, y, c) = (n as int, pow2(w as nat) as int, p as int);
            assert(x * c < y * c) by (nonlinear_arith)
                requires
                    x < y,
                    c > 0,
            ;
        }
        m = n * p;
    } else {
        let s: i64 = q - e;
        if s >= 108 {
            proof {
                lemma_small_rounds(n as nat, s as nat);
            }
            m = 0;
        } else {
            let p: u128 = two_to(s as u32);
            proof {
                lemma_pow2_pos(s as nat);
                lemma_pow2_grows(s as nat, 107);
                lemma_pow2_grows(w as nat, (53 + s) as nat);
                lemma_pow2_adds(53, s as nat);
                lemma_pow2_adds(107, 20);
                lemma2_to64();
                let (x, c) = (n as int, p as int);
                assert(x / c < 0x20_0000_0000_0000) by (nonlinear_arith)
                    requires
                        0 <= x,
                        x < 0x20_0000_0000_0000 * c,
                        c > 0,
                ;
                assert(x % c < c);
            }
            let d: u128 = n / p;
            let rest: u128 = n % p;
            let up: bool = 2 * rest > p || (2 * rest == p && d % 2 == 1);
            m = if up { d + 1 } else { d };
        }
    }
    assert(m <= 0x20_0000_0000_0000);
    let bits: u128 = (q + 1074) as u128 * 0x10_0000_0000_0000 + m;
    if bits > INFINITY as u128 {
        INFINITY
    } else {
        bits as u64
    }
}

/// The product of two doubles, given by their patterns.
pub fn multiply(a: u64, b: u64) -> (r: u64)
    ensures
        r == product_bits(a, b),
{
    let top: u64 = 0x8000_0000_0000_0000;
    let sa: u64 = a % top;
    let sb: u64 = b % top;
    let sign: u64 = if (a >= top) == (b >= top) { 0 } else { top };
    if sa > INFINITY || sb > INFINITY || (sa == INFINITY && sb == 0) || (sa == 0 && sb
        == INFINITY) {
        return NOT_A_NUMBER;
    }
    if sa == INFINITY || sb == INFINITY {
        return sign + INFINITY;
    }
    if sa == 0 || sb == 0 {
        return sign;
    }
    let (ma, ea) = split(a);
    let (mb, eb) = split(b);
    proof {
        lemma_powers();
        lemma_pow2_adds(53, 53);
        let (x, y) = (ma as int, mb as int);
        assert(0 < x * y < 0x20_0000_0000_0000 * 0x20_0000_0000_0000) by (nonlinear_arith)
            requires
                0 < x < 0x20_0000_0000_0000,
                0 < y < 0x20_0000_0000_0000,
        ;
    }
    sign + pack(ma as u128 * mb as u128, ea + eb)
}

} // verus!
