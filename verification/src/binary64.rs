//! Round-to-nearest binary arithmetic with a 53-bit significand, carried out
//! exactly over integers.
//!
//! A value is a pair of a significand and an exponent, standing for
//! `mantissa * 2^exponent`. Every operation returns the representable value
//! nearest to the exact result, a tie going to the even significand, which
//! is how IEEE 754 double precision rounds in its normal range.

use vstd::prelude::*;
use vstd::arithmetic::power2::{
    pow2,
    lemma_pow2_pos,
    lemma_pow2_adds,
    lemma_pow2_unfold,
    lemma_pow2_strictly_increases,
    lemma2_to64,
    lemma2_to64_rest,
};
use vstd::arithmetic::div_mod::{
    lemma_fundamental_div_mod,
    lemma_fundamental_div_mod_converse,
    lemma_basic_div,
    lemma_small_mod,
};

verus! {

/// The least significand of a normalised value: two to the power 52.
pub const SIG_MIN: u64 = 0x10_0000_0000_0000;

/// One past the greatest significand: two to the power 53.
pub const SIG_END: u64 = 0x20_0000_0000_0000;

/// The number `mantissa * 2^exponent`.
pub struct Dyadic {
    pub mantissa: nat,
    pub exponent: int,
}

/// The quotient `a / b` rounded to the nearest natural number; a quotient
/// halfway between two of them goes to the even one.
pub open spec fn round_half_even(a: nat, b: nat) -> nat
    recommends
        b > 0,
{
    let q = a / b;
    let r = a % b;
    if 2 * r < b || (2 * r == b && q % 2 == 0) {
        q
    } else {
        q + 1
    }
}

/// `2^e` for a positive `e`, and one otherwise.
pub open spec fn raise(e: int) -> nat {
    if e > 0 {
        pow2(e as nat)
    } else {
        1
    }
}

/// `2^-e` for a negative `e`, and one otherwise.
pub open spec fn lower(e: int) -> nat {
    if e < 0 {
        pow2((-e) as nat)
    } else {
        1
    }
}

/// Whether `2^52 <= (a / b) / 2^e < 2^53`, the division being exact.
pub open spec fn in_binade(a: nat, b: nat, e: int) -> bool {
    SIG_MIN * (b * raise(e)) <= a * lower(e) < SIG_END * (b * raise(e))
}

/// The exponent that a 53-bit significand needs to hold `a / b`.
pub open spec fn binade(a: nat, b: nat) -> int {
    choose|e: int| in_binade(a, b, e)
}

/// The representable value nearest to `a / b`.
pub open spec fn nearest(a: nat, b: nat) -> Dyadic
    recommends
        b > 0,
{
    if a == 0 {
        Dyadic { mantissa: 0, exponent: 0 }
    } else {
        let e = binade(a, b);
        let m = round_half_even(a * lower(e), b * raise(e));
        if m == SIG_END {
            Dyadic { mantissa: SIG_MIN as nat, exponent: e + 1 }
        } else {
            Dyadic { mantissa: m, exponent: e }
        }
    }
}

/// The representable value nearest to `x / d`.
pub open spec fn quotient(x: Dyadic, d: nat) -> Dyadic
    recommends
        d > 0,
{
    let r = nearest(x.mantissa, d);
    Dyadic { mantissa: r.mantissa, exponent: r.exponent + x.exponent }
}

/// The representable value nearest to `x + y`.
pub open spec fn sum(x: Dyadic, y: Dyadic) -> Dyadic {
    let c = if x.exponent <= y.exponent {
        x.exponent
    } else {
        y.exponent
    };
    let total = x.mantissa * pow2((x.exponent - c) as nat) + y.mantissa * pow2(
        (y.exponent - c) as nat,
    );
    let r = nearest(total, 1);
    Dyadic { mantissa: r.mantissa, exponent: r.exponent + c }
}

/// `x * unit` rounded to the nearest natural number, a tie going to the even
/// one.
pub open spec fn scaled(x: Dyadic, unit: nat) -> nat {
    if x.exponent >= 0 {
        x.mantissa * unit * pow2(x.exponent as nat)
    } else {
        round_half_even(x.mantissa * unit, pow2((-x.exponent) as nat))
    }
}

/// Whether `x` is at least the natural number `k`.
pub open spec fn at_least(x: Dyadic, k: nat) -> bool {
    if x.exponent >= 0 {
        x.mantissa * pow2(x.exponent as nat) >= k
    } else {
        x.mantissa >= k * pow2((-x.exponent) as nat)
    }
}

proof fn lemma_scale_order(x: int, y: int, c: int)
    requires
        c > 0,
    ensures
        (x <= y) <==> (x * c <= y * c),
        (x < y) <==> (x * c < y * c),
{
    if x <= y {
        assert(x * c <= y * c) by (nonlinear_arith)
            requires
                x <= y,
                c > 0,
        ;
    } else {
        assert(x * c > y * c) by (nonlinear_arith)
            requires
                x > y,
                c > 0,
        ;
    }
    if x < y {
        assert(x * c < y * c) by (nonlinear_arith)
            requires
                x < y,
                c > 0,
        ;
    } else {
        assert(x * c >= y * c) by (nonlinear_arith)
            requires
                x >= y,
                c > 0,
        ;
    }
}

/// `in_binade` restated over the common scale `2^k`, for a `k` no smaller
/// than the size of `e`.
proof fn lemma_binade_scaled(a: nat, b: nat, e: int, k: nat)
    requires
        -(k as int) <= e <= k,
    ensures
        in_binade(a, b, e) <==> (SIG_MIN * b * pow2((k + e) as nat) <= a * pow2(k) < SIG_END * b
            * pow2((k + e) as nat)),
{
    let lo: int = SIG_MIN as int;
    let hi: int = SIG_END as int;
    let p: int = pow2((k + e) as nat) as int;
    let pk: int = pow2(k) as int;
    let av: int = a as int;
    let bv: int = b as int;
    if e > 0 {
        let pe: int = pow2(e as nat) as int;
        lemma_pow2_adds(k, e as nat);
        lemma_pow2_pos(k);
        let x: int = lo * (bv * pe);
        let y: int = hi * (bv * pe);
        lemma_scale_order(x, av, pk);
        lemma_scale_order(av, y, pk);
        assert(x * pk == lo * bv * p) by (nonlinear_arith)
            requires
                x == lo * (bv * pe),
                p == pk * pe,
        ;
        assert(y * pk == hi * bv * p) by (nonlinear_arith)
            requires
                y == hi * (bv * pe),
                p == pk * pe,
        ;
        assert(a * lower(e) == av);
    } else if e < 0 {
        let pe: int = pow2((-e) as nat) as int;
        lemma_pow2_adds((k + e) as nat, (-e) as nat);
        lemma_pow2_pos((k + e) as nat);
        let x: int = lo * bv;
        let y: int = hi * bv;
        let z: int = av * pe;
        lemma_scale_order(x, z, p);
        lemma_scale_order(z, y, p);
        assert(z * p == av * pk) by (nonlinear_arith)
            requires
                z == av * pe,
                pk == p * pe,
        ;
        assert(b * raise(e) == bv);
    } else {
        lemma_pow2_pos(k);
        lemma_scale_order(lo * bv, av, pk);
        lemma_scale_order(av, hi * bv, pk);
        assert(b * raise(e) == bv);
        assert(a * lower(e) == av);
    }
}

proof fn lemma_binade_ordered(a: nat, b: nat, lo: int, hi: int)
    requires
        a > 0,
        b > 0,
        in_binade(a, b, lo),
        in_binade(a, b, hi),
    ensures
        hi <= lo,
{
    if hi <= lo {
        return ;
    }
    let k: nat = ((if lo < 0 {
        -lo
    } else {
        lo
    }) + (if hi < 0 {
        -hi
    } else {
        hi
    })) as nat;
    lemma_binade_scaled(a, b, lo, k);
    lemma_binade_scaled(a, b, hi, k);
    let pl: int = pow2((k + lo) as nat) as int;
    let ph: int = pow2((k + hi) as nat) as int;
    lemma_pow2_unfold((k + lo + 1) as nat);
    if k + lo + 1 < k + hi {
        lemma_pow2_strictly_increases((k + lo + 1) as nat, (k + hi) as nat);
    }
    assert(ph >= 2 * pl);
    let m1: int = SIG_MIN as int;
    let m2: int = SIG_END as int;
    let bv: int = b as int;
    assert(m1 * bv * ph >= m2 * bv * pl) by (nonlinear_arith)
        requires
            ph >= 2 * pl,
            bv > 0,
            m1 > 0,
            m2 == 2 * m1,
    ;
}

/// At most one exponent puts `a / b` in its binade.
pub proof fn lemma_binade_unique(a: nat, b: nat, e1: int, e2: int)
    requires
        a > 0,
        b > 0,
        in_binade(a, b, e1),
        in_binade(a, b, e2),
    ensures
        e1 == e2,
{
    lemma_binade_ordered(a, b, e1, e2);
    lemma_binade_ordered(a, b, e2, e1);
}

/// A normalised significand shifted left by `g` bits absorbs an addend
/// smaller than half of its last place.
pub proof fn lemma_absorbed(m: nat, g: nat, y: nat)
    requires
        SIG_MIN <= m < SIG_END,
        2 * y < pow2(g),
    ensures
        nearest(m * pow2(g) + y, 1) == (Dyadic { mantissa: m, exponent: g as int }),
{
    let p: nat = pow2(g);
    let total: nat = m * p + y;
    lemma_pow2_pos(g);
    lemma2_to64();
    assert(total >= SIG_MIN * p) by (nonlinear_arith)
        requires
            total == m * p + y,
            m >= SIG_MIN,
            p > 0,
    ;
    assert(total < SIG_END * p) by (nonlinear_arith)
        requires
            total == m * p + y,
            m + 1 <= SIG_END,
            y < p,
            p > 0,
    ;
    assert(total > 0) by (nonlinear_arith)
        requires
            total >= SIG_MIN * p,
            p > 0,
            SIG_MIN > 0,
    ;
    assert(1 * raise(g as int) == p);
    assert(total * lower(g as int) == total);
    assert(in_binade(total, 1, g as int));
    let e = binade(total, 1);
    lemma_binade_unique(total, 1, e, g as int);
    lemma_fundamental_div_mod_converse(total as int, p as int, m as int, y as int);
}

/// The count of doublings that bring a quotient below `2^52` into its
/// binade.
proof fn lemma_binade_below(a: nat, b: nat, j: nat) -> (e: nat)
    requires
        a > 0,
        b > 0,
        a * pow2(j) < SIG_END * b,
        j == 0 ==> a < SIG_MIN * b,
    ensures
        e >= 1,
        e >= j,
        in_binade(a, b, -(e as int)),
    decreases SIG_END * b - a * pow2(j),
{
    let p: nat = pow2(j);
    lemma_pow2_pos(j);
    lemma2_to64();
    if j >= 1 && a * p >= SIG_MIN * b {
        assert(b * raise(-(j as int)) == b) by (nonlinear_arith)
            requires
                raise(-(j as int)) == 1,
        ;
        j
    } else {
        lemma_pow2_unfold(j + 1);
        assert(a * p < SIG_MIN * b) by (nonlinear_arith)
            requires
                j == 0 ==> a < SIG_MIN * b && p == 1,
                j >= 1 ==> a * p < SIG_MIN * b,
        ;
        assert(a * pow2(j + 1) == 2 * (a * p)) by (nonlinear_arith)
            requires
                pow2(j + 1) == 2 * p,
        ;
        assert(a * p >= 1) by (nonlinear_arith)
            requires
                a >= 1,
                p >= 1,
        ;
        lemma_binade_below(a, b, j + 1)
    }
}

/// Rounding keeps the order of a quotient against a whole number: the value
/// nearest to `a / b` is at least `k` exactly when `a / b` is. It holds of
/// the quotients whose numerator is below `2^53` and that are themselves
/// below `2^52`.
pub proof fn lemma_nearest_against_integer(a: nat, b: nat, k: nat)
    requires
        b > 0,
        k > 0,
        a < SIG_END,
        a < SIG_MIN * b,
    ensures
        at_least(nearest(a, b), k) <==> a >= k * b,
{
    lemma2_to64();
    if a == 0 {
        assert(k * b >= 1) by (nonlinear_arith)
            requires
                k >= 1,
                b >= 1,
        ;
        assert(0 * pow2(0) == 0) by (nonlinear_arith);
        assert(!at_least(nearest(a, b), k));
    } else {
        let j: nat = lemma_binade_below(a, b, 0);
        let e: int = -(j as int);
        lemma_binade_unique(a, b, binade(a, b), e);
        let l: int = pow2(j) as int;
        lemma_pow2_pos(j);
        let x: int = a * l;
        let bv: int = b as int;
        let kv: int = k as int;
        assert(raise(e) == 1);
        assert(lower(e) == l);
        assert(b * raise(e) == bv) by (nonlinear_arith)
            requires
                raise(e) == 1,
                bv == b,
        ;
        assert(a * lower(e) == x);
        let q: int = x / bv;
        let r: int = x % bv;
        lemma_fundamental_div_mod(x, bv);
        let m: int = round_half_even(x as nat, b) as int;
        assert(m == q || m == q + 1);
        assert(2 * l > bv) by (nonlinear_arith)
            requires
                a * l >= SIG_MIN * bv,
                a < 2 * SIG_MIN,
                l > 0,
                bv > 0,
        ;
        if a >= k * b {
            assert(q >= kv * l) by (nonlinear_arith)
                requires
                    x == a * l,
                    a >= kv * bv,
                    x == bv * q + r,
                    0 <= r < bv,
                    l > 0,
            ;
            assert(m >= kv * l);
        } else {
            assert(x <= kv * l * bv - l) by (nonlinear_arith)
                requires
                    x == a * l,
                    a + 1 <= kv * bv,
                    l > 0,
            ;
            assert(q <= kv * l - 1) by (nonlinear_arith)
                requires
                    x <= kv * l * bv - l,
                    x == bv * q + r,
                    0 <= r < bv,
                    l > 0,
                    bv > 0,
            ;
            if q == kv * l - 1 {
                assert(2 * r < bv) by (nonlinear_arith)
                    requires
                        x <= kv * l * bv - l,
                        x == bv * q + r,
                        q == kv * l - 1,
                        2 * l > bv,
                ;
                assert(m == q);
            }
            assert(m < kv * l);
        }
        let res = nearest(a, b);
        assert(round_half_even(a * lower(e), b * raise(e)) == m);
        assert((m >= kv * l) <==> a >= k * b);
        if m == SIG_END {
            assert(res == Dyadic { mantissa: SIG_MIN as nat, exponent: e + 1 });
            if j >= 2 {
                let h: int = pow2((j - 1) as nat) as int;
                lemma_pow2_unfold(j);
                assert(l == 2 * h);
                assert(kv * l == 2 * (kv * h)) by (nonlinear_arith)
                    requires
                        l == 2 * h,
                ;
                assert((-(e + 1)) as nat == (j - 1) as nat);
                assert(at_least(res, k) <==> SIG_MIN >= kv * h);
            } else {
                assert(l == 2);
                assert(SIG_MIN * pow2(0) == SIG_MIN) by (nonlinear_arith)
                    requires
                        pow2(0) == 1,
                ;
                assert(e + 1 == 0);
                assert(at_least(res, k) <==> SIG_MIN >= kv);
                assert(kv * l == 2 * kv) by (nonlinear_arith)
                    requires
                        l == 2,
                ;
            }
            assert(at_least(res, k) <==> m >= kv * l);
        } else {
            assert(res == Dyadic { mantissa: m as nat, exponent: e });
            assert((-e) as nat == j);
            assert(k * pow2(j) == kv * l) by (nonlinear_arith)
                requires
                    kv == k,
                    l == pow2(j),
            ;
            assert(at_least(res, k) <==> m >= kv * l);
        }
    }
}

/// A power of two below `2^127` has an exponent below 127.
proof fn lemma_exponent_below_127(k: nat)
    requires
        pow2(k) < 0x8000_0000_0000_0000_0000_0000_0000_0000,
    ensures
        k < 127,
{
    lemma2_to64();
    lemma2_to64_rest();
    lemma_pow2_adds(64, 63);
    if k > 127 {
        lemma_pow2_strictly_increases(127, k);
    }
}

/// A power of two below `2^n`, for `n` up to 64, has an exponent below `n`.
proof fn lemma_exponent_below(k: nat, n: nat)
    requires
        pow2(k) < pow2(n),
    ensures
        k < n,
{
    if k > n {
        lemma_pow2_strictly_increases(n, k);
    }
}

/// `2^k` for `k` up to 64.
fn power_of_two(k: u32) -> (p: u128)
    requires
        k <= 64,
    ensures
        p == pow2(k as nat),
        0 < p <= 0x1_0000_0000_0000_0000,
{
    let mut p: u128 = 1;
    let mut i: u32 = 0;
    proof {
        lemma2_to64();
    }
    while i < k
        invariant
            i <= k <= 64,
            p == pow2(i as nat),
            0 < p <= 0x1_0000_0000_0000_0000,
        decreases k - i,
    {
        proof {
            lemma2_to64();
            lemma_pow2_unfold((i + 1) as nat);
            if i + 1 < 64 {
                lemma_pow2_strictly_increases((i + 1) as nat, 64);
            }
        }
        p = p * 2;
        i = i + 1;
    }
    p
}

/// A value in working form: `mantissa * 2^exponent`.
#[derive(Clone, Copy, Debug)]
pub struct Binary64 {
    pub mantissa: u64,
    pub exponent: i32,
}

impl View for Binary64 {
    type V = Dyadic;

    open spec fn view(&self) -> Dyadic {
        Dyadic { mantissa: self.mantissa as nat, exponent: self.exponent as int }
    }
}

impl Binary64 {
    /// Zero, or a significand of exactly 53 bits.
    pub open spec fn normal(&self) -> bool {
        (self.mantissa == 0 && self.exponent == 0) || SIG_MIN <= self.mantissa < SIG_END
    }

    /// The representable value nearest to `a / b`.
    pub fn from_ratio(a: u128, b: u128) -> (r: Binary64)
        requires
            0 < b < 0x800_0000_0000_0000_0000,
        ensures
            r@ == nearest(a as nat, b as nat),
            r.normal(),
            a == 0 <==> r.mantissa == 0,
            -127 <= r.exponent <= 76,
            a < b * SIG_MIN ==> r.exponent <= 0,
            a >= b * SIG_MIN ==> r.exponent >= 0,
            r.exponent >= 1 ==> b * pow2((r.exponent - 1) as nat) * SIG_MIN <= a,
    {
        if a == 0 {
            return Binary64 { mantissa: 0, exponent: 0 };
        }
        let low: u128 = b * (SIG_MIN as u128);
        let mut num: u128 = a;
        let mut den: u128 = b;
        let mut exp: i32 = 0;
        proof {
            lemma2_to64();
            assert(a * pow2(0) == a) by (nonlinear_arith)
                requires
                    pow2(0) == 1,
            ;
            assert(b * pow2(0) == b) by (nonlinear_arith)
                requires
                    pow2(0) == 1,
            ;
        }
        if num < low {
            while num < low
                invariant
                    0 < a,
                    0 < num,
                    den == b,
                    low == b * SIG_MIN,
                    low < 0x8000_0000_0000_0000_0000_0000_0000_0000,
                    -127 <= exp <= 0,
                    num == a * pow2((-exp) as nat),
                    exp < 0 ==> num < 2 * low,
                    exp == 0 ==> num < low,
                decreases 127 + exp,
            {
                proof {
                    let p: nat = pow2((-exp) as nat);
                    assert(p <= num) by (nonlinear_arith)
                        requires
                            num == a * p,
                            a >= 1,
                            p >= 0,
                    ;
                    lemma_exponent_below_127((-exp) as nat);
                    lemma_pow2_unfold((-exp + 1) as nat);
                    assert(a * (2 * p) == 2 * (a * p)) by (nonlinear_arith);
                }
                num = num * 2;
                exp = exp - 1;
            }
            assert(exp < 0);
            assert(den * 0x10_0000_0000_0000 <= num < den * 0x20_0000_0000_0000);
        } else {
            while num / (SIG_END as u128) >= den
                invariant
                    0 < b,
                    num == a,
                    0 <= exp <= 75,
                    0 < den,
                    den == b * pow2(exp as nat),
                    den * SIG_MIN <= num,
                decreases num - den,
            {
                proof {
                    let p: nat = pow2(exp as nat);
                    assert(p <= den) by (nonlinear_arith)
                        requires
                            den == b * p,
                            b >= 1,
                            p >= 0,
                    ;
                    lemma2_to64();
                    lemma_pow2_adds(64, 11);
                    assert(pow2(75) == 0x800_0000_0000_0000_0000);
                    assert(den <= num / 0x20_0000_0000_0000);
                    assert(num / 0x20_0000_0000_0000 < 0x800_0000_0000_0000_0000);
                    lemma_exponent_below(exp as nat, 75);
                    lemma_pow2_unfold((exp + 1) as nat);
                    assert(b * (2 * p) == 2 * (b * p)) by (nonlinear_arith);
                }
                den = den * 2;
                exp = exp + 1;
            }
            assert(num / 0x20_0000_0000_0000 < den);
            assert(den * 0x10_0000_0000_0000 <= num < den * 0x20_0000_0000_0000);
        }
        proof {
            assert(a * 1 == a) by (nonlinear_arith);
            assert(b * 1 == b) by (nonlinear_arith);
            assert(den == b * raise(exp as int));
            assert(num == a * lower(exp as int));
            assert(den * SIG_MIN <= num < den * SIG_END);
        }
        let q: u128 = num / den;
        let r: u128 = num % den;
        proof {
            lemma_fundamental_div_mod(num as int, den as int);
            assert(in_binade(a as nat, b as nat, exp as int));
            lemma_binade_unique(a as nat, b as nat, binade(a as nat, b as nat), exp as int);
            assert(SIG_MIN <= q < SIG_END) by (nonlinear_arith)
                requires
                    num == den * q + r,
                    0 <= r < den,
                    den * SIG_MIN <= num < den * SIG_END,
            ;
        }
        let round_up: bool = r > den - r || (r == den - r && q % 2 == 1);
        let m: u128 = if round_up {
            q + 1
        } else {
            q
        };
        assert(m == round_half_even(num as nat, den as nat));
        proof {
            if exp >= 1 {
                lemma_pow2_unfold(exp as nat);
                let p: nat = pow2((exp - 1) as nat);
                assert(b * p * SIG_MIN <= a) by (nonlinear_arith)
                    requires
                        den == b * (2 * p),
                        den * SIG_MIN <= a,
                        p >= 0,
                        b >= 0,
                ;
            }
        }
        if m == SIG_END as u128 {
            Binary64 { mantissa: SIG_MIN, exponent: exp + 1 }
        } else {
            Binary64 { mantissa: m as u64, exponent: exp }
        }
    }

    /// The representable value nearest to the integer `n`.
    pub fn from_integer(n: u64) -> (r: Binary64)
        ensures
            r@ == nearest(n as nat, 1),
            r.normal(),
            -127 <= r.exponent <= 12,
    {
        let r = Binary64::from_ratio(n as u128, 1);
        proof {
            if r.exponent >= 1 {
                let w: nat = pow2((r.exponent - 1) as nat);
                lemma2_to64();
                assert(w < pow2(12)) by (nonlinear_arith)
                    requires
                        1 * w * SIG_MIN <= n,
                        n < 0x1_0000_0000_0000_0000,
                        SIG_MIN == 0x10_0000_0000_0000,
                        pow2(12) == 0x1000,
                ;
                lemma_exponent_below((r.exponent - 1) as nat, 12);
            }
        }
        r
    }

    /// The representable value nearest to `self / d`.
    pub fn quotient(&self, d: u64) -> (r: Binary64)
        requires
            self.normal(),
            d > 0,
            -1000 <= self.exponent <= 1000,
        ensures
            r@ == quotient(self@, d as nat),
            r.normal(),
            self.exponent - 127 <= r.exponent <= self.exponent + 76,
            d >= 2 ==> r.exponent <= self.exponent,
    {
        let q = Binary64::from_ratio(self.mantissa as u128, d as u128);
        Binary64 { mantissa: q.mantissa, exponent: q.exponent + self.exponent }
    }

    /// The representable value nearest to `self + other`.
    pub fn sum(&self, other: &Binary64) -> (r: Binary64)
        requires
            self.normal(),
            other.normal(),
            -1000 <= self.exponent <= 1000,
            -1000 <= other.exponent <= 1000,
        ensures
            r@ == sum(self@, other@),
            r.normal(),
            r.exponent <= self.exponent + 2 || r.exponent <= other.exponent + 2,
            r.exponent >= self.exponent - 127 || r.exponent >= other.exponent - 127,
    {
        let swap: bool = self.exponent < other.exponent;
        let big: Binary64 = if swap {
            *other
        } else {
            *self
        };
        let small: Binary64 = if swap {
            *self
        } else {
            *other
        };
        let gap: i32 = big.exponent - small.exponent;
        let ghost exact: int = big.mantissa * pow2(gap as nat) + small.mantissa;
        proof {
            lemma2_to64();
            let c: int = small.exponent as int;
            let sm: nat = self.mantissa as nat;
            let om: nat = other.mantissa as nat;
            let sp: nat = pow2((self.exponent - c) as nat);
            let op: nat = pow2((other.exponent - c) as nat);
            assert(sm * sp + om * op == exact) by (nonlinear_arith)
                requires
                    exact == big.mantissa * pow2(gap as nat) + small.mantissa,
                    swap ==> sp == 1 && op == pow2(gap as nat) && big.mantissa == om
                        && small.mantissa == sm,
                    !swap ==> op == 1 && sp == pow2(gap as nat) && big.mantissa == sm
                        && small.mantissa == om,
            ;
        }
        if big.mantissa == 0 {
            proof {
                assert(exact == small.mantissa) by (nonlinear_arith)
                    requires
                        exact == big.mantissa * pow2(gap as nat) + small.mantissa,
                        big.mantissa == 0,
                ;
                if small.mantissa != 0 {
                    lemma_absorbed(small.mantissa as nat, 0, 0);
                    assert(small.mantissa * pow2(0) + 0 == small.mantissa as nat) by (nonlinear_arith)
                        requires
                            pow2(0) == 1,
                    ;
                }
            }
            small
        } else if gap >= 54 {
            proof {
                lemma2_to64_rest();
                if gap > 54 {
                    lemma_pow2_strictly_increases(54, gap as nat);
                }
                lemma_absorbed(big.mantissa as nat, gap as nat, small.mantissa as nat);
            }
            big
        } else {
            let p: u128 = power_of_two(gap as u32);
            proof {
                lemma2_to64_rest();
                if gap < 53 {
                    lemma_pow2_strictly_increases(gap as nat, 53);
                }
                assert(big.mantissa * p <= 0x20_0000_0000_0000 * 0x20_0000_0000_0000)
                    by (nonlinear_arith)
                    requires
                        big.mantissa <= 0x20_0000_0000_0000,
                        0 <= p <= 0x20_0000_0000_0000,
                ;
            }
            let total: u128 = (big.mantissa as u128) * p + (small.mantissa as u128);
            let r = Binary64::from_ratio(total, 1);
            proof {
                if r.exponent >= 1 {
                    let w: nat = pow2((r.exponent - 1) as nat);
                    lemma_pow2_adds(gap as nat, 2);
                    assert(w * SIG_MIN < pow2((gap + 2) as nat) * SIG_MIN) by (nonlinear_arith)
                        requires
                            1 * w * SIG_MIN <= total,
                            total == big.mantissa * p + small.mantissa,
                            big.mantissa < SIG_END,
                            small.mantissa < SIG_END,
                            SIG_END == 2 * SIG_MIN,
                            p >= 1,
                            pow2((gap + 2) as nat) == p * 4,
                    ;
                    assert(w < pow2((gap + 2) as nat)) by (nonlinear_arith)
                        requires
                            w * SIG_MIN < pow2((gap + 2) as nat) * SIG_MIN,
                            SIG_MIN > 0,
                    ;
                    lemma_exponent_below((r.exponent - 1) as nat, (gap + 2) as nat);
                }
            }
            Binary64 { mantissa: r.mantissa, exponent: r.exponent + small.exponent }
        }
    }

    /// `self * unit` rounded to the nearest natural number, a tie going to the
    /// even one.
    pub fn scaled(&self, unit: u64) -> (t: u128)
        requires
            self.mantissa <= SIG_END,
            unit <= 1000,
            -1000 <= self.exponent <= 64,
        ensures
            t == scaled(self@, unit as nat),
    {
        proof {
            lemma2_to64();
            assert(self.mantissa * unit <= 0x20_0000_0000_0000 * 1000) by (nonlinear_arith)
                requires
                    self.mantissa <= 0x20_0000_0000_0000,
                    unit <= 1000,
            ;
        }
        let m: u128 = (self.mantissa as u128) * (unit as u128);
        if self.exponent >= 0 {
            let p: u128 = power_of_two(self.exponent as u32);
            proof {
                assert(m * p <= 0x20_0000_0000_0000 * 1000 * 0x1_0000_0000_0000_0000)
                    by (nonlinear_arith)
                    requires
                        0 <= m <= 0x20_0000_0000_0000 * 1000,
                        0 <= p <= 0x1_0000_0000_0000_0000,
                ;
            }
            m * p
        } else if self.exponent < -64 {
            proof {
                let d: nat = pow2((-self.exponent) as nat);
                lemma_pow2_strictly_increases(64, (-self.exponent) as nat);
                lemma_basic_div(m as int, d as int);
                lemma_small_mod(m as nat, d);
            }
            0
        } else {
            let den: u128 = power_of_two((-self.exponent) as u32);
            let q: u128 = m / den;
            let r: u128 = m % den;
            if r > den - r || (r == den - r && q % 2 == 1) {
                q + 1
            } else {
                q
            }
        }
    }
}

} // verus!
