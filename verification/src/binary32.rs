//! Single-precision arithmetic in integers.
//!
//! The microcontroller has no floating-point unit, and the position of the sun on the strip
//! depends on how each intermediate result is rounded. A [`Binary32`] is a non-negative IEEE 754
//! binary32 number no greater than 2^24, kept as an integer over a power of two. Each operation
//! computes the exact rational result and rounds it once, to the nearest number of 24 significant
//! bits, a tie going to the even significand.
use vstd::arithmetic::power2::pow2;
use vstd::prelude::*;

verus! {

/// Smallest significand of a normalised number, 2^23.
pub const MANT_MIN: u32 = 0x80_0000;

/// Bound of the significands, 2^24.
pub const MANT_MAX: u32 = 0x100_0000;

/// Largest exponent of a denominator that the integer arithmetic has room for.
pub const MAX_EXPONENT: u32 = 103;

/// The number `mant / 2^scale`.
#[derive(Clone, Copy, Debug, PartialEq, Eq, Structural)]
pub struct Binary32 {
    pub mant: u32,
    pub scale: u32,
}

/// The integer nearest to `num / den`; of two equally near ones, the even one.
pub open spec fn nearest_even(num: nat, den: nat) -> nat {
    let q = num / den;
    let r = num % den;
    if 2 * r < den || (2 * r == den && q % 2 == 0) {
        q
    } else {
        q + 1
    }
}

/// The binary32 number nearest to `num / den`, as significand and scale: the quotient is doubled
/// until it has 24 significant bits, then rounded to an integer.
pub open spec fn rounded(num: nat, den: nat) -> (nat, nat)
    decreases
            if num < MANT_MIN * den {
                (MANT_MIN * den - num) as nat
            } else {
                0
            },
{
    if num == 0 {
        (0, 0)
    } else if num >= MANT_MIN * den {
        (nearest_even(num, den), 0)
    } else {
        let r = rounded(2 * num, den);
        (r.0, r.1 + 1)
    }
}

/// The binary32 number nearest to `num / den` where that is not less than 2^23: an integer, which
/// is doubled for each bit that it has above 24.
pub open spec fn rounded_whole(num: nat, den: nat) -> nat
    decreases
            if num < MANT_MAX * den {
                0
            } else {
                (num - MANT_MAX * den + 1) as nat
            },
{
    if den == 0 || num < MANT_MAX * den {
        nearest_even(num, den)
    } else {
        2 * rounded_whole(num, 2 * den)
    }
}

/// The binary32 product of two numbers.
pub open spec fn product(a: (nat, nat), b: (nat, nat)) -> (nat, nat) {
    rounded(a.0 * b.0, pow2(a.1 + b.1))
}

/// The binary32 quotient of two numbers.
pub open spec fn quotient(a: (nat, nat), b: (nat, nat)) -> (nat, nat) {
    rounded(a.0 * pow2(b.1), b.0 * pow2(a.1))
}

/// The binary32 sum of two numbers.
pub open spec fn sum(a: (nat, nat), b: (nat, nat)) -> (nat, nat) {
    rounded(a.0 * pow2(b.1) + b.0 * pow2(a.1), pow2(a.1 + b.1))
}

/// The binary32 difference of two numbers, the first of which is not less than the second.
pub open spec fn difference(a: (nat, nat), b: (nat, nat)) -> (nat, nat) {
    rounded((a.0 * pow2(b.1) - b.0 * pow2(a.1)) as nat, pow2(a.1 + b.1))
}

/// The remainder of a number by an integer. It is exact, so there is nothing to round.
pub open spec fn remainder(a: (nat, nat), n: nat) -> (nat, nat) {
    (a.0 % (n * pow2(a.1)), a.1)
}

/// The integer part of a number.
pub open spec fn integer_part(a: (nat, nat)) -> nat {
    a.0 / pow2(a.1)
}

/// `a >= b`.
pub open spec fn at_least(a: (nat, nat), b: (nat, nat)) -> bool {
    a.0 * pow2(b.1) >= b.0 * pow2(a.1)
}

impl View for Binary32 {
    type V = (nat, nat);

    open spec fn view(&self) -> (nat, nat) {
        (self.mant as nat, self.scale as nat)
    }
}

/// What rounding leaves: a significand of 24 bits (or the power of two above them) at the scale
/// that gives the quotient 24 bits, the nearest one at that scale.
pub proof fn lemma_rounded(num: nat, den: nat)
    requires
        0 < num < MANT_MAX * den,
    ensures
        MANT_MIN <= rounded(num, den).0 <= MANT_MAX,
        rounded(num, den).0 == nearest_even(num * pow2(rounded(num, den).1), den),
        MANT_MIN * den <= num * pow2(rounded(num, den).1) < MANT_MAX * den,
    decreases
            if num < MANT_MIN * den {
                (MANT_MIN * den - num) as nat
            } else {
                0
            },
{
    let r = rounded(num, den);
    if num >= MANT_MIN * den {
        vstd::arithmetic::power2::lemma2_to64();
        assert(num * pow2(0) == num);
        lemma_quotient_bounds(num, den, MANT_MIN as nat, MANT_MAX as nat);
    } else {
        lemma_rounded(2 * num, den);
        let s = rounded(2 * num, den).1;
        vstd::arithmetic::power2::lemma_pow2_unfold(s + 1);
        assert(num * pow2(s + 1) == (2 * num) * pow2(s)) by (nonlinear_arith)
            requires
                pow2(s + 1) == 2 * pow2(s),
        ;
    }
}

proof fn lemma_quotient_bounds(num: nat, den: nat, lo: nat, hi: nat)
    requires
        den > 0,
        lo * den <= num < hi * den,
    ensures
        lo <= nearest_even(num, den) <= hi,
{
    let q = num / den;
    let r = num % den;
    vstd::arithmetic::div_mod::lemma_fundamental_div_mod(num as int, den as int);
    assert(lo <= q < hi) by (nonlinear_arith)
        requires
            den > 0,
            lo * den <= num < hi * den,
            num == den * q + r,
            0 <= r < den,
    ;
}

/// The nearest integer is off by at most one half.
pub proof fn lemma_nearest_even_error(num: nat, den: nat)
    requires
        den > 0,
    ensures
        -(den as int) <= 2 * (nearest_even(num, den) * den - num) <= den,
{
    let q = num / den;
    let r = num % den;
    vstd::arithmetic::div_mod::lemma_fundamental_div_mod(num as int, den as int);
    assert(q * den == num - r) by (nonlinear_arith)
        requires
            num == den * q + r,
    ;
    assert((q + 1) * den == num - r + den) by (nonlinear_arith)
        requires
            num == den * q + r,
    ;
}

/// Rounding is off by at most half a unit of the last place.
pub proof fn law_rounding_error(num: nat, den: nat)
    requires
        0 < num < MANT_MAX * den,
    ensures
        -(den as int) <= 2 * (rounded(num, den).0 * den - num * pow2(rounded(num, den).1)) <= den,
{
    lemma_rounded(num, den);
    lemma_nearest_even_error(num * pow2(rounded(num, den).1), den);
}

/// The scale of a rounded quotient is bounded when the quotient is bounded from below.
pub proof fn lemma_rounded_scale(num: nat, den: nat, e: nat)
    requires
        0 < num < MANT_MAX * den,
        den <= num * pow2(e),
    ensures
        rounded(num, den).1 <= e + 23,
{
    lemma_rounded(num, den);
    let s = rounded(num, den).1;
    if s >= e + 24 {
        vstd::arithmetic::power2::lemma2_to64();
        vstd::arithmetic::power2::lemma_pow2_adds(e, 24);
        if s > e + 24 {
            vstd::arithmetic::power2::lemma_pow2_strictly_increases(e + 24, s);
        }
        assert(num * pow2(s) >= MANT_MAX * den) by (nonlinear_arith)
            requires
                pow2(s) >= pow2(e) * 0x100_0000,
                den <= num * pow2(e),
        ;
    }
}

/// Rounding does not go past a number that the scale can hold: if `num / den` is at most
/// `top / 2^e`, and the scale has reached `e`, so is the rounded quotient.
pub proof fn lemma_rounded_at_most(num: nat, den: nat, top: nat, e: nat)
    requires
        0 < num < MANT_MAX * den,
        num * pow2(e) <= top * den,
        e <= rounded(num, den).1,
    ensures
        rounded(num, den).0 * pow2(e) <= top * pow2(rounded(num, den).1),
{
    lemma_rounded(num, den);
    let (m, s) = rounded(num, den);
    let k = (s - e) as nat;
    vstd::arithmetic::power2::lemma_pow2_adds(e, k);
    vstd::arithmetic::power2::lemma_pow2_pos(k);
    vstd::arithmetic::power2::lemma_pow2_pos(e);
    let x = num * pow2(s);
    let cap = top * pow2(k);
    assert(x <= cap * den) by (nonlinear_arith)
        requires
            x == num * pow2(s),
            cap == top * pow2(k),
            pow2(s) == pow2(e) * pow2(k),
            num * pow2(e) <= top * den,
    ;
    let q = x / den;
    let r = x % den;
    vstd::arithmetic::div_mod::lemma_fundamental_div_mod(x as int, den as int);
    assert(m <= cap) by {
        assert(q <= cap && (q == cap ==> r == 0)) by (nonlinear_arith)
            requires
                den > 0,
                x <= cap * den,
                x == den * q + r,
                0 <= r < den,
        ;
    }
    assert(m * pow2(e) <= top * pow2(s)) by (nonlinear_arith)
        requires
            m <= cap,
            cap == top * pow2(k),
            pow2(s) == pow2(e) * pow2(k),
    ;
}

/// An even integer that is off by at most one half is the nearest one.
pub proof fn lemma_nearest_even_is(num: nat, den: nat, m: nat)
    requires
        den > 0,
        m % 2 == 0,
        -(den as int) <= 2 * (m * den - num) <= den,
    ensures
        nearest_even(num, den) == m,
{
    let q = num / den;
    let r = num % den;
    vstd::arithmetic::div_mod::lemma_fundamental_div_mod(num as int, den as int);
    let d = m * den - num;
    assert(m == q || m == q + 1) by (nonlinear_arith)
        requires
            den > 0,
            num == den * q + r,
            0 <= r < den,
            d == m * den - num,
            -(den as int) <= 2 * d <= den,
    ;
    if m == q {
        assert(d == -r) by (nonlinear_arith)
            requires
                m == q,
                num == den * q + r,
                d == m * den - num,
        ;
    } else {
        assert(d == den - r) by (nonlinear_arith)
            requires
                m == q + 1,
                num == den * q + r,
                d == m * den - num,
        ;
    }
}

/// The scale of a rounded number is the one that gives it 24 bits.
pub proof fn lemma_scale_is(num: nat, den: nat, s: nat)
    requires
        0 < num < MANT_MAX * den,
        MANT_MIN * den <= num * pow2(s) < MANT_MAX * den,
    ensures
        rounded(num, den) == (nearest_even(num * pow2(s), den), s),
{
    lemma_rounded(num, den);
    let e = rounded(num, den).1;
    if e < s {
        vstd::arithmetic::power2::lemma_pow2_unfold(s);
        if e + 1 < s {
            vstd::arithmetic::power2::lemma_pow2_strictly_increases(e, (s - 1) as nat);
        }
        assert(num * pow2(s) >= 2 * (num * pow2(e))) by (nonlinear_arith)
            requires
                pow2(s) >= 2 * pow2(e),
        ;
    } else if e > s {
        vstd::arithmetic::power2::lemma_pow2_unfold(e);
        if s + 1 < e {
            vstd::arithmetic::power2::lemma_pow2_strictly_increases(s, (e - 1) as nat);
        }
        assert(num * pow2(e) >= 2 * (num * pow2(s))) by (nonlinear_arith)
            requires
                pow2(e) >= 2 * pow2(s),
        ;
    }
}

/// A quotient without remainder is its own nearest integer.
pub proof fn lemma_nearest_even_exact(m: nat, den: nat)
    requires
        den > 0,
    ensures
        nearest_even(m * den, den) == m,
{
    vstd::arithmetic::div_mod::lemma_fundamental_div_mod_converse(
        (m * den) as int,
        den as int,
        m as int,
        0,
    );
}

/// Doubling both sides of a fraction leaves its nearest integer.
proof fn lemma_nearest_even_doubles(num: nat, den: nat)
    requires
        den > 0,
    ensures
        nearest_even(2 * num, 2 * den) == nearest_even(num, den),
{
    let q = num / den;
    let r = num % den;
    vstd::arithmetic::div_mod::lemma_fundamental_div_mod(num as int, den as int);
    assert(2 * num == q * (2 * den) + 2 * r) by (nonlinear_arith)
        requires
            num == den * q + r,
    ;
    vstd::arithmetic::div_mod::lemma_fundamental_div_mod_converse(
        (2 * num) as int,
        (2 * den) as int,
        q as int,
        (2 * r) as int,
    );
}

/// Doubling both sides of a fraction leaves what it is rounded to.
pub proof fn lemma_rounded_doubles(num: nat, den: nat)
    requires
        den > 0,
    ensures
        rounded(2 * num, 2 * den) == rounded(num, den),
    decreases
            if num < MANT_MIN * den {
                (MANT_MIN * den - num) as nat
            } else {
                0
            },
{
    if num > 0 {
        if num >= MANT_MIN * den {
            lemma_nearest_even_doubles(num, den);
        } else {
            lemma_rounded_doubles(2 * num, den);
        }
    }
}

/// Doubling both sides of a fraction leaves what it is rounded to.
pub proof fn lemma_rounded_whole_doubles(num: nat, den: nat)
    requires
        den > 0,
    ensures
        rounded_whole(2 * num, 2 * den) == rounded_whole(num, den),
    decreases
            if num < MANT_MAX * den {
                0
            } else {
                (num - MANT_MAX * den + 1) as nat
            },
{
    if num < MANT_MAX * den {
        lemma_nearest_even_doubles(num, den);
    } else {
        lemma_rounded_whole_doubles(num, 2 * den);
    }
}

/// A power of two as a factor goes through the rounding of a large number.
pub proof fn lemma_rounded_whole_shifts(num: nat, e: nat)
    requires
        num >= MANT_MIN,
    ensures
        rounded_whole(num * pow2(e), 1) == rounded_whole(num, 1) * pow2(e),
    decreases e,
{
    vstd::arithmetic::power2::lemma2_to64();
    let w = rounded_whole(num, 1);
    if e == 0 {
        assert(num * pow2(0) == num && w * pow2(0) == w) by (nonlinear_arith)
            requires
                pow2(0) == 1,
        ;
    } else {
        let d = (e - 1) as nat;
        let n = num * pow2(d);
        lemma_rounded_whole_shifts(num, d);
        vstd::arithmetic::power2::lemma_pow2_unfold(e);
        vstd::arithmetic::power2::lemma_pow2_pos(d);
        assert(num * pow2(e) == 2 * n && w * pow2(e) == 2 * (w * pow2(d)) && n >= 0x80_0000)
            by (nonlinear_arith)
            requires
                pow2(e) == 2 * pow2(d),
                pow2(d) > 0,
                n == num * pow2(d),
                num >= 0x80_0000,
        ;
        assert(rounded_whole(2 * n, 1) == 2 * rounded_whole(2 * n, 2));
        lemma_rounded_whole_doubles(n, 1);
    }
}

/// Rounding a large number at most doubles it.
pub proof fn lemma_rounded_whole_bound(num: nat, den: nat)
    requires
        den > 0,
        num >= MANT_MIN * den,
    ensures
        rounded_whole(num, den) * den <= 2 * num,
    decreases
            if num < MANT_MAX * den {
                0
            } else {
                (num - MANT_MAX * den + 1) as nat
            },
{
    if num < MANT_MAX * den {
        lemma_nearest_even_error(num, den);
    } else {
        lemma_rounded_whole_bound(num, 2 * den);
        let w = rounded_whole(num, 2 * den);
        assert((2 * w) * den == w * (2 * den)) by (nonlinear_arith);
    }
}

/// 2^`e` as an integer.
pub(crate) fn power_of_two(e: u32) -> (p: u128)
    requires
        e <= MAX_EXPONENT,
    ensures
        p == pow2(e as nat),
        0 < p <= 0x80_0000_0000_0000_0000_0000_0000u128,
{
    let mut p: u128 = 1;
    let mut i: u32 = 0;
    proof {
        vstd::arithmetic::power2::lemma2_to64();
        vstd::arithmetic::power2::lemma2_to64_rest();
        vstd::arithmetic::power2::lemma_pow2_adds(64, 39);
    }
    while i < e
        invariant
            i <= e <= MAX_EXPONENT,
            p == pow2(i as nat),
            pow2(103) == 0x80_0000_0000_0000_0000_0000_0000,
        decreases e - i,
    {
        proof {
            vstd::arithmetic::power2::lemma_pow2_unfold((i + 1) as nat);
            vstd::arithmetic::power2::lemma_pow2_strictly_increases(i as nat, 103);
        }
        p = 2 * p;
        i = i + 1;
    }
    proof {
        vstd::arithmetic::power2::lemma_pow2_pos(e as nat);
        if e < 103 {
            vstd::arithmetic::power2::lemma_pow2_strictly_increases(e as nat, 103);
        }
    }
    p
}

/// Rounds `num / den` to the nearest binary32 number.
pub fn round_ratio(num: u128, den: u128) -> (r: Binary32)
    requires
        0 < den <= 0x80_0000_0000_0000_0000_0000_0000u128,
        num < MANT_MAX * den,
    ensures
        r@ == rounded(num as nat, den as nat),
{
    if num == 0 {
        return Binary32 { mant: 0, scale: 0 };
    }
    let floor: u128 = 0x80_0000 * den;
    let mut n: u128 = num;
    let mut s: u32 = 0;
    proof {
        vstd::arithmetic::power2::lemma2_to64();
        vstd::arithmetic::power2::lemma2_to64_rest();
        vstd::arithmetic::power2::lemma_pow2_adds(64, 63);
        assert(num * pow2(0) == num);
    }
    while n < floor
        invariant
            0 < den <= 0x80_0000_0000_0000_0000_0000_0000u128,
            floor == MANT_MIN * den,
            0 < n < MANT_MAX * den,
            n >= pow2(s as nat),
            pow2(127) == 0x8000_0000_0000_0000_0000_0000_0000_0000,
            rounded(num as nat, den as nat) == (
                rounded(n as nat, den as nat).0,
                rounded(n as nat, den as nat).1 + s as nat,
            ),
        decreases 2 * floor - n,
    {
        proof {
            vstd::arithmetic::power2::lemma_pow2_unfold((s + 1) as nat);
            if s >= 127 {
                if s > 127 {
                    vstd::arithmetic::power2::lemma_pow2_strictly_increases(127, s as nat);
                }
                assert(false);
            }
        }
        n = 2 * n;
        s = s + 1;
    }
    let q: u128 = n / den;
    let r: u128 = n % den;
    proof {
        lemma_quotient_bounds(n as nat, den as nat, MANT_MIN as nat, MANT_MAX as nat);
        assert(rounded(n as nat, den as nat) == (nearest_even(n as nat, den as nat), 0nat));
    }
    let mant: u128 = if 2 * r < den || (2 * r == den && q % 2 == 0) {
        q
    } else {
        q + 1
    };
    Binary32 { mant: mant as u32, scale: s }
}

/// Rounds `num / den`, which is not less than 2^23, to the nearest binary32 number.
pub fn round_whole(num: u64, den: u64) -> (w: u64)
    requires
        0 < den,
        MANT_MIN * den <= num < 0x100_0000_0000,
    ensures
        w == rounded_whole(num as nat, den as nat),
        w * den <= 2 * num,
    decreases num - den,
{
    proof {
        lemma_rounded_whole_bound(num as nat, den as nat);
    }
    if num < 0x100_0000 * den {
        let q: u64 = num / den;
        let r: u64 = num % den;
        if 2 * r < den || (2 * r == den && q % 2 == 0) {
            q
        } else {
            q + 1
        }
    } else {
        let half: u64 = round_whole(num, 2 * den);
        proof {
            assert(half <= 2 * num) by (nonlinear_arith)
                requires
                    half * (2 * den) <= 2 * num,
                    den > 0,
            ;
        }
        2 * half
    }
}

impl Binary32 {
    /// Room for the integer arithmetic: a significand of at most 24 bits.
    pub open spec fn wf(self) -> bool {
        self.mant <= MANT_MAX
    }

    /// The number `n`.
    pub fn from_integer(n: u32) -> (r: Self)
        requires
            n <= MANT_MAX,
        ensures
            r.wf(),
            r@ == (n as nat, 0nat),
    {
        Binary32 { mant: n, scale: 0 }
    }

    /// `self * other`, rounded.
    pub fn times(self, other: Self) -> (r: Self)
        requires
            self.wf(),
            other.wf(),
            self.scale + other.scale <= MAX_EXPONENT,
            self.mant * other.mant < MANT_MAX * pow2((self.scale + other.scale) as nat),
        ensures
            r.wf(),
            r@ == product(self@, other@),
    {
        let num: u128 = {
            proof {
                assert(self.mant * other.mant <= 0x100_0000 * 0x100_0000) by (nonlinear_arith)
                    requires
                        self.mant <= 0x100_0000,
                        other.mant <= 0x100_0000,
                ;
            }
            self.mant as u128 * other.mant as u128
        };
        let den: u128 = power_of_two(self.scale + other.scale);
        proof {
            lemma_rounded_wf(num as nat, den as nat);
        }
        round_ratio(num, den)
    }

    /// `self / other`, rounded.
    pub fn over(self, other: Self) -> (r: Self)
        requires
            self.wf(),
            other.wf(),
            other.mant > 0,
            self.scale <= 79,
            other.scale <= 79,
            self.mant * pow2(other.scale as nat) < MANT_MAX * (other.mant * pow2(
                self.scale as nat,
            )),
        ensures
            r.wf(),
            r@ == quotient(self@, other@),
    {
        let up: u128 = power_of_two(other.scale);
        let down: u128 = power_of_two(self.scale);
        proof {
            lemma_scaled_bound(self.mant, other.scale);
            lemma_scaled_bound(other.mant, self.scale);
            assert(other.mant * down > 0) by (nonlinear_arith)
                requires
                    other.mant > 0,
                    down > 0,
            ;
        }
        let num: u128 = self.mant as u128 * up;
        let den: u128 = other.mant as u128 * down;
        proof {
            lemma_rounded_wf(num as nat, den as nat);
        }
        round_ratio(num, den)
    }

    /// `self + other`, rounded.
    pub fn plus(self, other: Self) -> (r: Self)
        requires
            self.wf(),
            other.wf(),
            self.scale + other.scale <= MAX_EXPONENT,
            self.mant * pow2(other.scale as nat) + other.mant * pow2(self.scale as nat) < MANT_MAX
                * pow2((self.scale + other.scale) as nat),
        ensures
            r.wf(),
            r@ == sum(self@, other@),
    {
        let up: u128 = power_of_two(other.scale);
        let down: u128 = power_of_two(self.scale);
        let den: u128 = power_of_two(self.scale + other.scale);
        proof {
            assert(self.mant * up >= 0 && other.mant * down >= 0) by (nonlinear_arith)
                requires
                    up > 0,
                    down > 0,
            ;
            lemma_rounded_wf((self.mant * up + other.mant * down) as nat, den as nat);
        }
        let num: u128 = self.mant as u128 * up + other.mant as u128 * down;
        round_ratio(num, den)
    }

    /// `self - other`, rounded.
    pub fn minus(self, other: Self) -> (r: Self)
        requires
            self.wf(),
            other.wf(),
            self.scale + other.scale <= MAX_EXPONENT,
            self.mant < MANT_MAX * pow2(self.scale as nat),
            at_least(self@, other@),
        ensures
            r.wf(),
            r@ == difference(self@, other@),
    {
        let up: u128 = power_of_two(other.scale);
        let down: u128 = power_of_two(self.scale);
        let den: u128 = power_of_two(self.scale + other.scale);
        proof {
            vstd::arithmetic::power2::lemma_pow2_adds(self.scale as nat, other.scale as nat);
            assert(self.mant * up < 0x200_0000 * den) by (nonlinear_arith)
                requires
                    self.mant <= 0x100_0000,
                    up > 0,
                    down > 0,
                    den == down * up,
            ;
            assert(other.mant * down < 0x200_0000 * den) by (nonlinear_arith)
                requires
                    other.mant <= 0x100_0000,
                    up > 0,
                    down > 0,
                    den == down * up,
            ;
        }
        let num: u128 = self.mant as u128 * up - other.mant as u128 * down;
        proof {
            assert(num < 0x100_0000 * den) by (nonlinear_arith)
                requires
                    num <= self.mant * up,
                    self.mant < 0x100_0000 * down,
                    up > 0,
                    den == down * up,
            ;
            lemma_rounded_wf(num as nat, den as nat);
        }
        round_ratio(num, den)
    }

    /// `self % n`, which is exact.
    pub fn modulo(self, n: u32) -> (r: Self)
        requires
            self.wf(),
            0 < n <= MANT_MAX,
            self.scale <= MAX_EXPONENT,
        ensures
            r.wf(),
            r@ == remainder(self@, n as nat),
    {
        let p: u128 = power_of_two(self.scale);
        proof {
            assert(0 < n * p <= 0x100_0000 * 0x80_0000_0000_0000_0000_0000_0000)
                by (nonlinear_arith)
                requires
                    0 < n <= 0x100_0000,
                    0 < p <= 0x80_0000_0000_0000_0000_0000_0000,
            ;
        }
        let m: u128 = self.mant as u128 % (n as u128 * p);
        proof {
            vstd::arithmetic::div_mod::lemma_mod_decreases(self.mant as nat, (n * p) as nat);
        }
        Binary32 { mant: m as u32, scale: self.scale }
    }

    /// The integer part of `self`.
    pub fn truncate(self) -> (r: u32)
        requires
            self.scale <= MAX_EXPONENT,
        ensures
            r == integer_part(self@),
    {
        let p: u128 = power_of_two(self.scale);
        let q: u128 = self.mant as u128 / p;
        proof {
            assert(q <= self.mant) by (nonlinear_arith)
                requires
                    q == self.mant as u128 / p,
                    p > 0,
            ;
        }
        q as u32
    }

    /// The integer part of `self`, or 255 where that is greater.
    pub fn truncate_to_byte(self) -> (r: u8)
        requires
            self.scale <= MAX_EXPONENT,
        ensures
            r == if integer_part(self@) < 255 {
                integer_part(self@)
            } else {
                255
            },
    {
        let q: u32 = self.truncate();
        if q < 255 {
            q as u8
        } else {
            255
        }
    }
}

proof fn lemma_rounded_wf(num: nat, den: nat)
    requires
        num < MANT_MAX * den,
    ensures
        rounded(num, den).0 <= MANT_MAX,
{
    if num > 0 {
        lemma_rounded(num, den);
    }
}

proof fn lemma_scaled_bound(mant: u32, scale: u32)
    requires
        mant <= MANT_MAX,
        scale <= 79,
    ensures
        mant * pow2(scale as nat) <= 0x80_0000_0000_0000_0000_0000_0000,
{
    vstd::arithmetic::power2::lemma2_to64();
    vstd::arithmetic::power2::lemma2_to64_rest();
    vstd::arithmetic::power2::lemma_pow2_adds(64, 15);
    if scale < 79 {
        vstd::arithmetic::power2::lemma_pow2_strictly_increases(scale as nat, 79);
    }
    assert(mant * pow2(scale as nat) <= 0x100_0000 * 0x8000_0000_0000_0000_0000)
        by (nonlinear_arith)
        requires
            mant <= 0x100_0000,
            pow2(scale as nat) <= 0x8000_0000_0000_0000_0000,
    ;
}

/// The nearest integer is off by at most one half, and if it is off by one half it is even.
pub proof fn law_nearest_even(num: nat, den: nat)
    requires
        den > 0,
    ensures
        ({
            let n = nearest_even(num, den);
            let off = 2 * (n * den - num);
            &&& -(den as int) <= off <= den
            &&& off == den || off == -(den as int) ==> n % 2 == 0
        }),
{
    let q = num / den;
    let r = num % den;
    vstd::arithmetic::div_mod::lemma_fundamental_div_mod(num as int, den as int);
    assert(q * den == num - r) by (nonlinear_arith)
        requires
            num == den * q + r,
    ;
    assert((q + 1) * den == num - r + den) by (nonlinear_arith)
        requires
            num == den * q + r,
    ;
}

/// `r` is a number of 24 bits that is nearest to `num / den`: it is off by at most half a unit of
/// its last place, and if it is off by just that, its significand is even.
pub open spec fn is_nearest(r: (nat, nat), num: nat, den: nat) -> bool {
    let off = 2 * (r.0 * den - num * pow2(r.1));
    &&& 0x80_0000 <= r.0 <= 0x100_0000
    &&& 0x80_0000 * den <= num * pow2(r.1) < 0x100_0000 * den
    &&& -(den as int) <= off <= den
    &&& off == den || off == -(den as int) ==> r.0 % 2 == 0
}

/// Rounding gives the nearest number of 24 bits, and zero for zero.
pub proof fn law_rounding(num: nat, den: nat)
    requires
        num < 0x100_0000 * den,
    ensures
        num > 0 ==> is_nearest(rounded(num, den), num, den),
        num == 0 ==> rounded(num, den) == (0nat, 0nat),
{
    if num > 0 {
        lemma_rounded(num, den);
        law_nearest_even(num * pow2(rounded(num, den).1), den);
    }
}

/// A product is rounded once, from the exact product of the two numbers, and zero stays zero.
pub proof fn law_product(a: (nat, nat), b: (nat, nat))
    requires
        a.0 * b.0 < 0x100_0000 * pow2(a.1 + b.1),
    ensures
        a.0 * b.0 > 0 ==> is_nearest(product(a, b), a.0 * b.0, pow2(a.1 + b.1)),
        a.0 * b.0 == 0 ==> product(a, b) == (0nat, 0nat),
{
    law_rounding(a.0 * b.0, pow2(a.1 + b.1));
}

/// A quotient is rounded once, from the exact quotient of the two numbers, and zero stays zero.
pub proof fn law_quotient(a: (nat, nat), b: (nat, nat))
    requires
        a.0 * pow2(b.1) < 0x100_0000 * (b.0 * pow2(a.1)),
    ensures
        a.0 * pow2(b.1) > 0 ==> is_nearest(quotient(a, b), a.0 * pow2(b.1), b.0 * pow2(a.1)),
        a.0 * pow2(b.1) == 0 ==> quotient(a, b) == (0nat, 0nat),
{
    law_rounding(a.0 * pow2(b.1), b.0 * pow2(a.1));
}

/// A sum is rounded once, from the exact sum of the two numbers, and zero stays zero.
pub proof fn law_sum(a: (nat, nat), b: (nat, nat))
    requires
        a.0 * pow2(b.1) + b.0 * pow2(a.1) < 0x100_0000 * pow2(a.1 + b.1),
    ensures
        a.0 * pow2(b.1) + b.0 * pow2(a.1) > 0 ==> is_nearest(
            sum(a, b),
            a.0 * pow2(b.1) + b.0 * pow2(a.1),
            pow2(a.1 + b.1),
        ),
        a.0 * pow2(b.1) + b.0 * pow2(a.1) == 0 ==> sum(a, b) == (0nat, 0nat),
{
    law_rounding(a.0 * pow2(b.1) + b.0 * pow2(a.1), pow2(a.1 + b.1));
}

/// A difference is rounded once, from the exact difference of the two numbers, and the difference
/// of equal numbers is zero.
pub proof fn law_difference(a: (nat, nat), b: (nat, nat))
    requires
        0 <= a.0 * pow2(b.1) - b.0 * pow2(a.1) < 0x100_0000 * pow2(a.1 + b.1),
    ensures
        a.0 * pow2(b.1) > b.0 * pow2(a.1) ==> is_nearest(
            difference(a, b),
            (a.0 * pow2(b.1) - b.0 * pow2(a.1)) as nat,
            pow2(a.1 + b.1),
        ),
        a.0 * pow2(b.1) == b.0 * pow2(a.1) ==> difference(a, b) == (0nat, 0nat),
{
    law_rounding((a.0 * pow2(b.1) - b.0 * pow2(a.1)) as nat, pow2(a.1 + b.1));
}

/// A remainder is less than the divisor, and a whole number of divisors away.
pub proof fn law_remainder(a: (nat, nat), n: nat) -> (times: nat)
    requires
        n > 0,
    ensures
        remainder(a, n).1 == a.1,
        remainder(a, n).0 < n * pow2(a.1),
        a.0 == remainder(a, n).0 + times * (n * pow2(a.1)),
{
    vstd::arithmetic::power2::lemma_pow2_pos(a.1);
    let d = n * pow2(a.1);
    assert(d > 0) by (nonlinear_arith)
        requires
            d == n * pow2(a.1),
            n > 0,
            pow2(a.1) > 0,
    ;
    vstd::arithmetic::div_mod::lemma_fundamental_div_mod(a.0 as int, d as int);
    let times = a.0 / d;
    assert(a.0 == a.0 % d + times * d) by (nonlinear_arith)
        requires
            a.0 == d * times + a.0 % d,
    ;
    times
}

/// The integer part of a number is the last integer that does not exceed it.
pub proof fn law_integer_part(a: (nat, nat))
    ensures
        integer_part(a) * pow2(a.1) <= a.0 < (integer_part(a) + 1) * pow2(a.1),
{
    let d = pow2(a.1);
    vstd::arithmetic::power2::lemma_pow2_pos(a.1);
    vstd::arithmetic::div_mod::lemma_fundamental_div_mod(a.0 as int, d as int);
    let q = a.0 / d;
    assert(q * d <= a.0 < (q + 1) * d) by (nonlinear_arith)
        requires
            a.0 == d * q + a.0 % d,
            0 <= a.0 % d < d,
    ;
}

/// A large number is rounded to the nearest one that has 24 bits before the zeros at its end: it
/// is `significand * 2^zeros`.
pub proof fn law_whole_rounding(num: nat, den: nat) -> (r: (nat, nat))
    requires
        den > 0,
        num >= 0x80_0000 * den,
    ensures
        rounded_whole(num, den) == r.0 * pow2(r.1),
        0x80_0000 <= r.0 <= 0x100_0000,
        0x80_0000 * (den * pow2(r.1)) <= num < 0x100_0000 * (den * pow2(r.1)),
        -(den * pow2(r.1)) <= 2 * (r.0 * (den * pow2(r.1)) - num) <= den * pow2(r.1),
        2 * (r.0 * (den * pow2(r.1)) - num) == den * pow2(r.1) ==> r.0 % 2 == 0,
        2 * (num - r.0 * (den * pow2(r.1))) == den * pow2(r.1) ==> r.0 % 2 == 0,
    decreases
            if num < MANT_MAX * den {
                0
            } else {
                (num - MANT_MAX * den + 1) as nat
            },
{
    vstd::arithmetic::power2::lemma2_to64();
    if num < MANT_MAX * den {
        law_nearest_even(num, den);
        lemma_quotient_bounds(num, den, MANT_MIN as nat, MANT_MAX as nat);
        let n = nearest_even(num, den);
        assert(den * pow2(0) == den && n * pow2(0) == n) by (nonlinear_arith)
            requires
                pow2(0) == 1,
        ;
        (n, 0)
    } else {
        let r = law_whole_rounding(num, 2 * den);
        let k = r.1 + 1;
        vstd::arithmetic::power2::lemma_pow2_unfold(k);
        assert(den * pow2(k) == (2 * den) * pow2(r.1) && r.0 * pow2(k) == 2 * (r.0 * pow2(r.1)))
            by (nonlinear_arith)
            requires
                pow2(k) == 2 * pow2(r.1),
        ;
        (r.0, k)
    }
}

} // verus!
