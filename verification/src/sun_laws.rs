//! Where the sun is and how bright, measured against the time itself: the time times 144 is the
//! place of the sun in LEDs, and the two LEDs around that place share its light by their distance
//! to it. Rounding leaves a small error, and the laws say how small.
use crate::binary32;
use crate::clock;
use crate::clock::DateTime;
use crate::clock_laws;
use crate::single::{Single, Value};
use crate::sky;
use crate::sky_laws;
use vstd::arithmetic::power2::pow2;
use vstd::prelude::*;

verus! {

/// The numerator of `mant * 2^exponent`.
pub open spec fn numerator(mant: u32, exponent: i32) -> nat {
    if exponent > 0 {
        mant as nat * pow2(exponent as nat)
    } else {
        mant as nat
    }
}

/// The denominator of `mant * 2^exponent`.
pub open spec fn denominator(exponent: i32) -> nat {
    if exponent > 0 {
        1
    } else {
        pow2((-exponent) as nat)
    }
}

/// Where a bound on `f / d` and the nearness of `f / d` to `r / p` give one on `r / p`.
proof fn lemma_bound_from_below(f: nat, d: nat, r: nat, p: nat, b: nat)
    requires
        d >= 0x80_0000,
        p > 0,
        2 * (f * p - r * d) <= p,
        60000 * (255 * f) >= (120000 * b - 1) * d,
    ensures
        20000 * (255 * r) >= (40000 * b - 1) * p,
{
    let fp = f * p;
    let rd = r * d;
    let pd = p * d;
    let bpd = b * pd;
    assert(15300000 * fp >= 120000 * bpd - pd) by (nonlinear_arith)
        requires
            60000 * (255 * f) >= (120000 * b - 1) * d,
            fp == f * p,
            pd == p * d,
            bpd == b * pd,
            p > 0,
    ;
    assert(pd >= 0x80_0000 * p) by (nonlinear_arith)
        requires
            pd == p * d,
            d >= 0x80_0000,
    ;
    assert(5100000 * rd >= 40000 * bpd - pd);
    assert(5100000 * r >= 40000 * (b * p) - p) by (nonlinear_arith)
        requires
            5100000 * rd >= 40000 * bpd - pd,
            rd == r * d,
            bpd == b * pd,
            pd == p * d,
            d > 0,
    ;
    assert((40000 * b - 1) * p == 40000 * (b * p) - p) by (nonlinear_arith);
}

proof fn lemma_bound_from_above(f: nat, d: nat, r: nat, p: nat, b: nat)
    requires
        d >= 0x80_0000,
        p > 0,
        2 * (r * d - f * p) <= p,
        60000 * (255 * f) <= (120000 * (b + 1) + 1) * d,
    ensures
        20000 * (255 * r) <= (40000 * (b + 1) + 1) * p,
{
    let c = b + 1;
    let fp = f * p;
    let rd = r * d;
    let pd = p * d;
    let cpd = c * pd;
    assert(15300000 * fp <= 120000 * cpd + pd) by (nonlinear_arith)
        requires
            60000 * (255 * f) <= (120000 * c + 1) * d,
            fp == f * p,
            pd == p * d,
            cpd == c * pd,
            p > 0,
    ;
    assert(pd >= 0x80_0000 * p) by (nonlinear_arith)
        requires
            pd == p * d,
            d >= 0x80_0000,
    ;
    assert(5100000 * rd <= 40000 * cpd + pd);
    assert(5100000 * r <= 40000 * (c * p) + p) by (nonlinear_arith)
        requires
            5100000 * rd <= 40000 * cpd + pd,
            rd == r * d,
            cpd == c * pd,
            pd == p * d,
            d > 0,
    ;
    assert((40000 * c + 1) * p == 40000 * (c * p) + p) by (nonlinear_arith);
}

/// The same bounds for the complement: `n / e` is near to `1 - f / d`, which is near to
/// `1 - r / p`.
proof fn lemma_bounds_of_rest(f: nat, d: nat, n: nat, e: nat, r: nat, p: nat, b: nat)
    requires
        d >= 0x80_0000,
        e >= 0x80_0000,
        p > 0,
        r <= p,
        f <= d,
        -(p as int) <= 2 * (f * p - r * d) <= p,
        -(d as int) <= 2 * (n * d - (d - f) * e) <= d,
        60000 * (255 * n) >= (120000 * b - 1) * e,
        60000 * (255 * n) <= (120000 * (b + 1) + 1) * e,
    ensures
        20000 * (255 * (p - r)) >= (40000 * b - 1) * p,
        20000 * (255 * (p - r)) <= (40000 * (b + 1) + 1) * p,
{
    let g = p - r;
    // All terms over the denominator e * d * p
    let k = d * p;
    let whole = e * k;
    let left = n * k;
    let right = g * (e * d);
    let bw = b * whole;
    let u = n * d - (d - f) * e;
    let v = f * p - r * d;
    assert(left - right == u * p - v * e) by {
        let nd = n * d;
        let de = d * e;
        let fe = f * e;
        let fp = f * p;
        let rd = r * d;
        assert((d - f) * e == de - fe) by (nonlinear_arith)
            requires
                de == d * e,
                fe == f * e,
        ;
        assert((nd - de + fe) * p == nd * p - de * p + fe * p) by (nonlinear_arith);
        assert((fp - rd) * e == fp * e - rd * e) by (nonlinear_arith);
        assert(g * (e * d) == p * (e * d) - r * (e * d)) by (nonlinear_arith)
            requires
                g == p - r,
        ;
        assert(nd * p == n * k) by (nonlinear_arith)
            requires
                nd == n * d,
                k == d * p,
        ;
        assert(de * p == p * (e * d)) by (nonlinear_arith)
            requires
                de == d * e,
        ;
        assert(fe * p == fp * e) by (nonlinear_arith)
            requires
                fe == f * e,
                fp == f * p,
        ;
        assert(rd * e == r * (e * d)) by (nonlinear_arith)
            requires
                rd == r * d,
        ;
    }
    assert(-k <= 2 * (u * p) <= k) by (nonlinear_arith)
        requires
            -(d as int) <= 2 * u <= d,
            p > 0,
            k == d * p,
    ;
    let ep = e * p;
    assert(-ep <= 2 * (v * e) <= ep) by (nonlinear_arith)
        requires
            -(p as int) <= 2 * v <= p,
            e > 0,
            ep == e * p,
    ;
    assert(whole >= 0x80_0000 * k) by (nonlinear_arith)
        requires
            whole == e * k,
            e >= 0x80_0000,
    ;
    assert(whole >= 0x80_0000 * ep) by {
        assert(whole == d * ep) by (nonlinear_arith)
            requires
                whole == e * k,
                k == d * p,
                ep == e * p,
        ;
        assert(d * ep >= 0x80_0000 * ep) by (nonlinear_arith)
            requires
                d >= 0x80_0000,
        ;
    }
    let be = b * e;
    assert((120000 * b - 1) * e == 120000 * be - e) by (nonlinear_arith)
        requires
            be == b * e,
    ;
    assert((120000 * (b + 1) + 1) * e == 120000 * be + 120001 * e) by (nonlinear_arith)
        requires
            be == b * e,
    ;
    assert(bw == be * k) by (nonlinear_arith)
        requires
            bw == b * whole,
            whole == e * k,
            be == b * e,
    ;
    assert(15300000 * left >= 120000 * bw - whole) by (nonlinear_arith)
        requires
            15300000 * n >= 120000 * be - e,
            left == n * k,
            whole == e * k,
            bw == be * k,
    ;
    assert(15300000 * left <= 120000 * bw + 120001 * whole) by (nonlinear_arith)
        requires
            15300000 * n <= 120000 * be + 120001 * e,
            left == n * k,
            whole == e * k,
            bw == be * k,
    ;
    assert(5100000 * right >= 40000 * bw - whole);
    assert(5100000 * right <= 40000 * bw + 40001 * whole);
    let ed = e * d;
    assert(ed > 0) by (nonlinear_arith)
        requires
            ed == e * d,
            e > 0,
            d > 0,
    ;
    assert(right == g * ed && whole == p * ed && bw == (b * p) * ed) by (nonlinear_arith)
        requires
            right == g * (e * d),
            whole == e * k,
            k == d * p,
            bw == b * whole,
            ed == e * d,
    ;
    let bp = b * p;
    assert(5100000 * g >= 40000 * bp - p) by (nonlinear_arith)
        requires
            5100000 * (g * ed) >= 40000 * (bp * ed) - p * ed,
            ed > 0,
    ;
    assert(5100000 * g <= 40000 * bp + 40001 * p) by (nonlinear_arith)
        requires
            5100000 * (g * ed) <= 40000 * (bp * ed) + 40001 * (p * ed),
            ed > 0,
    ;
    assert((40000 * b - 1) * p == 40000 * bp - p) by (nonlinear_arith)
        requires
            bp == b * p,
    ;
    assert((40000 * (b + 1) + 1) * p == 40000 * bp + 40001 * p) by (nonlinear_arith)
        requires
            bp == b * p,
    ;
}

/// At a place `x` each of the two LEDs has the part of 127.5 that is due to it, cut to an integer,
/// up to a small error.
proof fn lemma_brightness_by_place(x: (nat, nat))
    requires
        x.0 < 144 * pow2(x.1),
    ensures
        ({
            let p = pow2(x.1);
            let r = x.0 - binary32::integer_part(x) * p;
            let upper = sky::brightness(sky::fraction_of(x));
            let lower = sky::brightness(binary32::difference((1, 0), sky::fraction_of(x)));
            &&& 0 <= r < p
            &&& (40000 * upper - 1) * p <= 20000 * (255 * r) <= (40000 * (upper + 1) + 1) * p
            &&& (40000 * lower - 1) * p <= 20000 * (255 * (p - r)) <= (40000 * (lower + 1) + 1) * p
            &&& upper <= 127
            &&& lower <= 127
        }),
{
    vstd::arithmetic::power2::lemma2_to64();
    let p = pow2(x.1);
    vstd::arithmetic::power2::lemma_pow2_pos(x.1);
    binary32::law_integer_part(x);
    vstd::arithmetic::div_mod::lemma_fundamental_div_mod(x.0 as int, p as int);
    let l = binary32::integer_part(x);
    let r = x.0 % p;
    assert(r == x.0 - l * p) by (nonlinear_arith)
        requires
            x.0 == p * l + r,
    ;
    sky::lemma_fraction(x);
    sky::lemma_sun_brightness(x);
    let share = sky::fraction_of(x);
    let f = share.0;
    let d = pow2(share.1);
    vstd::arithmetic::power2::lemma_pow2_pos(share.1);
    sky::lemma_share(share);
    let rest = binary32::difference((1, 0), share);
    let upper = sky::brightness(share);
    let lower = sky::brightness(rest);
    if r == 0 {
        assert(share == (0nat, 0nat));
        sky::lemma_small_share((0, 0));
        sky::lemma_near_one(1, 1);
        sky::lemma_full_share(rest);
        assert(upper == 0 && lower == 127);
        assert((40000 * lower - 1) * p == 5079999 * p && (40000 * (lower + 1) + 1) * p == 5120001
            * p) by (nonlinear_arith)
            requires
                lower == 127,
        ;
        assert((40000 * upper - 1) * p == -p && (40000 * (upper + 1) + 1) * p == 40001 * p)
            by (nonlinear_arith)
            requires
                upper == 0,
        ;
    } else {
        binary32::law_rounding(r, p);
        sky_laws::lemma_light(share);
        assert(d >= 0x80_0000);
        lemma_bound_from_below(f, d, r, p, upper);
        lemma_bound_from_above(f, d, r, p, upper);
        let n = rest.0;
        let e = pow2(rest.1);
        let num = (d - f) as nat;
        if num == 0 {
            assert(rest == (0nat, 0nat));
            sky::lemma_small_share((0, 0));
            assert(lower == 0);
            assert((40000 * lower - 1) * p == -p && (40000 * (lower + 1) + 1) * p == 40001 * p)
                by (nonlinear_arith)
                requires
                    lower == 0,
            ;
            assert(20000 * (255 * (p - r)) <= 40001 * p) by (nonlinear_arith)
                requires
                    2 * (f * p - r * d) <= p,
                    f == d,
                    d >= 0x80_0000,
                    p > 0,
            ;
        } else {
            binary32::law_rounding(num, d);
            sky_laws::lemma_light(rest);
            lemma_bounds_of_rest(f, d, n, e, r, p, lower);
        }
    }
}

/// The place of the sun before whole rounds of the strip are taken off: it is off from 144 times
/// the time by at most 2^-24 of it.
proof fn lemma_place_by_time(mant: u32, exponent: i32) -> (r: ((nat, nat), nat))
    requires
        mant < 0x100_0000,
        exponent > 0 ==> mant >= 0x80_0000,
        sky::place(mant as nat, exponent as int) is Some,
    ensures
        ({
            let x = sky::place(mant as nat, exponent as int)->0;
            let (p, turns) = r;
            let unit = pow2(p.1);
            let leds = 144 * numerator(mant, exponent);
            let den = denominator(exponent);
            &&& x.1 == p.1
            &&& x.0 < 144 * unit
            &&& p.0 == x.0 + turns * (144 * unit)
            &&& -(leds * unit) <= 0x100_0000 * (p.0 * den - leds * unit) <= leds * unit
        }),
{
    vstd::arithmetic::power2::lemma2_to64();
    let leds = 144 * numerator(mant, exponent);
    let den = denominator(exponent);
    if exponent > 0 || leds >= 0x100_0000 * den {
        let (w, turns) = lemma_large_place(mant, exponent);
        assert(w.0 * pow2(w.1) * pow2(0) == w.0 * pow2(w.1) && leds * pow2(0) == leds && 144
            * pow2(0) == 144) by (nonlinear_arith)
            requires
                pow2(0) == 1,
        ;
        let whole = w.0 * pow2(w.1);
        let k = den * pow2(w.1);
        assert(whole * den == w.0 * k) by (nonlinear_arith)
            requires
                whole == w.0 * pow2(w.1),
                k == den * pow2(w.1),
        ;
        assert(turns * (144 * pow2(0)) == turns * 144);
        assert(-leds <= 0x100_0000 * (whole * den - leds) <= leds);
        ((whole, 0), turns)
    } else {
        let s = (-exponent) as nat;
        let t = (mant as nat, s);
        vstd::arithmetic::power2::lemma_pow2_pos(s);
        let p = binary32::product(t, (144, 0));
        assert(leds == t.0 * 144);
        if mant == 0 {
            assert(p == (0nat, 0nat));
            assert(144 * pow2(0) == 144);
            assert(0nat % 144 == 0);
            assert(sky::led_index(t) == (0nat, 0nat));
            assert(leds * pow2(0) == 0 && 0 * den == 0 && 0 * (144 * pow2(0)) == 0)
                by (nonlinear_arith)
                requires
                    leds == 0,
            ;
            ((0, 0), 0)
        } else {
            binary32::law_product(t, (144, 0));
            let turns = binary32::law_remainder(p, 144);
            assert(sky::place(mant as nat, exponent as int)->0 == binary32::remainder(p, 144));
            assert(pow2(s + 0) == den);
            let lu = leds * pow2(p.1);
            assert(0x80_0000 * den <= lu);
            assert(-(den as int) <= 2 * (p.0 * den - lu) <= den);
            (p, turns)
        }
    }
}

/// At a large time the sun is on an LED, and the number of LEDs that it has passed is the nearest
/// to 144 times the time that single precision has.
proof fn lemma_large_place(mant: u32, exponent: i32) -> (r: ((nat, nat), nat))
    requires
        mant < 0x100_0000,
        exponent > 0 ==> mant >= 0x80_0000,
        exponent > 0 || 144 * numerator(mant, exponent) >= 0x100_0000 * denominator(exponent),
        sky::place(mant as nat, exponent as int) is Some,
    ensures
        ({
            let x = sky::place(mant as nat, exponent as int)->0;
            let (w, turns) = r;
            let leds = 144 * numerator(mant, exponent);
            let den = denominator(exponent);
            let k = den * pow2(w.1);
            &&& x.1 == 0
            &&& x.0 < 144
            &&& w.0 * pow2(w.1) == x.0 + turns * 144
            &&& 0x80_0000 <= w.0 <= 0x100_0000
            &&& 0x80_0000 * k <= leds < 0x100_0000 * k
            &&& -k <= 2 * (w.0 * k - leds) <= k
            &&& 2 * (w.0 * k - leds) == k || 2 * (leds - w.0 * k) == k ==> w.0 % 2 == 0
        }),
{
    vstd::arithmetic::power2::lemma2_to64();
    let leds = 144 * numerator(mant, exponent);
    let den = denominator(exponent);
    if exponent > 0 {
        let e = pow2(exponent as nat);
        vstd::arithmetic::power2::lemma_pow2_pos(exponent as nat);
        assert(mant as nat * 144 * e == 144 * (mant as nat * e) && mant as nat * e >= 0x80_0000)
            by (nonlinear_arith)
            requires
                mant >= 0x80_0000,
                e > 0,
        ;
    } else {
        vstd::arithmetic::power2::lemma_pow2_pos((-exponent) as nat);
        assert(leds == mant as nat * 144);
    }
    let w = binary32::law_whole_rounding(leds, den);
    let whole = binary32::rounded_whole(leds, den);
    let turns = whole / 144;
    assert(whole == whole % 144 + turns * 144);
    (w, turns)
}

/// The sun has a place at each finite time up to the one at which 144 times the time, rounded,
/// reaches 2^128, and at no other.
proof fn lemma_has_place(mant: u32, exponent: i32)
    requires
        mant < 0x100_0000,
        exponent > 0 ==> mant >= 0x80_0000,
    ensures
        sky::place(mant as nat, exponent as int) is Some <==> 144 * numerator(mant, exponent)
            < 0x1ff_ffff * pow2(103) * denominator(exponent),
{
    vstd::arithmetic::power2::lemma2_to64();
    let g = pow2(103);
    vstd::arithmetic::power2::lemma_pow2_pos(103);
    if exponent > 0 {
        let e = pow2(exponent as nat);
        vstd::arithmetic::power2::lemma_pow2_pos(exponent as nat);
        let leds = 144 * numerator(mant, exponent);
        assert(mant as nat * 144 * e == leds && leds >= 0x80_0000) by (nonlinear_arith)
            requires
                leds == 144 * (mant as nat * e),
                mant >= 0x80_0000,
                e > 0,
        ;
        let w = binary32::law_whole_rounding(leds, 1);
        let k = pow2(w.1);
        let whole = binary32::rounded_whole(leds, 1);
        assert(1 * k == k);
        vstd::arithmetic::power2::lemma_pow2_adds(103, 25);
        assert(pow2(128) == 0x200_0000 * g);
        assert(0x1ff_ffff * g * 1 == 0x1ff_ffff * g);
        if w.1 <= 103 {
            if w.1 < 103 {
                vstd::arithmetic::power2::lemma_pow2_strictly_increases(w.1, 103);
            }
            assert(whole <= 0x100_0000 * g) by (nonlinear_arith)
                requires
                    whole == w.0 * k,
                    w.0 <= 0x100_0000,
                    k <= g,
            ;
        } else if w.1 == 104 {
            vstd::arithmetic::power2::lemma_pow2_unfold(104);
            let wg = w.0 * g;
            assert(w.0 * k == 2 * wg) by (nonlinear_arith)
                requires
                    wg == w.0 * g,
                    k == 2 * g,
            ;
            assert(whole == 2 * wg && -g <= 2 * wg - leds <= g);
            if w.0 == 0x100_0000 {
                assert(wg == 0x100_0000 * g);
            } else if w.0 == 0xff_ffff {
                assert(wg == 0xff_ffff * g);
                assert(2 * (leds - w.0 * k) != k);
            } else {
                assert(wg <= 0xff_fffe * g) by (nonlinear_arith)
                    requires
                        wg == w.0 * g,
                        w.0 <= 0xff_fffe,
                ;
            }
        } else {
            vstd::arithmetic::power2::lemma_pow2_adds(103, 2);
            if w.1 > 105 {
                vstd::arithmetic::power2::lemma_pow2_strictly_increases(105, w.1);
            }
            assert(whole >= 0x80_0000 * (4 * g)) by (nonlinear_arith)
                requires
                    whole == w.0 * k,
                    w.0 >= 0x80_0000,
                    k >= 4 * g,
            ;
        }
    } else {
        let d = pow2((-exponent) as nat);
        vstd::arithmetic::power2::lemma_pow2_pos((-exponent) as nat);
        vstd::arithmetic::power2::lemma_pow2_strictly_increases(32, 103);
        assert(0x1ff_ffff * g * d >= 0x1ff_ffff * pow2(32)) by (nonlinear_arith)
            requires
                g >= pow2(32),
                d >= 1,
        ;
    }
}

/// A bound on the place of the sun from below is one on the time.
proof fn lemma_time_from_below(
    leds: nat,
    den: nat,
    p: nat,
    unit: nat,
    x: nat,
    turns: nat,
    l: int,
    slack: int,
)
    requires
        unit > 0,
        p == x + turns * (144 * unit),
        0x100_0000 * (p * den - leds * unit) <= leds * unit,
        20000 * (255 * x) >= (20000 * l - slack) * unit,
    ensures
        5100000 * (0x100_0001 * leds) >= 0x100_0000 * ((20000 * (l + 36720 * turns) - slack) * den),
{
    let tu = turns * unit;
    let c = 20000 * (l + 36720 * turns) - slack;
    assert(turns * (144 * unit) == 144 * tu) by (nonlinear_arith)
        requires
            tu == turns * unit,
    ;
    assert(c * unit == (20000 * l - slack) * unit + 734400000 * tu) by (nonlinear_arith)
        requires
            tu == turns * unit,
            c == 20000 * (l + 36720 * turns) - slack,
    ;
    assert(5100000 * p >= c * unit);
    let pd = p * den;
    let lu = leds * unit;
    let cu = c * unit;
    assert(5100000 * pd >= cu * den) by (nonlinear_arith)
        requires
            5100000 * p >= cu,
            pd == p * den,
    ;
    let cd = c * den;
    assert(cu * den == cd * unit) by (nonlinear_arith)
        requires
            cu == c * unit,
            cd == c * den,
    ;
    assert(5100000 * (0x100_0001 * lu) >= 0x100_0000 * (cd * unit));
    assert(5100000 * (0x100_0001 * leds) >= 0x100_0000 * cd) by (nonlinear_arith)
        requires
            5100000 * (0x100_0001 * lu) >= 0x100_0000 * (cd * unit),
            lu == leds * unit,
            unit > 0,
    ;
}

/// A bound on the place of the sun from above is one on the time.
proof fn lemma_time_from_above(
    leds: nat,
    den: nat,
    p: nat,
    unit: nat,
    x: nat,
    turns: nat,
    l: int,
    slack: int,
)
    requires
        unit > 0,
        p == x + turns * (144 * unit),
        -(leds * unit) <= 0x100_0000 * (p * den - leds * unit),
        20000 * (255 * x) <= (20000 * l + slack) * unit,
    ensures
        5100000 * (0xff_ffff * leds) <= 0x100_0000 * ((20000 * (l + 36720 * turns) + slack) * den),
{
    let tu = turns * unit;
    let c = 20000 * (l + 36720 * turns) + slack;
    assert(turns * (144 * unit) == 144 * tu) by (nonlinear_arith)
        requires
            tu == turns * unit,
    ;
    assert(c * unit == (20000 * l + slack) * unit + 734400000 * tu) by (nonlinear_arith)
        requires
            tu == turns * unit,
            c == 20000 * (l + 36720 * turns) + slack,
    ;
    assert(5100000 * p <= c * unit);
    let pd = p * den;
    let lu = leds * unit;
    let cu = c * unit;
    assert(5100000 * pd <= cu * den) by (nonlinear_arith)
        requires
            5100000 * p <= cu,
            pd == p * den,
    ;
    let cd = c * den;
    assert(cu * den == cd * unit) by (nonlinear_arith)
        requires
            cu == c * unit,
            cd == c * den,
    ;
    assert(5100000 * (0xff_ffff * lu) <= 0x100_0000 * (cd * unit));
    assert(5100000 * (0xff_ffff * leds) <= 0x100_0000 * cd) by (nonlinear_arith)
        requires
            5100000 * (0xff_ffff * lu) <= 0x100_0000 * (cd * unit),
            lu == leds * unit,
            unit > 0,
    ;
}

/// The sun shows the time. Count 255 for each LED that it has passed, in this round of the strip
/// and in the `turns` before, and 2 for each step of brightness of the upper LED: that is 255 * 144
/// times the time, cut by less than 2, up to a small error. Counting down from the next LED by the
/// brightness of the lower one comes to the same. The two LEDs are neighbours.
pub proof fn law_sun_shows_the_time(time: Single) -> (turns: nat)
    requires
        match time.value() {
            Value::Finite { negative, mant, exponent } => !negative && 144 * numerator(
                mant,
                exponent,
            ) < 0x1ff_ffff * pow2(103) * denominator(exponent),
            _ => false,
        },
    ensures
        match time.value() {
            Value::Finite { negative, mant, exponent } => {
                let leds = 144 * numerator(mant, exponent);
                let den = denominator(exponent);
                let sun = sky::sun_of(time.value());
                let up = 255 * (144 * turns + sun.lower_led) + 2 * sun.upper_brightness;
                let down = 255 * (144 * turns + sun.lower_led + 1) - 2 * sun.lower_brightness;
                &&& sun.lower_led < 144
                &&& sun.upper_led as int == (sun.lower_led + 1) % 144
                &&& 5100000 * (0x100_0001 * leds) >= 0x100_0000 * ((20000 * up - 1) * den)
                &&& 5100000 * (0xff_ffff * leds) <= 0x100_0000 * ((20000 * (up + 2) + 1) * den)
                &&& 5100000 * (0x100_0001 * leds) >= 0x100_0000 * ((20000 * (down - 2) - 1) * den)
                &&& 5100000 * (0xff_ffff * leds) <= 0x100_0000 * ((20000 * down + 1) * den)
            },
            _ => false,
        },
{
    match time.value() {
        Value::Finite { negative, mant, exponent } => {
            lemma_has_place(mant, exponent);
            let x = sky::place(mant as nat, exponent as int)->0;
            let (p, turns) = lemma_place_by_time(mant, exponent);
            let leds = 144 * numerator(mant, exponent);
            let den = denominator(exponent);
            let unit = pow2(p.1);
            vstd::arithmetic::power2::lemma_pow2_pos(p.1);
            lemma_brightness_by_place(x);
            sky::lemma_fraction(x);
            let l = binary32::integer_part(x);
            let r = x.0 - l * unit;
            let upper = sky::brightness(sky::fraction_of(x));
            let lower = sky::brightness(binary32::difference((1, 0), sky::fraction_of(x)));
            let lu = l * unit;
            let up = 255 * l + 2 * upper;
            let down = 255 * (l + 1) - 2 * lower;
            assert((20000 * up - 1) * unit == 5100000 * lu + (40000 * upper - 1) * unit)
                by (nonlinear_arith)
                requires
                    up == 255 * l + 2 * upper,
                    lu == l * unit,
            ;
            assert((20000 * (up + 2) + 1) * unit == 5100000 * lu + (40000 * (upper + 1) + 1) * unit)
                by (nonlinear_arith)
                requires
                    up == 255 * l + 2 * upper,
                    lu == l * unit,
            ;
            assert((20000 * (down - 2) - 1) * unit == 5100000 * lu + 5100000 * unit - (40000 * (
            lower + 1) + 1) * unit) by (nonlinear_arith)
                requires
                    down == 255 * (l + 1) - 2 * lower,
                    lu == l * unit,
            ;
            assert((20000 * down + 1) * unit == 5100000 * lu + 5100000 * unit - (40000 * lower - 1)
                * unit) by (nonlinear_arith)
                requires
                    down == 255 * (l + 1) - 2 * lower,
                    lu == l * unit,
            ;
            lemma_time_from_below(leds, den, p.0, unit, x.0, turns, up as int, 1);
            lemma_time_from_above(leds, den, p.0, unit, x.0, turns, (up + 2) as int, 1);
            lemma_time_from_below(leds, den, p.0, unit, x.0, turns, down - 2, 1);
            lemma_time_from_above(leds, den, p.0, unit, x.0, turns, down, 1);
            turns
        },
        _ => 0,
    }
}

/// From 2^24 LEDs on, the sun is on an LED, which has all of its light; the number of LEDs that it
/// has passed is the nearest to 144 times the time that has 24 bits before the zeros at its end,
/// and of two equally near ones the one whose 24 bits are even.
pub proof fn law_sun_at_large_times(time: Single) -> (r: ((nat, nat), nat))
    requires
        match time.value() {
            Value::Finite { negative, mant, exponent } => !negative && 0x100_0000 * denominator(
                exponent,
            ) <= 144 * numerator(mant, exponent) < 0x1ff_ffff * pow2(103) * denominator(exponent),
            _ => false,
        },
    ensures
        match time.value() {
            Value::Finite { negative, mant, exponent } => {
                let (w, turns) = r;
                let leds = 144 * numerator(mant, exponent);
                let k = denominator(exponent) * pow2(w.1);
                let sun = sky::sun_of(time.value());
                &&& sun.upper_brightness == 0
                &&& sun.lower_brightness == 127
                &&& sun.lower_led < 144
                &&& w.0 * pow2(w.1) == sun.lower_led + turns * 144
                &&& 0x80_0000 <= w.0 <= 0x100_0000
                &&& 0x80_0000 * k <= leds < 0x100_0000 * k
                &&& -k <= 2 * (w.0 * k - leds) <= k
                &&& 2 * (w.0 * k - leds) == k || 2 * (leds - w.0 * k) == k ==> w.0 % 2 == 0
            },
            _ => false,
        },
{
    match time.value() {
        Value::Finite { negative, mant, exponent } => {
            vstd::arithmetic::power2::lemma2_to64();
            lemma_has_place(mant, exponent);
            let x = sky::place(mant as nat, exponent as int)->0;
            let r = lemma_large_place(mant, exponent);
            lemma_brightness_by_place(x);
            binary32::law_integer_part(x);
            r
        },
        _ => ((0, 0), 0),
    }
}

/// What is not a number, an infinite time, and one so large that 144 times it is rounded to 2^128
/// or more have no place on the strip: both LEDs are black. At every other time there is light.
pub proof fn law_no_place_no_light(time: Single)
    ensures
        ({
            let sun = sky::sun_of(time.value());
            let dark = sun.lower_brightness == 0 && sun.upper_brightness == 0;
            &&& dark <==> match time.value() {
                Value::Finite { negative, mant, exponent } => 144 * numerator(mant, exponent)
                    >= 0x1ff_ffff * pow2(103) * denominator(exponent),
                _ => true,
            }
            &&& dark ==> sun.lower_led == 0 && sun.upper_led == 1
        }),
{
    match time.value() {
        Value::Finite { negative, mant, exponent } => {
            lemma_has_place(mant, exponent);
            if sky::place(mant as nat, exponent as int) is Some {
                if negative {
                    let turns = law_sun_before_the_first_day(time);
                    let (p, t) = lemma_place_by_time(mant, exponent);
                    lemma_light_before(sky::place(mant as nat, exponent as int)->0);
                    vstd::arithmetic::power2::lemma_pow2_pos(p.1);
                    let x = sky::place(mant as nat, exponent as int)->0;
                    let b = sky::brightness(binary32::sum((1, 0), x));
                    let unit = pow2(x.1);
                    if b == 0 {
                        assert((200 * (b + 1) + 1) * unit == 201 * unit);
                    }
                } else {
                    sky_laws::law_sun_light_is_shared(time);
                }
            }
        },
        _ => {},
    }
}

/// One more than the place of the sun, times 127.5, cut to an integer, up to a small error.
proof fn lemma_light_before(x: (nat, nat))
    requires
        x.0 < 144 * pow2(x.1),
    ensures
        ({
            let p = pow2(x.1);
            let b = sky::brightness(binary32::sum((1, 0), x));
            &&& 25500 * (p + x.0) >= (200 * b - 1) * p
            &&& 25500 * (p + x.0) <= (200 * (b + 1) + 1) * p
        }),
{
    vstd::arithmetic::power2::lemma2_to64();
    let p = pow2(x.1);
    vstd::arithmetic::power2::lemma_pow2_pos(x.1);
    let num = p + x.0;
    assert(x.0 * pow2(0) == x.0) by (nonlinear_arith)
        requires
            pow2(0) == 1,
    ;
    let s = binary32::sum((1, 0), x);
    binary32::law_sum((1, 0), x);
    let c = s.0;
    let d = pow2(s.1);
    vstd::arithmetic::power2::lemma_pow2_pos(s.1);
    assert(d >= 57852) by (nonlinear_arith)
        requires
            0x80_0000 * p <= num * d,
            num < 145 * p,
            p > 0,
    ;
    assert(c <= 145 * d) by (nonlinear_arith)
        requires
            2 * (c * p - num * d) <= p,
            num < 145 * p,
            p > 0,
            d > 0,
    ;
    sky::lemma_brightness(s);
    let light = binary32::product((0xff_0000, 17), s);
    vstd::arithmetic::power2::lemma_pow2_adds(17, s.1);
    let e = pow2(17 + s.1);
    let n = 0xff_0000 * c;
    binary32::law_product((0xff_0000, 17), s);
    let y = light.0;
    let q = pow2(light.1);
    vstd::arithmetic::power2::lemma_pow2_pos(light.1);
    assert(q >= 453) by (nonlinear_arith)
        requires
            0x80_0000 * e <= n * q,
            n == 0xff_0000 * c,
            c <= 145 * d,
            e == 0x2_0000 * d,
            d > 0,
    ;
    let yd = y * d;
    let cq = c * q;
    assert(y * e == 0x2_0000 * yd) by (nonlinear_arith)
        requires
            e == 0x2_0000 * d,
            yd == y * d,
    ;
    assert(n * q == 0xff_0000 * cq) by (nonlinear_arith)
        requires
            n == 0xff_0000 * c,
            cq == c * q,
    ;
    assert(-(d as int) <= 2 * yd - 255 * cq <= d);
    let b = sky::brightness(s);
    binary32::law_integer_part(light);
    assert(b * q <= y < (b + 1) * q);
    lemma_light_bounds(b, q, y, c, d, num, p);
}

proof fn lemma_light_bounds(b: nat, q: nat, y: nat, c: nat, d: nat, num: nat, p: nat)
    requires
        q >= 453,
        d >= 57852,
        p > 0,
        b * q <= y < (b + 1) * q,
        -(d as int) <= 2 * (y * d) - 255 * (c * q) <= d,
        -(p as int) <= 2 * (c * p - num * d) <= p,
    ensures
        25500 * num >= (200 * b - 1) * p,
        25500 * num <= (200 * (b + 1) + 1) * p,
{
    let f = b + 1;
    let bd = b * d;
    let fd = f * d;
    // 255 * c against 2 * b * d and 2 * (b + 1) * d
    assert(453 * (255 * c) >= 906 * bd - d) by {
        let v = 255 * c - 2 * bd;
        let bq = b * q;
        assert(y * d >= bq * d) by (nonlinear_arith)
            requires
                bq <= y,
                d > 0,
        ;
        assert(bq * d == bd * q) by (nonlinear_arith)
            requires
                bq == b * q,
                bd == b * d,
        ;
        assert(v * q == 255 * (c * q) - 2 * (bd * q)) by (nonlinear_arith)
            requires
                v == 255 * c - 2 * bd,
        ;
        assert(453 * v >= -d) by (nonlinear_arith)
            requires
                v * q >= -d,
                q >= 453,
                d > 0,
        ;
    }
    assert(453 * (255 * c) <= 906 * fd + d) by {
        let v = 255 * c - 2 * fd;
        let fq = f * q;
        assert(y * d <= fq * d) by (nonlinear_arith)
            requires
                y <= fq,
                d > 0,
        ;
        assert(fq * d == fd * q) by (nonlinear_arith)
            requires
                fq == f * q,
                fd == f * d,
        ;
        assert(v * q == 255 * (c * q) - 2 * (fd * q)) by (nonlinear_arith)
            requires
                v == 255 * c - 2 * fd,
        ;
        assert(453 * v <= d) by (nonlinear_arith)
            requires
                v * q <= d,
                q >= 453,
                d > 0,
        ;
    }
    let cp = c * p;
    let nd = num * d;
    let dp = d * p;
    let bdp = b * dp;
    let fdp = f * dp;
    assert(115515 * cp >= 906 * bdp - dp) by (nonlinear_arith)
        requires
            453 * (255 * c) >= 906 * bd - d,
            bd == b * d,
            cp == c * p,
            dp == d * p,
            bdp == b * dp,
            p > 0,
    ;
    assert(115515 * cp <= 906 * fdp + dp) by (nonlinear_arith)
        requires
            453 * (255 * c) <= 906 * fd + d,
            fd == f * d,
            cp == c * p,
            dp == d * p,
            fdp == f * dp,
            p > 0,
    ;
    assert(dp >= 57852 * p) by (nonlinear_arith)
        requires
            dp == d * p,
            d >= 57852,
    ;
    assert(115515 * nd >= 906 * bdp - 2 * dp);
    assert(115515 * nd <= 906 * fdp + 2 * dp);
    let bp = b * p;
    let fp = f * p;
    assert(bdp == bp * d && fdp == fp * d) by (nonlinear_arith)
        requires
            bdp == b * dp,
            fdp == f * dp,
            dp == d * p,
            bp == b * p,
            fp == f * p,
    ;
    assert(115515 * num >= 906 * bp - 2 * p) by (nonlinear_arith)
        requires
            115515 * nd >= 906 * (bp * d) - 2 * dp,
            nd == num * d,
            dp == d * p,
            d > 0,
    ;
    assert(115515 * num <= 906 * fp + 2 * p) by (nonlinear_arith)
        requires
            115515 * nd <= 906 * (fp * d) + 2 * dp,
            nd == num * d,
            dp == d * p,
            d > 0,
    ;
    assert((200 * b - 1) * p == 200 * bp - p) by (nonlinear_arith)
        requires
            bp == b * p,
    ;
    assert((200 * f + 1) * p == 200 * fp + p) by (nonlinear_arith)
        requires
            fp == f * p,
    ;
}

/// Before the first day the sun stays on the first LED: with whole rounds of the strip taken off,
/// it is the brighter the earlier it is, by 255 for two LEDs, up to as bright as an LED can be. The
/// next LED is black.
pub proof fn law_sun_before_the_first_day(time: Single) -> (turns: nat)
    requires
        match time.value() {
            Value::Finite { negative, mant, exponent } => negative && 144 * numerator(mant, exponent)
                < 0x1ff_ffff * pow2(103) * denominator(exponent),
            _ => false,
        },
    ensures
        match time.value() {
            Value::Finite { negative, mant, exponent } => {
                let leds = 144 * numerator(mant, exponent);
                let den = denominator(exponent);
                let sun = sky::sun_of(time.value());
                let count = 36720 * turns + 2 * sun.lower_brightness - 255;
                &&& sun.lower_led == 0
                &&& sun.upper_led == 1
                &&& sun.upper_brightness == 0
                &&& 5100000 * (0x100_0001 * leds) >= 0x100_0000 * ((20000 * count - 200) * den)
                &&& sun.lower_brightness < 255 ==> 5100000 * (0xff_ffff * leds) <= 0x100_0000 * ((
                20000 * (count + 2) + 200) * den)
                &&& 5100000 * (0x100_0001 * leds) >= 0x100_0000 * ((20000 * (36720 * turns)) * den)
                &&& 5100000 * (0xff_ffff * leds) <= 0x100_0000 * ((20000 * (36720 * turns + 36720))
                    * den)
            },
            _ => false,
        },
{
    match time.value() {
        Value::Finite { negative, mant, exponent } => {
            lemma_has_place(mant, exponent);
            let x = sky::place(mant as nat, exponent as int)->0;
            let (p, turns) = lemma_place_by_time(mant, exponent);
            let leds = 144 * numerator(mant, exponent);
            let den = denominator(exponent);
            let unit = pow2(p.1);
            vstd::arithmetic::power2::lemma_pow2_pos(p.1);
            lemma_light_before(x);
            let b = sky::brightness(binary32::sum((1, 0), x));
            let shown = sky::sun_of(time.value()).lower_brightness;
            let s = shown as int;
            assert(s <= b && (s < 255 ==> s == b));
            let su = s * unit;
            let bu = b * unit;
            assert(su <= bu) by (nonlinear_arith)
                requires
                    s <= b,
                    su == s * unit,
                    bu == b * unit,
            ;
            assert((20000 * (2 * s - 255) - 200) * unit == 40000 * su - 5100200 * unit)
                by (nonlinear_arith)
                requires
                    su == s * unit,
            ;
            assert((200 * b - 1) * unit == 200 * bu - unit) by (nonlinear_arith)
                requires
                    bu == b * unit,
            ;
            lemma_time_from_below(leds, den, p.0, unit, x.0, turns, 2 * s - 255, 200);
            if s < 255 {
                assert((20000 * (2 * s - 255 + 2) + 200) * unit == 40000 * su - 5059800 * unit)
                    by (nonlinear_arith)
                    requires
                        su == s * unit,
                ;
                assert((200 * (b + 1) + 1) * unit == 200 * bu + 201 * unit) by (nonlinear_arith)
                    requires
                        bu == b * unit,
                ;
                lemma_time_from_above(leds, den, p.0, unit, x.0, turns, 2 * s - 255 + 2, 200);
            }
            assert((20000 * 0 - 0) * unit == 0 && (20000 * 36720 + 0) * unit == 734400000 * unit)
                by (nonlinear_arith);
            lemma_time_from_below(leds, den, p.0, unit, x.0, turns, 0, 0);
            lemma_time_from_above(leds, den, p.0, unit, x.0, turns, 36720, 0);
            turns
        },
        _ => 0,
    }
}

/// At each time of day the two LEDs of the sun are those that are due, ten minutes for each, and
/// each has the part of 127.5 that it is due by the seconds that have passed since the lower one was
/// due, cut to an integer. Where nothing is cut off, rounding can take one more.
pub proof fn law_sun_at_time_of_day(t: DateTime, time: Single)
    requires
        t.hour < 24,
        t.minute < 60,
        t.second < 60,
        time.equals(clock::time_fraction(t.seconds_since_midnight())),
    ensures
        ({
            let seconds = t.hour * 3600 + t.minute * 60 + t.second;
            let sun = sky::sun_of(time.value());
            let past = seconds % 600;
            &&& sun.lower_led == seconds / 600
            &&& sun.upper_led as int == (seconds / 600 + 1) % 144
            &&& 80 * sun.upper_brightness <= 17 * past <= 80 * (sun.upper_brightness + 1)
            &&& 80 * sun.lower_brightness <= 17 * (600 - past) <= 80 * (sun.lower_brightness + 1)
            &&& past == 0 ==> sun.lower_brightness == 127 && sun.upper_brightness == 0
        }),
{
    let seconds = t.hour * 3600 + t.minute * 60 + t.second;
    let days = clock_laws::law_fraction_of_day(t, time);
    sky_laws::law_sun_keeps_time(t, time);
    if seconds % 600 == 0 {
        sky_laws::law_sun_on_the_mark(t, time);
    }
    match time.value() {
        Value::Finite { negative, mant, exponent } => {
            let den = denominator(exponent);
            vstd::arithmetic::power2::lemma_pow2_pos((-exponent) as nat);
            vstd::arithmetic::power2::lemma_pow2_pos(103);
            if exponent == 0 {
                vstd::arithmetic::power2::lemma2_to64();
            }
            assert(144 * mant < 0x1ff_ffff * pow2(103) * den) by (nonlinear_arith)
                requires
                    mant < den,
                    pow2(103) > 0,
            ;
            let turns = law_sun_shows_the_time(time);
            let sun = sky::sun_of(time.value());
            let up = 255 * (144 * turns + sun.lower_led) + 2 * sun.upper_brightness;
            let down = 255 * (144 * turns + sun.lower_led + 1) - 2 * sun.lower_brightness;
            let sd = seconds * den;
            let leds = 144 * mant as nat;
            assert(0x100_0000 * (600 * leds) <= 0x100_0001 * sd);
            assert(0x100_0000 * (600 * leds) >= 0xff_ffff * sd);
            lemma_count_from_below(up, leds, den, seconds as nat);
            lemma_count_from_above(up + 2, leds, den, seconds as nat);
            lemma_count_from_below(down - 2, leds, den, seconds as nat);
            lemma_count_from_above(down, leds, den, seconds as nat);
        },
        _ => {},
    }
}

/// At a time of day the errors are too small to matter for a count in whole numbers.
proof fn lemma_count_from_below(count: int, leds: nat, den: nat, seconds: nat)
    requires
        den > 0,
        seconds < 86400,
        0x100_0000 * (600 * leds) <= 0x100_0001 * (seconds * den),
        5100000 * (0x100_0001 * leds) >= 0x100_0000 * ((20000 * count - 1) * den),
    ensures
        40 * count <= 17 * seconds,
{
    let sd = seconds * den;
    let cd = count * den;
    assert((20000 * count - 1) * den == 20000 * cd - den) by (nonlinear_arith)
        requires
            cd == count * den,
    ;
    assert(sd <= 86400 * den) by (nonlinear_arith)
        requires
            sd == seconds * den,
            seconds < 86400,
    ;
    let v = 40 * count - 17 * seconds;
    assert(v * den == 40 * cd - 17 * sd) by (nonlinear_arith)
        requires
            v == 40 * count - 17 * seconds,
            cd == count * den,
            sd == seconds * den,
    ;
    assert(v * den < den);
    assert(v < 1) by (nonlinear_arith)
        requires
            v * den < den,
            den > 0,
    ;
}

proof fn lemma_count_from_above(count: int, leds: nat, den: nat, seconds: nat)
    requires
        den > 0,
        seconds < 86400,
        0x100_0000 * (600 * leds) >= 0xff_ffff * (seconds * den),
        5100000 * (0xff_ffff * leds) <= 0x100_0000 * ((20000 * count + 1) * den),
    ensures
        40 * count >= 17 * seconds,
{
    let sd = seconds * den;
    let cd = count * den;
    assert((20000 * count + 1) * den == 20000 * cd + den) by (nonlinear_arith)
        requires
            cd == count * den,
    ;
    assert(sd <= 86400 * den) by (nonlinear_arith)
        requires
            sd == seconds * den,
            seconds < 86400,
    ;
    let v = 17 * seconds - 40 * count;
    assert(v * den == 17 * sd - 40 * cd) by (nonlinear_arith)
        requires
            v == 17 * seconds - 40 * count,
            cd == count * den,
            sd == seconds * den,
    ;
    assert(v * den < den);
    assert(v < 1) by (nonlinear_arith)
        requires
            v * den < den,
            den > 0,
    ;
}

/// What a number is rounded to depends on its value only.
proof fn lemma_nearest_reduced(y: (nat, nat), num: nat, den: nat)
    requires
        binary32::is_nearest(y, 0x1_0000 * num, 0x1_0000 * den),
    ensures
        binary32::is_nearest(y, num, den),
{
    let q = pow2(y.1);
    assert((0x1_0000 * num) * q == 0x1_0000 * (num * q)) by (nonlinear_arith);
    assert(y.0 * (0x1_0000 * den) == 0x1_0000 * (y.0 * den)) by (nonlinear_arith);
}

/// The brightness for a part of the sun is 127.5 times that part, rounded once to 24 bits and then
/// cut to an integer; no part gives no light.
pub proof fn law_brightness_of_part(part: (nat, nat)) -> (light: (nat, nat))
    requires
        part.0 == 0 || 0x80_0000 <= part.0 <= 0x100_0000,
        part.0 <= 145 * pow2(part.1),
    ensures
        part.0 == 0 ==> sky::brightness(part) == 0,
        part.0 > 0 ==> {
            let b = sky::brightness(part);
            &&& binary32::is_nearest(light, 255 * part.0, 2 * pow2(part.1))
            &&& b * pow2(light.1) <= light.0 < (b + 1) * pow2(light.1)
        },
{
    vstd::arithmetic::power2::lemma2_to64();
    sky::lemma_brightness(part);
    let light = binary32::product((0xff_0000, 17), part);
    vstd::arithmetic::power2::lemma_pow2_adds(17, part.1);
    binary32::law_product((0xff_0000, 17), part);
    binary32::law_integer_part(light);
    if part.0 > 0 {
        assert(0xff_0000 * part.0 == 0x1_0000 * (255 * part.0));
        assert(pow2(17 + part.1) == 0x1_0000 * (2 * pow2(part.1)));
        lemma_nearest_reduced(light, 255 * part.0, 2 * pow2(part.1));
    } else {
        assert(light == (0nat, 0nat));
    }
    light
}

/// The steps from a time to the sun that shows it.
pub struct Steps {
    /// The place in LEDs, before whole rounds of the strip are taken off.
    pub place: (nat, nat),
    /// The whole rounds.
    pub turns: nat,
    /// The part of the sun that the upper LED has, and its brightness before it is cut.
    pub upper: (nat, nat),
    pub upper_light: (nat, nat),
    /// The same for the lower LED.
    pub lower: (nat, nat),
    pub lower_light: (nat, nat),
}

/// `r` is what `num / den` is rounded to: the nearest number of 24 bits, or zero.
pub open spec fn is_rounded(r: (nat, nat), num: nat, den: nat) -> bool {
    if num == 0 {
        r == (0nat, 0nat)
    } else {
        binary32::is_nearest(r, num, den)
    }
}

/// Below 2^24 LEDs, each step from the time to the sun is rounded once and to the nearest: 144
/// times the time is the place; what is left of it beyond whole rounds and whole LEDs is the part
/// of the upper LED; one less that part is the part of the lower LED; and 127.5 times a part, cut
/// to an integer, is a brightness.
pub proof fn law_steps_to_the_sun(time: Single) -> (s: Steps)
    requires
        match time.value() {
            Value::Finite { negative, mant, exponent } => !negative && 144 * numerator(
                mant,
                exponent,
            ) < 0x100_0000 * denominator(exponent),
            _ => false,
        },
    ensures
        match time.value() {
            Value::Finite { negative, mant, exponent } => {
                let sun = sky::sun_of(time.value());
                let unit = pow2(s.place.1);
                let left = s.place.0 - (144 * s.turns + sun.lower_led) * unit;
                let whole = pow2(s.upper.1);
                &&& is_rounded(s.place, 144 * numerator(mant, exponent), denominator(exponent))
                &&& sun.lower_led < 144
                &&& 0 <= left < unit
                &&& is_rounded(s.upper, left as nat, unit)
                &&& s.upper.0 <= whole
                &&& is_rounded(s.lower, (whole - s.upper.0) as nat, whole)
                &&& is_rounded(s.upper_light, 255 * s.upper.0, 2 * whole)
                &&& is_rounded(s.lower_light, 255 * s.lower.0, 2 * pow2(s.lower.1))
                &&& sun.upper_brightness * pow2(s.upper_light.1) <= s.upper_light.0 < (
                sun.upper_brightness + 1) * pow2(s.upper_light.1)
                &&& sun.lower_brightness * pow2(s.lower_light.1) <= s.lower_light.0 < (
                sun.lower_brightness + 1) * pow2(s.lower_light.1)
            },
            _ => false,
        },
{
    match time.value() {
        Value::Finite { negative, mant, exponent } => {
            vstd::arithmetic::power2::lemma2_to64();
            let leds = 144 * numerator(mant, exponent);
            let den = denominator(exponent);
            if exponent > 0 {
                let e = pow2(exponent as nat);
                vstd::arithmetic::power2::lemma_pow2_unfold(exponent as nat);
                vstd::arithmetic::power2::lemma_pow2_pos((exponent - 1) as nat);
                assert(mant as nat * e >= 0x100_0000) by (nonlinear_arith)
                    requires
                        mant >= 0x80_0000,
                        e >= 2,
                ;
                assert(false);
            }
            let n = (-exponent) as nat;
            let t = (mant as nat, n);
            vstd::arithmetic::power2::lemma_pow2_pos(n);
            assert(leds == t.0 * 144);
            let p = binary32::product(t, (144, 0));
            binary32::law_product(t, (144, 0));
            let turns = binary32::law_remainder(p, 144);
            let x = sky::led_index(t);
            assert(x == binary32::remainder(p, 144));
            let unit = pow2(p.1);
            vstd::arithmetic::power2::lemma_pow2_pos(p.1);
            binary32::law_integer_part(x);
            sky::lemma_fraction(x);
            sky::lemma_sun_brightness(x);
            vstd::arithmetic::div_mod::lemma_fundamental_div_mod(x.0 as int, unit as int);
            let l = binary32::integer_part(x);
            let r = x.0 % unit;
            assert(r == x.0 - l * unit) by (nonlinear_arith)
                requires
                    x.0 == unit * l + r,
            ;
            assert(p.0 - (144 * turns + l) * unit == r) by (nonlinear_arith)
                requires
                    p.0 == x.0 + turns * (144 * unit),
                    r == x.0 - l * unit,
            ;
            binary32::law_rounding(r, unit);
            let upper = sky::fraction_of(x);
            sky::lemma_share(upper);
            let whole = pow2(upper.1);
            vstd::arithmetic::power2::lemma_pow2_pos(upper.1);
            let lower = binary32::difference((1, 0), upper);
            vstd::arithmetic::power2::lemma_pow2_pos(lower.1);
            binary32::law_rounding((whole - upper.0) as nat, whole);
            let upper_light = lemma_light_of(upper);
            let lower_light = lemma_light_of(lower);
            Steps { place: p, turns, upper, upper_light, lower, lower_light }
        },
        _ => arbitrary(),
    }
}

proof fn lemma_light_of(part: (nat, nat)) -> (light: (nat, nat))
    requires
        part.0 == 0 || 0x80_0000 <= part.0 <= 0x100_0000,
        part.0 <= 145 * pow2(part.1),
    ensures
        is_rounded(light, 255 * part.0, 2 * pow2(part.1)),
        sky::brightness(part) * pow2(light.1) <= light.0 < (sky::brightness(part) + 1) * pow2(
            light.1,
        ),
{
    vstd::arithmetic::power2::lemma2_to64();
    let light = law_brightness_of_part(part);
    if part.0 == 0 {
        assert(0 * pow2(0) == 0 && (0 + 1) * pow2(0) == 1) by (nonlinear_arith)
            requires
                pow2(0) == 1,
        ;
        (0, 0)
    } else {
        light
    }
}

/// Before the first day, too, each step is rounded once and to the nearest: one more than what is
/// left of the place beyond whole rounds, times 127.5, cut to an integer and to 255, is the
/// brightness of the first LED.
pub proof fn law_steps_before_the_first_day(time: Single) -> (r: (
    (nat, nat),
    nat,
    (nat, nat),
    (nat, nat),
))
    requires
        match time.value() {
            Value::Finite { negative, mant, exponent } => negative && 144 * numerator(mant, exponent)
                < 0x100_0000 * denominator(exponent),
            _ => false,
        },
    ensures
        match time.value() {
            Value::Finite { negative, mant, exponent } => {
                let (p, turns, one_more, light) = r;
                let b = sky::sun_of(time.value()).lower_brightness;
                let unit = pow2(p.1);
                let left = p.0 - 144 * turns * unit;
                &&& is_rounded(p, 144 * numerator(mant, exponent), denominator(exponent))
                &&& 0 <= left < 144 * unit
                &&& is_rounded(one_more, (unit + left) as nat, unit)
                &&& is_rounded(light, 255 * one_more.0, 2 * pow2(one_more.1))
                &&& b * pow2(light.1) <= light.0
                &&& b < 255 ==> light.0 < (b + 1) * pow2(light.1)
            },
            _ => false,
        },
{
    match time.value() {
        Value::Finite { negative, mant, exponent } => {
            vstd::arithmetic::power2::lemma2_to64();
            let leds = 144 * numerator(mant, exponent);
            let den = denominator(exponent);
            if exponent > 0 {
                let e = pow2(exponent as nat);
                vstd::arithmetic::power2::lemma_pow2_unfold(exponent as nat);
                vstd::arithmetic::power2::lemma_pow2_pos((exponent - 1) as nat);
                assert(mant as nat * e >= 0x100_0000) by (nonlinear_arith)
                    requires
                        mant >= 0x80_0000,
                        e >= 2,
                ;
                assert(false);
            }
            let n = (-exponent) as nat;
            let t = (mant as nat, n);
            vstd::arithmetic::power2::lemma_pow2_pos(n);
            assert(leds == t.0 * 144);
            let p = binary32::product(t, (144, 0));
            binary32::law_product(t, (144, 0));
            let turns = binary32::law_remainder(p, 144);
            let x = sky::led_index(t);
            assert(x == binary32::remainder(p, 144));
            let unit = pow2(p.1);
            vstd::arithmetic::power2::lemma_pow2_pos(p.1);
            assert(p.0 - 144 * turns * unit == x.0) by (nonlinear_arith)
                requires
                    p.0 == x.0 + turns * (144 * unit),
            ;
            assert(x.0 * pow2(0) == x.0) by (nonlinear_arith)
                requires
                    pow2(0) == 1,
            ;
            let one_more = binary32::sum((1, 0), x);
            binary32::law_sum((1, 0), x);
            let d = pow2(one_more.1);
            vstd::arithmetic::power2::lemma_pow2_pos(one_more.1);
            let c = one_more.0;
            let num = unit + x.0;
            assert(c <= 145 * d) by (nonlinear_arith)
                requires
                    2 * (c * unit - num * d) <= unit,
                    num < 145 * unit,
                    unit > 0,
                    d > 0,
            ;
            let light = lemma_light_of(one_more);
            let b = sky::brightness(one_more);
            let shown = sky::sun_of(time.value()).lower_brightness as nat;
            assert(shown <= b && (shown < 255 ==> shown == b));
            assert(shown * pow2(light.1) <= b * pow2(light.1)) by (nonlinear_arith)
                requires
                    shown <= b,
            ;
            (p, turns, one_more, light)
        },
        _ => ((0, 0), 0, (0, 0), (0, 0)),
    }
}

} // verus!
