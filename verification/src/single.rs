//! Single-precision numbers as they are stored: each of the 2^32 bit patterns of IEEE 754 binary32,
//! with the negative numbers, the infinities and what is not a number.
use crate::binary32;
use crate::binary32::Binary32;
use vstd::arithmetic::power2::pow2;
use vstd::prelude::*;

verus! {

/// A single-precision number, given by its bits.
#[derive(Clone, Copy, Debug, PartialEq, Eq, Structural)]
pub struct Single {
    pub bits: u32,
}

/// What the bits of a number stand for. A finite number is `mant * 2^exponent`, with the sign
/// kept apart, so that there is a negative zero.
#[derive(Clone, Copy, Debug, PartialEq, Eq, Structural)]
pub enum Value {
    Finite { negative: bool, mant: u32, exponent: i32 },
    Infinite { negative: bool },
    NotANumber,
}

impl Single {
    /// One bit for the sign, eight for the exponent, 23 for the significand. The lowest exponent
    /// is that of the numbers without a leading bit, the highest is no number.
    pub open spec fn value(self) -> Value {
        let negative = self.bits >= 0x8000_0000;
        let biased = self.bits / 0x80_0000 % 256;
        let fraction = self.bits % 0x80_0000;
        if biased == 255 {
            if fraction == 0 {
                Value::Infinite { negative }
            } else {
                Value::NotANumber
            }
        } else if biased == 0 {
            Value::Finite { negative, mant: fraction, exponent: -149i32 }
        } else {
            Value::Finite {
                negative,
                mant: (fraction + 0x80_0000) as u32,
                exponent: (biased - 150) as i32,
            }
        }
    }

    /// The number is `x.0 / 2^x.1`, and not the negative zero.
    pub open spec fn equals(self, x: (nat, nat)) -> bool {
        match self.value() {
            Value::Finite { negative, mant, exponent } => {
                &&& !negative
                &&& exponent <= 0
                &&& mant * pow2(x.1) == x.0 * pow2((-exponent) as nat)
            },
            _ => false,
        }
    }

    /// What the bits stand for.
    pub fn decode(self) -> (v: Value)
        ensures
            v == self.value(),
            v matches Value::Finite { negative, mant, exponent } ==> {
                &&& mant < binary32::MANT_MAX
                &&& -149 <= exponent <= 104
                &&& exponent > -149 ==> mant >= binary32::MANT_MIN
            },
    {
        let negative: bool = self.bits >= 0x8000_0000;
        let biased: u32 = self.bits / 0x80_0000 % 256;
        let fraction: u32 = self.bits % 0x80_0000;
        if biased == 255 {
            if fraction == 0 {
                Value::Infinite { negative }
            } else {
                Value::NotANumber
            }
        } else if biased == 0 {
            Value::Finite { negative, mant: fraction, exponent: -149 }
        } else {
            Value::Finite { negative, mant: fraction + 0x80_0000, exponent: biased as i32 - 150 }
        }
    }

    /// Stores a number below 2^24. The scale is at most that of the smallest number.
    pub fn encode(x: Binary32) -> (r: Self)
        requires
            x.wf(),
            x.scale <= 149,
            x.mant < binary32::MANT_MAX * pow2(x.scale as nat),
        ensures
            r.equals(x@),
    {
        let mut mant: u32 = x.mant;
        let mut scale: u32 = x.scale;
        proof {
            vstd::arithmetic::power2::lemma2_to64();
            if x.scale == 0 {
                assert(x.mant < 0x100_0000 * 1);
            }
        }
        if mant == binary32::MANT_MAX {
            proof {
                vstd::arithmetic::power2::lemma_pow2_unfold(x.scale as nat);
            }
            mant = binary32::MANT_MIN;
            scale = scale - 1;
        }
        while mant < binary32::MANT_MIN && scale < 149
            invariant
                mant < binary32::MANT_MAX,
                scale <= 149,
                mant * pow2(x.scale as nat) == x.mant * pow2(scale as nat),
            decreases 149 - scale,
        {
            proof {
                vstd::arithmetic::power2::lemma_pow2_unfold((scale + 1) as nat);
                assert((2 * mant) * pow2(x.scale as nat) == x.mant * pow2((scale + 1) as nat))
                    by (nonlinear_arith)
                    requires
                        mant * pow2(x.scale as nat) == x.mant * pow2(scale as nat),
                        pow2((scale + 1) as nat) == 2 * pow2(scale as nat),
                ;
            }
            mant = 2 * mant;
            scale = scale + 1;
        }
        if mant < binary32::MANT_MIN {
            Single { bits: mant }
        } else {
            let biased: u32 = 150 - scale;
            let fraction: u32 = mant - binary32::MANT_MIN;
            let r: Single = Single { bits: biased * 0x80_0000 + fraction };
            assert(r.bits / 0x80_0000 == biased && r.bits % 0x80_0000 == fraction);
            r
        }
    }
}

/// A number is stored in one way only.
pub proof fn law_bits_are_unique(a: Single, b: Single, x: (nat, nat))
    requires
        a.equals(x),
        b.equals(x),
    ensures
        a == b,
{
    match (a.value(), b.value()) {
        (
            Value::Finite { negative: _, mant: m, exponent: e },
            Value::Finite { negative: _, mant: n, exponent: f },
        ) => {
            if f < e {
                lemma_higher_scale(m as nat, (-e) as nat, n as nat, (-f) as nat, x);
            } else if e < f {
                lemma_higher_scale(n as nat, (-f) as nat, m as nat, (-e) as nat, x);
            } else {
                let d = pow2(x.1);
                vstd::arithmetic::power2::lemma_pow2_pos(x.1);
                assert(m == n) by (nonlinear_arith)
                    requires
                        m * d == n * d,
                        d > 0,
                ;
            }
        },
        _ => {},
    }
}

/// A number that has 24 bits at one scale has more than 24 at a higher one.
proof fn lemma_higher_scale(m: nat, s: nat, n: nat, t: nat, x: (nat, nat))
    requires
        binary32::MANT_MIN <= m,
        s < t,
        m * pow2(x.1) == x.0 * pow2(s),
        n * pow2(x.1) == x.0 * pow2(t),
    ensures
        n >= binary32::MANT_MAX,
{
    let d = pow2(x.1);
    vstd::arithmetic::power2::lemma_pow2_pos(x.1);
    vstd::arithmetic::power2::lemma_pow2_unfold(t);
    if s + 1 < t {
        vstd::arithmetic::power2::lemma_pow2_strictly_increases(s, (t - 1) as nat);
    }
    assert(n * d >= 2 * (m * d)) by (nonlinear_arith)
        requires
            pow2(t) >= 2 * pow2(s),
            m * d == x.0 * pow2(s),
            n * d == x.0 * pow2(t),
    ;
    assert(n >= 2 * m) by (nonlinear_arith)
        requires
            n * d >= 2 * (m * d),
            d > 0,
    ;
}

/// The bits count the finite numbers of one sign in their order: each step adds one to the
/// significand, and a significand that is full goes over into the next exponent. The infinities
/// come after them, and then what is not a number.
pub proof fn law_bits_count_numbers(x: Single)
    ensures
        ({
            let low = if x.bits >= 0x8000_0000 {
                x.bits - 0x8000_0000
            } else {
                x.bits as int
            };
            match x.value() {
                Value::Finite { negative, mant, exponent } => {
                    &&& negative <==> x.bits >= 0x8000_0000
                    &&& low == (exponent + 149) * 0x80_0000 + mant
                    &&& -149 <= exponent <= 104
                    &&& mant < 0x100_0000
                    &&& exponent > -149 ==> mant >= 0x80_0000
                },
                Value::Infinite { negative } => {
                    &&& negative <==> x.bits >= 0x8000_0000
                    &&& low == 0x7f80_0000
                },
                Value::NotANumber => low > 0x7f80_0000,
            }
        }),
{
}

} // verus!
