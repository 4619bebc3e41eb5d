//! Real numbers in IEEE 754 binary64 encoding, handled as bit patterns.

use vstd::prelude::*;
use vstd::arithmetic::div_mod::{lemma_fundamental_div_mod, lemma_fundamental_div_mod_converse};
use vstd::arithmetic::power2::{
    lemma2_to64, lemma2_to64_rest, lemma_pow2_pos, lemma_pow2_strictly_increases,
    lemma_pow2_unfold, pow2,
};

verus! {

/// The weight of the sign bit of a binary64 pattern.
pub const SIGN_BIT: u64 = 0x8000_0000_0000_0000;

/// The pattern of positive infinity; every larger magnitude is not a number.
pub const INFINITY_BITS: u64 = 0x7FF0_0000_0000_0000;

/// The pattern of the number one.
pub const ONE_BITS: u64 = 0x3FF0_0000_0000_0000;

/// The weight of the lowest bit of the exponent field, two to the power 52.
pub const FRACTION_RANGE: u64 = 0x0010_0000_0000_0000;

/// The number of distinct numerators of a unit fraction, two to the power 53.
pub const UNIT_RANGE: u64 = 0x0020_0000_0000_0000;

/// A real number, kept as the bit pattern of its binary64 encoding.
#[derive(Clone, Copy, Debug, PartialEq, Eq)]
pub struct Real {
    pub bits: u64,
}

impl Real {
    /// The pattern without its sign bit.
    pub open spec fn magnitude(self) -> nat {
        (self.bits % SIGN_BIT) as nat
    }

    /// Whether the sign bit is set.
    pub open spec fn is_negative(self) -> bool {
        self.bits >= SIGN_BIT
    }

    /// Whether the pattern encodes no number at all.
    pub open spec fn is_nan(self) -> bool {
        self.magnitude() > INFINITY_BITS
    }

    /// The place of the encoded number on the number line: patterns of
    /// numbers are ordered as their ranks are, and both zeros have rank 0.
    pub open spec fn rank(self) -> int {
        if self.is_negative() {
            -(self.magnitude() as int)
        } else {
            self.magnitude() as int
        }
    }

    /// Strict less-than of the encoded numbers. It is false as soon as one
    /// side is not a number.
    pub open spec fn lt(self, other: Real) -> bool {
        !self.is_nan() && !other.is_nan() && self.rank() < other.rank()
    }

    /// The biased exponent field of the pattern.
    pub open spec fn exponent_field(self) -> nat {
        self.magnitude() / (FRACTION_RANGE as nat)
    }

    /// The fraction field of the pattern.
    pub open spec fn fraction_field(self) -> nat {
        self.magnitude() % (FRACTION_RANGE as nat)
    }

    /// Whether the pattern encodes exactly `k / 2^53`.
    ///
    /// A normal binary64 number with exponent field `e` and fraction field
    /// `f` has the value `(2^52 + f) * 2^(e - 1075)`, so it equals
    /// `k * 2^(-53)` when `2^52 + f == k * 2^(1022 - e)`.
    pub open spec fn is_unit_fraction(self, k: nat) -> bool {
        if k == 0 {
            self.bits == 0
        } else {
            &&& !self.is_negative()
            &&& 1 <= self.exponent_field() <= 1022
            &&& FRACTION_RANGE + self.fraction_field() == k * pow2(
                (1022 - self.exponent_field()) as nat,
            )
        }
    }

    /// Whether the pattern encodes some `k / 2^53` with `k < 2^53`.
    pub open spec fn in_unit_interval(self) -> bool {
        exists|k: nat| k < UNIT_RANGE && #[trigger] self.is_unit_fraction(k)
    }

    /// The number with the given binary64 pattern.
    pub fn from_bits(bits: u64) -> (r: Real)
        ensures
            r.bits == bits,
    {
        Real { bits }
    }

    /// The binary64 pattern of the number.
    pub fn to_bits(&self) -> (bits: u64)
        ensures
            bits == self.bits,
    {
        self.bits
    }

    /// Whether the pattern encodes no number at all.
    pub fn not_a_number(&self) -> (r: bool)
        ensures
            r == self.is_nan(),
    {
        self.bits % SIGN_BIT > INFINITY_BITS
    }

    /// Strict less-than of two encoded numbers.
    pub fn less_than(&self, other: &Real) -> (r: bool)
        ensures
            r == self.lt(*other),
    {
        if self.not_a_number() || other.not_a_number() {
            return false;
        }
        let a: u64 = self.bits % SIGN_BIT;
        let b: u64 = other.bits % SIGN_BIT;
        if self.bits >= SIGN_BIT {
            if other.bits >= SIGN_BIT {
                b < a
            } else {
                a > 0 || b > 0
            }
        } else {
            if other.bits >= SIGN_BIT {
                false
            } else {
                a < b
            }
        }
    }

    /// The number `k / 2^53`, which binary64 holds exactly.
    pub fn from_unit_fraction(k: u64) -> (r: Real)
        requires
            k < UNIT_RANGE,
        ensures
            r.is_unit_fraction(k as nat),
    {
        if k == 0 {
            return Real { bits: 0 };
        }
        let mut scaled: u64 = k;
        let mut exponent: u64 = 1022;
        proof {
            lemma2_to64();
            lemma2_to64_rest();
        }
        while scaled < FRACTION_RANGE
            invariant
                0 < k,
                0 < scaled,
                970 <= exponent <= 1022,
                pow2((1022 - exponent) as nat) <= scaled < UNIT_RANGE,
                scaled == k * pow2((1022 - exponent) as nat),
                pow2(52) == FRACTION_RANGE,
            decreases exponent,
        {
            proof {
                let s = (1022 - exponent) as nat;
                if s >= 52 {
                    if s > 52 {
                        lemma_pow2_strictly_increases(52, s);
                    }
                    assert(false);
                }
                lemma_pow2_unfold(s + 1);
                assert(k * (2 * pow2(s)) == 2 * (k * pow2(s))) by (nonlinear_arith);
            }
            scaled = scaled * 2;
            exponent = exponent - 1;
        }
        let r = Real { bits: exponent * FRACTION_RANGE + (scaled - FRACTION_RANGE) };
        proof {
            let f = (scaled - FRACTION_RANGE) as int;
            assert(exponent * FRACTION_RANGE + f < SIGN_BIT) by (nonlinear_arith)
                requires
                    exponent <= 1022,
                    0 <= f < FRACTION_RANGE,
            ;
            lemma_fundamental_div_mod_converse(
                r.bits as int,
                FRACTION_RANGE as int,
                exponent as int,
                f,
            );
        }
        r
    }
}

/// A unit fraction has one encoding only.
pub proof fn lemma_unit_fraction_unique(a: Real, b: Real, k: nat)
    requires
        a.is_unit_fraction(k),
        b.is_unit_fraction(k),
    ensures
        a == b,
{
    if k > 0 {
        let ea = a.exponent_field();
        let eb = b.exponent_field();
        if ea != eb {
            // the significand of one would be at least twice that of the other
            let (hi, lo) = if ea < eb {
                (a, b)
            } else {
                (b, a)
            };
            let s_hi = (1022 - hi.exponent_field()) as nat;
            let s_lo = (1022 - lo.exponent_field()) as nat;
            assert(s_lo < s_hi);
            lemma_pow2_unfold(s_hi);
            if s_lo < s_hi - 1 {
                lemma_pow2_strictly_increases(s_lo, (s_hi - 1) as nat);
            }
            assert(pow2(s_hi) >= 2 * pow2(s_lo));
            assert(k * pow2(s_hi) >= 2 * (k * pow2(s_lo))) by (nonlinear_arith)
                requires
                    pow2(s_hi) >= 2 * pow2(s_lo),
            ;
            assert(false);
        }
        lemma_fundamental_div_mod(a.magnitude() as int, FRACTION_RANGE as int);
        lemma_fundamental_div_mod(b.magnitude() as int, FRACTION_RANGE as int);
        assert(a.magnitude() == b.magnitude());
        assert(a.bits == b.bits);
    }
}

/// What is not below the loser of a comparison is not below its winner
/// either: a number that stays in place against one, which in turn gives way
/// to another, stays in place against that other too.
pub proof fn lemma_lt_passes_on(a: Real, b: Real, c: Real)
    ensures
        !a.lt(b) && c.lt(b) ==> !a.lt(c),
{
}

/// A number of the unit interval is a number, it is not negative, and it is
/// below one.
pub proof fn lemma_unit_interval_bounds(r: Real)
    requires
        r.in_unit_interval(),
    ensures
        !r.is_nan(),
        !r.is_negative(),
        r.lt(Real { bits: ONE_BITS }),
{
    let k = choose|k: nat| k < UNIT_RANGE && #[trigger] r.is_unit_fraction(k);
    if k > 0 {
        lemma_fundamental_div_mod(r.magnitude() as int, FRACTION_RANGE as int);
        assert(r.magnitude() < 1023 * FRACTION_RANGE) by (nonlinear_arith)
            requires
                r.magnitude() == FRACTION_RANGE * r.exponent_field() + r.fraction_field(),
                r.exponent_field() <= 1022,
                r.fraction_field() < FRACTION_RANGE,
        ;
    }
}

/// Unit fractions are ordered as their numerators are.
pub proof fn lemma_unit_fractions_ordered(a: Real, j: nat, b: Real, k: nat)
    requires
        a.is_unit_fraction(j),
        b.is_unit_fraction(k),
        j < UNIT_RANGE,
        k < UNIT_RANGE,
    ensures
        a.lt(b) <==> j < k,
{
    assert(a.in_unit_interval());
    assert(b.in_unit_interval());
    lemma_unit_interval_bounds(a);
    lemma_unit_interval_bounds(b);
    if j < k {
        lemma_unit_fraction_below(a, j, b, k);
    } else if k < j {
        lemma_unit_fraction_below(b, k, a, j);
    } else {
        lemma_unit_fraction_unique(a, b, k);
    }
}

/// A unit fraction with a smaller numerator has a smaller pattern.
proof fn lemma_unit_fraction_below(a: Real, j: nat, b: Real, k: nat)
    requires
        a.is_unit_fraction(j),
        b.is_unit_fraction(k),
        j < k,
    ensures
        a.magnitude() < b.magnitude(),
        !a.is_negative(),
        !b.is_negative(),
{
    lemma_fundamental_div_mod(a.magnitude() as int, FRACTION_RANGE as int);
    lemma_fundamental_div_mod(b.magnitude() as int, FRACTION_RANGE as int);
    if j > 0 {
        let ea = a.exponent_field();
        let eb = b.exponent_field();
        let sa = (1022 - ea) as nat;
        let sb = (1022 - eb) as nat;
        if ea > eb {
            // then j * 2^sa < 2^53 <= 2 * k * 2^sa <= k * 2^sb, and j >= k
            lemma_pow2_unfold(sb);
            if sa < sb - 1 {
                lemma_pow2_strictly_increases(sa, (sb - 1) as nat);
            }
            assert(pow2(sb) >= 2 * pow2(sa));
            assert(k * pow2(sb) >= 2 * (j * pow2(sa))) by (nonlinear_arith)
                requires
                    pow2(sb) >= 2 * pow2(sa),
                    j < k,
            ;
            assert(false);
        } else if ea == eb {
            lemma_pow2_pos(sa);
            assert(j * pow2(sa) < k * pow2(sa)) by (nonlinear_arith)
                requires
                    j < k,
                    pow2(sa) > 0,
            ;
            assert(a.fraction_field() < b.fraction_field());
        } else {
            assert(FRACTION_RANGE * ea + a.fraction_field() < FRACTION_RANGE * eb
                + b.fraction_field()) by (nonlinear_arith)
                requires
                    ea < eb,
                    a.fraction_field() < FRACTION_RANGE,
            ;
        }
    }
}

} // verus!
