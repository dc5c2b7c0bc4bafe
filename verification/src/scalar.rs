//! Single-precision coordinates carried by their IEEE-754 bit pattern.
//!
//! Nothing here does floating-point arithmetic. What the engine needs of a
//! coordinate besides carrying it is comparing it, flipping its sign and
//! writing small whole or dyadic numbers, and each of these is a short
//! integer computation on the bit pattern.

use vstd::arithmetic::power2::{
    lemma_pow2_adds, lemma_pow2_pos, lemma_pow2_strictly_increases, lemma_pow2_unfold, pow2,
};
use vstd::prelude::*;

verus! {

/// An IEEE-754 binary32 number, held by its bit pattern. `==` compares
/// patterns: two NaNs may be equal and the two zeros differ.
#[derive(Clone, Copy, Debug, PartialEq, Eq, Structural)]
pub struct Scalar {
    pub bits: u32,
}

impl Scalar {
    /// The pattern without its sign bit.
    pub open spec fn magnitude(self) -> int {
        if self.bits >= 0x8000_0000 {
            self.bits - 0x8000_0000
        } else {
            self.bits as int
        }
    }

    pub open spec fn negative(self) -> bool {
        self.bits >= 0x8000_0000
    }

    pub open spec fn nan(self) -> bool {
        self.magnitude() > 0x7f80_0000
    }

    /// The same pattern, or both no number.
    pub open spec fn alike(self, other: Scalar) -> bool {
        self == other || self.nan() && other.nan()
    }

    pub open spec fn finite(self) -> bool {
        self.magnitude() < 0x7f80_0000
    }

    /// Where a number stands among the numbers: the two zeros stand together,
    /// and patterns of one sign are ordered by magnitude.
    pub open spec fn rank(self) -> int {
        if self.negative() {
            -self.magnitude()
        } else {
            self.magnitude()
        }
    }

    /// `<=` on numbers: never true of a NaN.
    pub open spec fn le(self, other: Scalar) -> bool {
        !self.nan() && !other.nan() && self.rank() <= other.rank()
    }

    /// `<` on numbers: never true of a NaN.
    pub open spec fn lt(self, other: Scalar) -> bool {
        !self.nan() && !other.nan() && self.rank() < other.rank()
    }

    /// The total order over all patterns: negative NaNs first, then the
    /// numbers, `-0` before `+0`, then positive NaNs.
    pub open spec fn total(self) -> int {
        if self.negative() {
            0xffff_ffff - self.bits
        } else {
            self.bits + 0x8000_0000
        }
    }

    /// The sign bit flipped.
    pub open spec fn negated(self) -> Scalar {
        if self.negative() {
            Scalar { bits: (self.bits - 0x8000_0000) as u32 }
        } else {
            Scalar { bits: (self.bits + 0x8000_0000) as u32 }
        }
    }

    /// The larger of two numbers; a NaN gives way to the other operand, and
    /// of two equal numbers the first is kept.
    pub open spec fn larger(self, other: Scalar) -> Scalar {
        if self.nan() || self.lt(other) {
            other
        } else {
            self
        }
    }

    /// The significand, with the leading bit of a normal number.
    pub open spec fn significand(self) -> int {
        if self.magnitude() < 0x80_0000 {
            self.magnitude()
        } else {
            0x80_0000 + self.magnitude() % 0x80_0000
        }
    }

    /// The exponent field; that of a subnormal number counts as 1.
    pub open spec fn exponent(self) -> int {
        if self.magnitude() < 0x80_0000 {
            1
        } else {
            self.magnitude() / 0x80_0000
        }
    }

    /// The value is exactly `n / 2^k`. (A finite non-negative pattern denotes
    /// `significand * 2^(exponent - 150)`.)
    pub open spec fn denotes(self, n: nat, k: nat) -> bool {
        &&& !self.negative()
        &&& self.finite()
        &&& self.significand() * pow2((self.exponent() + k) as nat) == n * pow2(150)
    }

    /// The value is the whole number nearest to `n` that has 24 significant
    /// bits, of two equally near ones the even one: `n` itself below `2^24`.
    pub open spec fn rounds(self, n: nat) -> bool {
        &&& n < 0x100_0000 ==> self.denotes(n, 0)
        &&& forall|s: nat|
            0x80_0000 <= #[trigger] (n / pow2(s)) < 0x100_0000 ==> self.denotes(
                nearest_multiple(n, pow2(s)),
                0,
            )
    }

    /// `0.0`.
    pub fn zero() -> (r: Scalar)
        ensures
            r == (Scalar { bits: 0 }),
    {
        Scalar { bits: 0 }
    }

    /// `1.0`.
    pub fn one() -> (r: Scalar)
        ensures
            r == (Scalar { bits: 0x3f80_0000 }),
    {
        Scalar { bits: 0x3f80_0000 }
    }

    pub fn is_nan(&self) -> (r: bool)
        ensures
            r == self.nan(),
    {
        self.bits > 0xff80_0000 || (self.bits > 0x7f80_0000 && self.bits < 0x8000_0000)
    }

    pub fn is_finite(&self) -> (r: bool)
        ensures
            r == self.finite(),
    {
        self.bits < 0x7f80_0000 || (self.bits >= 0x8000_0000 && self.bits < 0xff80_0000)
    }

    /// Equality with zero, of either sign.
    pub fn is_zero(&self) -> (r: bool)
        ensures
            r == (self.magnitude() == 0),
    {
        self.bits == 0 || self.bits == 0x8000_0000
    }

    /// Position in the total order, as a `u32` that orders the same way.
    pub fn total_key(&self) -> (r: u32)
        ensures
            r == self.total(),
    {
        if self.bits >= 0x8000_0000 {
            0xffff_ffff - self.bits
        } else {
            self.bits + 0x8000_0000
        }
    }

    pub fn signed_rank(&self) -> (r: i64)
        ensures
            r == self.rank(),
    {
        if self.bits >= 0x8000_0000 {
            -((self.bits - 0x8000_0000) as i64)
        } else {
            self.bits as i64
        }
    }

    pub fn at_most(&self, other: &Scalar) -> (r: bool)
        ensures
            r == self.le(*other),
    {
        !self.is_nan() && !other.is_nan() && self.signed_rank() <= other.signed_rank()
    }

    pub fn less_than(&self, other: &Scalar) -> (r: bool)
        ensures
            r == self.lt(*other),
    {
        !self.is_nan() && !other.is_nan() && self.signed_rank() < other.signed_rank()
    }

    pub fn neg(self) -> (r: Scalar)
        ensures
            r == self.negated(),
    {
        if self.bits >= 0x8000_0000 {
            Scalar { bits: self.bits - 0x8000_0000 }
        } else {
            Scalar { bits: self.bits + 0x8000_0000 }
        }
    }

    pub fn max(self, other: Scalar) -> (r: Scalar)
        ensures
            r == self.larger(other),
    {
        if self.is_nan() || self.less_than(&other) {
            other
        } else {
            self
        }
    }

    /// `n / 2^k`, exact.
    pub fn dyadic(n: u32, k: u32) -> (r: Scalar)
        requires
            n < 0x100_0000,
            k <= 100,
        ensures
            r.denotes(n as nat, k as nat),
    {
        if n == 0 {
            proof {
                assert(0 * pow2((1 + k as int) as nat) == 0);
            }
            return Scalar { bits: 0 };
        }
        let mut m: u32 = n;
        let mut e: u32 = 0;
        proof {
            assert(pow2(0) == 1) by {
                vstd::arithmetic::power2::lemma2_to64();
            }
        }
        while m < 0x80_0000
            invariant
                0 < n < 0x100_0000,
                n <= m < 0x100_0000,
                e <= 23,
                m == n * pow2(e as nat),
                m as nat >= pow2(e as nat),
            decreases 0x100_0000 - m,
        {
            proof {
                lemma_pow2_unfold((e + 1) as nat);
                let p: int = pow2(e as nat) as int;
                assert(2 * (n * p) == n * (2 * p)) by (nonlinear_arith);
                if e >= 23 {
                    lemma_pow2_at_most(23, e as nat);
                    assert(pow2(23) == 0x80_0000) by {
                        vstd::arithmetic::power2::lemma2_to64();
                    }
                }
            }
            m = m * 2;
            e = e + 1;
        }
        let r: Scalar = Scalar { bits: (150 - e - k) * 0x80_0000 + (m - 0x80_0000) };
        proof {
            let x: int = 150 - e - k;
            assert(r.bits == x * 0x80_0000 + (m - 0x80_0000));
            assert(r.magnitude() / 0x80_0000 == x && r.magnitude() % 0x80_0000 == m - 0x80_0000);
            assert(r.exponent() + k == 150 - e);
            lemma_pow2_adds(e as nat, (150 - e) as nat);
            let a: int = pow2(e as nat) as int;
            let b: int = pow2((150 - e) as nat) as int;
            assert((n * a) * b == n * (a * b)) by (nonlinear_arith);
        }
        r
    }

    /// The nearest number to `n`; of two equally near ones, the one with an
    /// even significand. Whole numbers below `2^24` are exact.
    pub fn from_u32(n: u32) -> (r: Scalar)
        ensures
            r.rounds(n as nat),
    {
        if n < 0x100_0000 {
            let r: Scalar = Scalar::dyadic(n, 0);
            proof {
                assert forall|s: nat|
                    0x80_0000 <= #[trigger] (n as nat / pow2(s)) < 0x100_0000 implies r.denotes(
                    nearest_multiple(n as nat, pow2(s)),
                    0,
                ) by {
                    vstd::arithmetic::power2::lemma2_to64();
                    lemma_pow2_pos(s);
                    vstd::arithmetic::div_mod::lemma_div_is_ordered_by_denominator(
                        n as int,
                        1,
                        pow2(s) as int,
                    );
                    lemma_shift_is_unique(n as nat, 0, s);
                }
            }
            return r;
        }
        let mut q: u32 = n;
        let mut unit: u32 = 1;
        let mut s: u32 = 0;
        proof {
            vstd::arithmetic::power2::lemma2_to64();
        }
        while q >= 0x100_0000
            invariant
                n >= 0x100_0000,
                0x80_0000 <= q,
                s <= 8,
                unit == pow2(s as nat),
                0 < unit <= 0x100,
                q == n / unit,
                s == 8 ==> q < 0x100_0000,
            decreases q,
        {
            proof {
                lemma_pow2_unfold((s + 1) as nat);
                vstd::arithmetic::div_mod::lemma_div_denominator(n as int, unit as int, 2);
                vstd::arithmetic::power2::lemma2_to64();
                assert(s + 1 == 8 ==> n / 0x100 < 0x100_0000);
                if s + 1 < 8 {
                    lemma_pow2_at_most((s + 1) as nat, 7);
                }
            }
            q = q / 2;
            unit = unit * 2;
            s = s + 1;
        }
        let rest: u32 = n % unit;
        let up: bool = rest * 2 > unit || (rest * 2 == unit && q % 2 == 1);
        let m: u32 = if up {
            q + 1
        } else {
            q
        };
        let r: Scalar = if m == 0x100_0000 {
            Scalar { bits: (151 + s) * 0x80_0000 }
        } else {
            Scalar { bits: (150 + s) * 0x80_0000 + (m - 0x80_0000) }
        };
        proof {
            let e: nat = s as nat;
            lemma_pow2_adds(150, e);
            lemma_pow2_adds(1, (150 + e) as nat);
            vstd::arithmetic::power2::lemma2_to64();
            let p: int = pow2(150) as int;
            let u: int = unit as int;
            assert(m * (p * u) == (m * u) * p) by (nonlinear_arith);
            assert(pow2((150 + e) as nat) == p * u);
            if m == 0x100_0000 {
                assert(r.magnitude() == (151 + s) * 0x80_0000);
                assert(r.exponent() == 151 + s && r.significand() == 0x80_0000);
                assert(pow2((151 + e) as nat) == 2 * (p * u));
            } else {
                assert(r.magnitude() == (150 + s) * 0x80_0000 + (m - 0x80_0000));
                assert(r.exponent() == 150 + s && r.significand() == m);
            }
            let g: int = r.significand();
            let w: int = pow2((r.exponent() + 0) as nat) as int;
            assert(g * w == m * (p * u)) by (nonlinear_arith)
                requires
                    (g == m && w == p * u) || (m == 2 * g && w == 2 * (p * u)),
            ;
            assert(m * u >= 0) by (nonlinear_arith)
                requires
                    u > 0,
            ;
            assert(r.denotes((m * u) as nat, 0));
            assert forall|t: nat|
                0x80_0000 <= #[trigger] (n as nat / pow2(t)) < 0x100_0000 implies r.denotes(
                nearest_multiple(n as nat, pow2(t)),
                0,
            ) by {
                lemma_shift_is_unique(n as nat, e, t);
            }
        }
        r
    }
}

/// The multiple of `unit` nearest to `n`; of two equally near ones, the even
/// multiple.
pub open spec fn nearest_multiple(n: nat, unit: nat) -> nat {
    let q = n / unit;
    let rest = n % unit;
    if rest * 2 > unit || (rest * 2 == unit && q % 2 == 1) {
        (q + 1) * unit
    } else {
        q * unit
    }
}

/// At most one shift brings a number to 24 significant bits.
proof fn lemma_shift_is_unique(n: nat, s: nat, t: nat)
    requires
        0x80_0000 <= n / pow2(s) < 0x100_0000,
        0x80_0000 <= n / pow2(t) < 0x100_0000,
    ensures
        s == t,
{
    if s < t {
        lemma_larger_shift_halves(n, s, t);
    } else if t < s {
        lemma_larger_shift_halves(n, t, s);
    }
}

proof fn lemma_larger_shift_halves(n: nat, s: nat, t: nat)
    requires
        s < t,
    ensures
        n / pow2(t) <= (n / pow2(s)) / 2,
{
    let d: nat = (t - s) as nat;
    lemma_pow2_adds(s, d);
    lemma_pow2_pos(s);
    lemma_pow2_pos(d);
    lemma_pow2_unfold(d);
    lemma_pow2_pos((d - 1) as nat);
    vstd::arithmetic::div_mod::lemma_div_denominator(n as int, pow2(s) as int, pow2(d) as int);
    let q: int = n as int / pow2(s) as int;
    vstd::arithmetic::div_mod::lemma_div_pos_is_pos(n as int, pow2(s) as int);
    vstd::arithmetic::div_mod::lemma_div_is_ordered_by_denominator(q, 2, pow2(d) as int);
}

proof fn lemma_pow2_at_most(a: nat, b: nat)
    requires
        a <= b,
    ensures
        pow2(a) <= pow2(b),
{
    if a < b {
        lemma_pow2_strictly_increases(a, b);
    }
}

/// A pattern is determined by the number it denotes.
pub proof fn lemma_denoted_number_is_unique(a: Scalar, b: Scalar, n: nat, k: nat)
    requires
        a.denotes(n, k),
        b.denotes(n, k),
    ensures
        a == b,
{
    if a.exponent() > b.exponent() {
        lemma_larger_exponent_denotes_more(a, b, k);
    } else if b.exponent() > a.exponent() {
        lemma_larger_exponent_denotes_more(b, a, k);
    } else {
        let p = pow2((a.exponent() + k) as nat) as int;
        lemma_pow2_pos((a.exponent() + k) as nat);
        assert(a.significand() == b.significand()) by (nonlinear_arith)
            requires
                a.significand() * p == b.significand() * p,
                p > 0,
        ;
    }
}

/// A pattern denotes one number.
pub proof fn lemma_denotes_one_number(a: Scalar, n: nat, m: nat, k: nat)
    requires
        a.denotes(n, k),
        a.denotes(m, k),
    ensures
        n == m,
{
    let p = pow2(150) as int;
    lemma_pow2_pos(150);
    assert(n == m) by (nonlinear_arith)
        requires
            n * p == m * p,
            p > 0,
    ;
}

proof fn lemma_larger_exponent_denotes_more(a: Scalar, b: Scalar, k: nat)
    requires
        !a.negative(),
        !b.negative(),
        a.exponent() > b.exponent(),
    ensures
        a.significand() * pow2((a.exponent() + k) as nat) > b.significand() * pow2(
            (b.exponent() + k) as nat,
        ),
{
    let lower = (b.exponent() + k) as nat;
    let higher = (a.exponent() + k) as nat;
    lemma_pow2_pos(lower);
    lemma_pow2_unfold((lower + 1) as nat);
    lemma_pow2_at_most((lower + 1) as nat, higher);
    let p = pow2(lower) as int;
    let q = pow2(higher) as int;
    let (s, t) = (a.significand(), b.significand());
    assert(s * q > t * p) by (nonlinear_arith)
        requires
            q >= 2 * p,
            p > 0,
            s >= 0x80_0000,
            0 <= t < 0x100_0000,
    ;
}

/// Only zero denotes zero.
pub proof fn lemma_denotes_zero(a: Scalar, n: nat, k: nat)
    requires
        a.denotes(n, k),
    ensures
        a.magnitude() == 0 <==> n == 0,
{
    let p = pow2((a.exponent() + k) as nat) as int;
    let q = pow2(150) as int;
    lemma_pow2_pos((a.exponent() + k) as nat);
    lemma_pow2_pos(150);
    let s = a.significand();
    assert(s == 0 <==> n == 0) by (nonlinear_arith)
        requires
            s * p == n * q,
            p > 0,
            q > 0,
    ;
}


/// Which of two patterns stands first when all patterns are lined up: what has
/// the sign bit before what has not, patterns without it ascending, patterns
/// with it descending.
pub open spec fn stands_before(a: Scalar, b: Scalar) -> bool {
    if a.bits >= 0x8000_0000 {
        b.bits < 0x8000_0000 || b.bits < a.bits
    } else {
        a.bits < b.bits < 0x8000_0000
    }
}

/// The patterns that are no number: all exponent bits set, and something in the
/// fraction.
pub open spec fn no_number(a: Scalar) -> bool {
    0x7f80_0000 < a.bits < 0x8000_0000 || 0xff80_0000 < a.bits
}

/// Both patterns are a zero.
pub open spec fn both_zero(a: Scalar, b: Scalar) -> bool {
    (a.bits == 0 || a.bits == 0x8000_0000) && (b.bits == 0 || b.bits == 0x8000_0000)
}

/// The position of a pattern lines all patterns up: it ascends from one pattern
/// to the next, and no two patterns share a position.
pub proof fn lemma_total_lines_patterns_up(a: Scalar, b: Scalar)
    ensures
        0 <= a.total() <= 0xffff_ffff,
        a.total() < b.total() <==> stands_before(a, b),
        a.total() == b.total() <==> a.bits == b.bits,
{
}

/// Numbers compare as the line of patterns has them, but for the two zeros,
/// which are equal; what is no number compares with nothing.
pub proof fn lemma_numbers_compare_along_the_line(a: Scalar, b: Scalar)
    ensures
        a.nan() <==> no_number(a),
        a.lt(b) <==> !no_number(a) && !no_number(b) && stands_before(a, b) && !both_zero(a, b),
        a.le(b) <==> !no_number(a) && !no_number(b) && (!stands_before(b, a) || both_zero(a, b)),
{
}

/// The larger of two is one of the two: the other operand where one is no
/// number, and otherwise one that the other is not above.
pub proof fn lemma_the_larger_is_not_below(a: Scalar, b: Scalar)
    ensures
        a.larger(b) == a || a.larger(b) == b,
        no_number(a) ==> a.larger(b) == b,
        no_number(b) && !no_number(a) ==> a.larger(b) == a,
        !no_number(a) && !no_number(b) ==> !stands_before(a.larger(b), a) || both_zero(
            a.larger(b),
            a,
        ),
        !no_number(a) && !no_number(b) ==> !stands_before(a.larger(b), b) || both_zero(
            a.larger(b),
            b,
        ),
{
}

/// Negating changes the sign bit and no other: twice gives the number back, and
/// the line of patterns turns round.
pub proof fn lemma_negating_turns_the_line_round(a: Scalar, b: Scalar)
    ensures
        a.negated().bits == a.bits + 0x8000_0000 || a.negated().bits + 0x8000_0000 == a.bits,
        a.negated().negated() == a,
        stands_before(a, b) <==> stands_before(b.negated(), a.negated()),
{
}

} // verus!
