//! Numbers as the usage log and the rate-limit service write them: IEEE 754
//! doubles, held by their bit pattern.
//!
//! The library orders such numbers, compares them with zero and cuts them down to
//! whole numbers by integer arithmetic on the pattern. To sum or subtract two of
//! them is left to an operation that the caller hands in.
use vstd::arithmetic::power2::pow2;
use vstd::prelude::*;

verus! {

/// The bit pattern of minus zero: the sign bit alone.
pub const SIGN_BIT: u64 = 0x8000_0000_0000_0000;

/// The bit pattern of positive infinity; every larger magnitude is a NaN.
pub const INFINITY_BITS: u64 = 0x7ff0_0000_0000_0000;

/// The bit pattern of -1.0.
pub const MINUS_ONE_BITS: u64 = 0xbff0_0000_0000_0000;

/// The weight of the lowest exponent bit, which is also the implicit leading bit
/// of a normal number's significand.
pub const EXPONENT_UNIT: u64 = 0x0010_0000_0000_0000;

/// A double, by its bit pattern.
#[derive(Debug, Clone, Copy, PartialEq, Eq, Structural)]
pub struct Num {
    pub bits: u64,
}

impl Num {
    /// Plus zero.
    pub open spec fn zero_spec() -> Num {
        Num { bits: 0 }
    }

    /// The bit pattern without its sign.
    pub open spec fn magnitude(self) -> int {
        if self.bits >= SIGN_BIT {
            self.bits - SIGN_BIT
        } else {
            self.bits as int
        }
    }

    pub open spec fn is_negative(self) -> bool {
        self.bits >= SIGN_BIT
    }

    pub open spec fn is_nan_spec(self) -> bool {
        self.magnitude() > INFINITY_BITS
    }

    /// Where the number stands among the numbers. The magnitudes of doubles are
    /// ordered as their patterns are, and the two zeros stand at one place.
    pub open spec fn place(self) -> int {
        if self.is_negative() {
            -self.magnitude()
        } else {
            self.magnitude()
        }
    }

    /// `self > other`; false where either is a NaN.
    pub open spec fn above_spec(self, other: Num) -> bool {
        !self.is_nan_spec() && !other.is_nan_spec() && self.place() > other.place()
    }

    /// `self <= other`; false where either is a NaN.
    pub open spec fn at_most_spec(self, other: Num) -> bool {
        !self.is_nan_spec() && !other.is_nan_spec() && self.place() <= other.place()
    }

    /// `self == 0`, of either sign.
    pub open spec fn is_zero_spec(self) -> bool {
        self.magnitude() == 0
    }

    /// The size of the number with its fraction dropped. A number below one has
    /// an exponent field below 1023; above that the significand, with its
    /// implicit bit, counts units of `2^(exponent - 1075)`.
    pub open spec fn whole_size(self) -> int {
        let exponent = self.magnitude() / (EXPONENT_UNIT as int);
        let significand = self.magnitude() % (EXPONENT_UNIT as int) + EXPONENT_UNIT;
        if exponent < 1023 {
            0
        } else if exponent < 1075 {
            significand / (pow2((1075 - exponent) as nat) as int)
        } else {
            significand * pow2((exponent - 1075) as nat)
        }
    }

    /// The number cut towards zero and held to the range of `i64`; zero for a NaN.
    pub open spec fn whole_spec(self) -> int {
        if self.is_nan_spec() {
            0
        } else if self.is_negative() {
            if -self.whole_size() < i64::MIN {
                i64::MIN as int
            } else {
                -self.whole_size()
            }
        } else if self.whole_size() > i64::MAX {
            i64::MAX as int
        } else {
            self.whole_size()
        }
    }

    pub fn zero() -> (r: Num)
        ensures
            r == Num::zero_spec(),
    {
        Num { bits: 0 }
    }

    pub fn is_nan(self) -> (r: bool)
        ensures
            r == self.is_nan_spec(),
    {
        if self.bits >= SIGN_BIT {
            self.bits - SIGN_BIT > INFINITY_BITS
        } else {
            self.bits > INFINITY_BITS
        }
    }

    /// Whether the number is greater than `other`.
    pub fn above(self, other: Num) -> (r: bool)
        ensures
            r == self.above_spec(other),
    {
        if self.is_nan() || other.is_nan() {
            false
        } else if self.bits < SIGN_BIT {
            if other.bits < SIGN_BIT {
                self.bits > other.bits
            } else {
                self.bits > 0 || other.bits > SIGN_BIT
            }
        } else {
            other.bits > self.bits
        }
    }

    /// Whether the number is `other` or less.
    pub fn at_most(self, other: Num) -> (r: bool)
        ensures
            r == self.at_most_spec(other),
    {
        !self.is_nan() && !other.is_nan() && !self.above(other)
    }

    pub fn is_zero(self) -> (r: bool)
        ensures
            r == self.is_zero_spec(),
    {
        self.bits == 0 || self.bits == SIGN_BIT
    }

    /// The number cut towards zero and held to the range of `i64`; zero for a NaN.
    pub fn whole(self) -> (r: i64)
        ensures
            r == self.whole_spec(),
    {
        if self.is_nan() {
            return 0;
        }
        let negative = self.bits >= SIGN_BIT;
        let magnitude: u64 = if negative {
            self.bits - SIGN_BIT
        } else {
            self.bits
        };
        let exponent: u64 = magnitude / EXPONENT_UNIT;
        let significand: u64 = magnitude % EXPONENT_UNIT + EXPONENT_UNIT;
        if exponent >= 1086 {
            proof {
                lemma_size_beyond_range(significand as int, (exponent - 1075) as nat);
            }
            return if negative {
                i64::MIN
            } else {
                i64::MAX
            };
        }
        let size: u64 = if exponent < 1023 {
            0
        } else if exponent < 1075 {
            proof {
                vstd::bits::lemma_u64_shr_is_div(significand, (1075 - exponent) as u64);
                vstd::arithmetic::power2::lemma_pow2_pos((1075 - exponent) as nat);
                vstd::arithmetic::div_mod::lemma_div_is_ordered_by_denominator(
                    significand as int,
                    1,
                    pow2((1075 - exponent) as nat) as int,
                );
            }
            significand >> (1075 - exponent)
        } else {
            proof {
                lemma_size_within_range(significand as int, (exponent - 1075) as nat);
                vstd::bits::lemma_u64_shl_is_mul(significand, (exponent - 1075) as u64);
            }
            significand << (exponent - 1075)
        };
        if negative {
            -(size as i64)
        } else {
            size as i64
        }
    }
}

/// A significand shifted by eleven places or more leaves the range of `i64`.
proof fn lemma_size_beyond_range(significand: int, shift: nat)
    requires
        significand >= EXPONENT_UNIT,
        shift >= 11,
    ensures
        significand * pow2(shift) > i64::MAX,
{
    vstd::arithmetic::power2::lemma2_to64();
    if shift > 11 {
        vstd::arithmetic::power2::lemma_pow2_strictly_increases(11, shift);
    }
    assert(significand * pow2(shift) >= EXPONENT_UNIT * 2048) by (nonlinear_arith)
        requires
            significand >= EXPONENT_UNIT,
            pow2(shift) >= 2048,
    ;
}

/// A significand shifted by ten places or fewer stays in the range of `i64`.
proof fn lemma_size_within_range(significand: int, shift: nat)
    requires
        0 <= significand < 2 * EXPONENT_UNIT,
        shift <= 10,
    ensures
        0 <= significand * pow2(shift) <= i64::MAX,
{
    vstd::arithmetic::power2::lemma2_to64();
    if shift < 10 {
        vstd::arithmetic::power2::lemma_pow2_strictly_increases(shift, 10);
    }
    assert(0 <= significand * pow2(shift) <= (2 * EXPONENT_UNIT - 1) * 1024) by (nonlinear_arith)
        requires
            0 <= significand < 2 * EXPONENT_UNIT,
            pow2(shift) <= 1024,
    ;
}

/// Whether `op` is an operation on numbers: it takes every pair, and gives the same
/// pair the same result.
pub open spec fn is_operation<F: Fn(Num, Num) -> Num>(op: F) -> bool {
    &&& forall|a: Num, b: Num| call_requires(op, (a, b))
    &&& forall|a: Num, b: Num, r: Num, s: Num|
        call_ensures(op, (a, b), r) && call_ensures(op, (a, b), s) ==> r == s
}

/// What `op` gives for a pair.
pub open spec fn apply<F: Fn(Num, Num) -> Num>(op: F, a: Num, b: Num) -> Num {
    choose|r: Num| call_ensures(op, (a, b), r)
}

/// What `op` does, as a function.
pub open spec fn meaning<F: Fn(Num, Num) -> Num>(op: F) -> spec_fn(Num, Num) -> Num {
    |a: Num, b: Num| apply(op, a, b)
}

/// The terms added up one after the other, from zero.
pub open spec fn total(add_op: spec_fn(Num, Num) -> Num, terms: Seq<Num>) -> Num
    decreases terms.len(),
{
    if terms.len() == 0 {
        Num::zero_spec()
    } else {
        add_op(total(add_op, terms.drop_last()), terms.last())
    }
}

/// Whether `top` is the highest of `values`, or zero where none is above zero.
pub open spec fn is_highest(top: Num, values: Seq<Num>) -> bool {
    &&& forall|i: int| 0 <= i < values.len() ==> !(#[trigger] values[i]).above_spec(top)
    &&& top == Num::zero_spec() || (top.above_spec(Num::zero_spec()) && values.contains(top))
}

/// The higher of two numbers; `top` where neither is.
pub open spec fn higher(top: Num, value: Num) -> Num {
    if value.above_spec(top) {
        value
    } else {
        top
    }
}

/// The higher of two numbers; `top` where neither is.
pub fn raise(top: Num, value: Num) -> (r: Num)
    ensures
        r == higher(top, value),
{
    if value.above(top) {
        value
    } else {
        top
    }
}

/// The highest value, when one more is there.
pub proof fn highest_with_one_more(top: Num, values: Seq<Num>, value: Num)
    requires
        is_highest(top, values),
    ensures
        is_highest(higher(top, value), values.push(value)),
{
    let more = values.push(value);
    assert(more.last() == value);
    if top != Num::zero_spec() {
        let i = choose|i: int| 0 <= i < values.len() && values[i] == top;
        assert(more[i] == top);
    }
    assert forall|i: int| 0 <= i < more.len() implies !(#[trigger] more[i]).above_spec(
        higher(top, value),
    ) by {
        if i < values.len() {
            assert(more[i] == values[i]);
        }
    }
}

/// There is only one highest value.
pub proof fn highest_is_unique(a: Num, b: Num, values: Seq<Num>)
    requires
        is_highest(a, values),
        is_highest(b, values),
    ensures
        a == b,
{
    if a != Num::zero_spec() {
        let i = choose|i: int| 0 <= i < values.len() && values[i] == a;
        assert(!values[i].above_spec(b));
    }
    if b != Num::zero_spec() {
        let i = choose|i: int| 0 <= i < values.len() && values[i] == b;
        assert(!values[i].above_spec(a));
    }
}

/// A sum with one more term is the sum so far plus that term.
pub proof fn lemma_total_push(add_op: spec_fn(Num, Num) -> Num, terms: Seq<Num>, term: Num)
    ensures
        total(add_op, terms.push(term)) == add_op(total(add_op, terms), term),
{
    assert(terms.push(term).drop_last() =~= terms);
}

/// Numbers are ordered by their bit patterns: those without a sign ascend with these, those
/// with one descend, and all with one are below all without, but for the two zeros. What is
/// no number is neither above nor at most another.
pub proof fn order_follows_bit_patterns(a: Num, b: Num)
    ensures
        ({
            let sign = 0x8000_0000_0000_0000int;
            let a_is_nan = 0x7ff0_0000_0000_0000 < a.bits < sign || a.bits > 0xfff0_0000_0000_0000;
            let b_is_nan = 0x7ff0_0000_0000_0000 < b.bits < sign || b.bits > 0xfff0_0000_0000_0000;
            &&& a.is_nan_spec() == a_is_nan
            &&& a_is_nan || b_is_nan ==> !a.above_spec(b) && !a.at_most_spec(b)
            &&& !a_is_nan && !b_is_nan ==> {
                &&& a.at_most_spec(b) == !a.above_spec(b)
                &&& a.bits < sign && b.bits < sign ==> a.above_spec(b) == (a.bits > b.bits)
                &&& a.bits >= sign && b.bits >= sign ==> a.above_spec(b) == (a.bits < b.bits)
                &&& a.bits < sign && b.bits >= sign ==> a.above_spec(b) == !(a.bits == 0 && b.bits
                    == sign)
                &&& a.bits >= sign && b.bits < sign ==> !a.above_spec(b)
            }
            &&& a.is_zero_spec() == (a.bits == 0 || a.bits == sign)
            &&& !a_is_nan && !b_is_nan ==> ((a.place() == b.place()) == (a.at_most_spec(b)
                && b.at_most_spec(a))) && ((a.place() > b.place()) == a.above_spec(b))
        }),
{
}

/// A number is cut to the whole number that is next to it towards zero. Its significand, with
/// the leading bit, is `2^52 + fraction`, in units of two to the power of `exponent - 1075`.
/// What is beyond the range of whole numbers is cut to the end of it, and what is no number
/// to zero.
pub proof fn whole_numbers_are_cut_towards_zero(n: Num, exponent: int, fraction: int)
    requires
        0 <= exponent <= 2047,
        0 <= fraction < 0x0010_0000_0000_0000,
        n.bits == exponent * 0x0010_0000_0000_0000 + fraction,
    ensures
        ({
            let w = n.whole_spec();
            let negative = Num { bits: (n.bits + 0x8000_0000_0000_0000) as u64 }.whole_spec();
            let significand = 0x0010_0000_0000_0000 + fraction;
            &&& exponent < 1023 ==> w == 0
            &&& 1023 <= exponent < 1075 ==> w * pow2((1075 - exponent) as nat) <= significand < (w
                + 1) * pow2((1075 - exponent) as nat)
            &&& 1075 <= exponent < 1086 ==> w == significand * pow2((exponent - 1075) as nat)
            &&& 1086 <= exponent < 2047 || (exponent == 2047 && fraction == 0) ==> w
                == 0x7fff_ffff_ffff_ffff && negative == -0x8000_0000_0000_0000
            &&& exponent == 2047 && fraction > 0 ==> w == 0 && negative == 0
            &&& exponent < 1086 ==> negative == -w
        }),
{
    let unit = 0x0010_0000_0000_0000int;
    assert(n.bits < 0x8000_0000_0000_0000);
    assert(n.magnitude() == n.bits);
    assert(n.magnitude() / unit == exponent);
    assert(n.magnitude() % unit == fraction);
    let other = Num { bits: (n.bits + 0x8000_0000_0000_0000) as u64 };
    assert(other.magnitude() == n.magnitude());
    assert(other.whole_size() == n.whole_size());
    let significand = unit + fraction;
    if 1023 <= exponent < 1075 {
        let p = pow2((1075 - exponent) as nat) as int;
        vstd::arithmetic::power2::lemma_pow2_pos((1075 - exponent) as nat);
        vstd::arithmetic::div_mod::lemma_fundamental_div_mod(significand, p);
        vstd::arithmetic::div_mod::lemma_mod_bound(significand, p);
        vstd::arithmetic::div_mod::lemma_div_is_ordered_by_denominator(significand, 1, p);
        vstd::arithmetic::div_mod::lemma_div_pos_is_pos(significand, p);
        let w = significand / p;
        assert(w * p <= significand < (w + 1) * p) by (nonlinear_arith)
            requires
                significand == p * w + significand % p,
                0 <= significand % p < p,
        ;
    } else if 1075 <= exponent < 1086 {
        lemma_size_within_range(significand, (exponent - 1075) as nat);
    } else if 1086 <= exponent {
        lemma_size_beyond_range(significand, (exponent - 1075) as nat);
        lemma_size_far_beyond_range(significand, (exponent - 1075) as nat);
    }
}

/// A significand shifted by eleven places or more reaches the lower end of `i64`.
proof fn lemma_size_far_beyond_range(significand: int, shift: nat)
    requires
        significand >= EXPONENT_UNIT,
        shift >= 11,
    ensures
        -(significand * pow2(shift)) <= i64::MIN,
{
    lemma_size_beyond_range(significand, shift);
}

} // verus!
