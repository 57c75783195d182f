//! The element contract that sparse storage and its kernels compute with.
//!
//! Every operation carries a mathematical model (`zero_value`, `plus`,
//! `times`, `magnitude`, `at_most`) and a definedness predicate (`can_add`,
//! `can_mul`, `can_abs`) that rules out overflow, so that callers can state
//! exactly which value a kernel produces.
use vstd::prelude::*;

verus! {

/// Scalar element type used by the sparse containers.
pub trait Scalar: Copy + Sized {
    /// The additive identity.
    spec fn zero_value() -> Self;

    /// The sum `self + other` as the element type computes it.
    spec fn plus(self, other: Self) -> Self;

    /// Whether `self + other` is representable.
    spec fn can_add(self, other: Self) -> bool;

    /// The difference `self - other` as the element type computes it.
    spec fn minus(self, other: Self) -> Self;

    /// Whether `self - other` is representable.
    spec fn can_sub(self, other: Self) -> bool;

    /// The product `self * other` as the element type computes it.
    spec fn times(self, other: Self) -> Self;

    /// Whether `self * other` is representable.
    spec fn can_mul(self, other: Self) -> bool;

    /// The absolute value of `self`.
    spec fn magnitude(self) -> Self;

    /// Whether the absolute value of `self` is representable.
    spec fn can_abs(self) -> bool;

    /// The order `self <= other`.
    spec fn at_most(self, other: Self) -> bool;

    /// The multiplicative identity.
    spec fn one_value() -> Self;

    /// The greatest value of the type.
    spec fn highest() -> Self;

    /// The least value of the type.
    spec fn lowest() -> Self;

    /// The quotient `self / other` as the element type computes it.
    spec fn quotient(self, other: Self) -> Self;

    /// Whether `self / other` is defined and representable.
    spec fn can_div(self, other: Self) -> bool;

    /// The count `n` converted to the element type.
    spec fn from_index(n: usize) -> Self;

    /// Adding to zero is exact.
    proof fn lemma_zero_plus(x: Self)
        ensures
            Self::zero_value().can_add(x),
            Self::zero_value().plus(x) == x,
    ;

    /// Adding zero is exact.
    proof fn lemma_plus_zero(x: Self)
        ensures
            x.can_add(Self::zero_value()),
            x.plus(Self::zero_value()) == x,
    ;

    /// Zero times anything is zero.
    proof fn lemma_zero_times(x: Self)
        ensures
            Self::zero_value().can_mul(x),
            Self::zero_value().times(x) == Self::zero_value(),
    ;

    /// Anything times zero is zero.
    proof fn lemma_times_zero(x: Self)
        ensures
            x.can_mul(Self::zero_value()),
            x.times(Self::zero_value()) == Self::zero_value(),
    ;

    /// The mathematical integer the element stands for.
    spec fn as_int(self) -> int;

    /// Zero stands for the integer zero.
    proof fn lemma_zero_int()
        ensures
            Self::zero_value().as_int() == 0,
    ;

    /// A representable sum is the sum of the integers.
    proof fn lemma_plus_exact(x: Self, y: Self)
        requires
            x.can_add(y),
        ensures
            x.plus(y).as_int() == x.as_int() + y.as_int(),
    ;

    /// A representable product is the product of the integers.
    proof fn lemma_times_exact(x: Self, y: Self)
        requires
            x.can_mul(y),
        ensures
            x.times(y).as_int() == x.as_int() * y.as_int(),
    ;

    /// The order of elements is the order of the integers they stand for.
    proof fn lemma_at_most_exact(x: Self, y: Self)
        ensures
            x.at_most(y) == (x.as_int() <= y.as_int()),
    ;

    /// Distinct elements stand for distinct integers.
    proof fn lemma_as_int_injective(x: Self, y: Self)
        ensures
            x.as_int() == y.as_int() ==> x == y,
    ;

    /// Every element lies between the least and the greatest value.
    proof fn lemma_bounds(x: Self)
        ensures
            Self::lowest().as_int() <= x.as_int() <= Self::highest().as_int(),
    ;

    /// A representable absolute value stands for the absolute value of the
    /// integer.
    proof fn lemma_magnitude_exact(x: Self)
        requires
            x.can_abs(),
        ensures
            x.magnitude().as_int() == (if x.as_int() < 0 {
                -x.as_int()
            } else {
                x.as_int()
            }),
    ;

    /// The exclusive or of two elements is zero exactly when they are equal.
    proof fn lemma_xor_zero(x: Self, y: Self)
        ensures
            (x.xor(y) == Self::zero_value()) == (x == y),
    ;

    /// The number of bits of the type.
    spec fn bit_width() -> nat;

    /// An element has at most one one bit per bit of the type, and the
    /// exclusive or of the least and the greatest value, which has every bit
    /// set, has exactly one per bit.
    proof fn lemma_ones_bounds(x: Self)
        ensures
            x.ones() <= Self::bit_width(),
            Self::lowest().xor(Self::highest()).ones() == Self::bit_width(),
    ;

    /// An element has no one bit, over its full width, exactly when it is
    /// zero.
    proof fn lemma_ones_zero(x: Self)
        ensures
            (x.ones() == 0) == (x == Self::zero_value()),
    ;

    /// The additive identity.
    fn zero() -> (r: Self)
        ensures
            r == Self::zero_value(),
    ;

    /// The multiplicative identity.
    fn one() -> (r: Self)
        ensures
            r == Self::one_value(),
    ;

    /// The greatest value of the type.
    fn max_value() -> (r: Self)
        ensures
            r == Self::highest(),
    ;

    /// The least value of the type.
    fn min_value() -> (r: Self)
        ensures
            r == Self::lowest(),
    ;

    /// Scalar division.
    fn div(self, other: Self) -> (r: Self)
        requires
            self.can_div(other),
        ensures
            r == self.quotient(other),
    ;

    /// Converts a count to the element type (an `as` cast).
    fn from_usize(n: usize) -> (r: Self)
        ensures
            r == Self::from_index(n),
    ;

    /// Scalar addition.
    fn add(self, other: Self) -> (r: Self)
        requires
            self.can_add(other),
        ensures
            r == self.plus(other),
    ;

    /// Scalar subtraction.
    fn sub(self, other: Self) -> (r: Self)
        requires
            self.can_sub(other),
        ensures
            r == self.minus(other),
    ;

    /// Scalar multiplication.
    fn mul(self, other: Self) -> (r: Self)
        requires
            self.can_mul(other),
        ensures
            r == self.times(other),
    ;

    /// Absolute value.
    fn abs(self) -> (r: Self)
        requires
            self.can_abs(),
        ensures
            r == self.magnitude(),
    ;

    /// Whether `self <= other`.
    fn le(self, other: Self) -> (r: bool)
        ensures
            r == self.at_most(other),
    ;

    /// Whether `self` equals the additive identity.
    fn is_zero(self) -> (r: bool)
        ensures
            r == (self == Self::zero_value()),
    ;

    /// The bitwise exclusive or of the two's-complement representations.
    spec fn xor(self, other: Self) -> Self;

    /// The bitwise and of the two's-complement representations.
    spec fn and_bits(self, other: Self) -> Self;

    /// The bitwise or of the two's-complement representations.
    spec fn or_bits(self, other: Self) -> Self;

    /// The number of one bits of the two's-complement representation.
    spec fn ones(self) -> nat;

    /// Bitwise exclusive or.
    fn bitxor(self, other: Self) -> (r: Self)
        ensures
            r == self.xor(other),
    ;

    /// Bitwise and.
    fn bitand(self, other: Self) -> (r: Self)
        ensures
            r == self.and_bits(other),
    ;

    /// Bitwise or.
    fn bitor(self, other: Self) -> (r: Self)
        ensures
            r == self.or_bits(other),
    ;

    /// The number of one bits.
    fn count_ones(self) -> (r: u32)
        ensures
            r == self.ones(),
    ;
}

/// The number of one bits among the lowest `n` bits of `x`.
pub open spec fn low_ones(x: u64, n: nat) -> nat
    decreases n,
{
    if n == 0 {
        0
    } else {
        low_ones(x, (n - 1) as nat) + ((x >> ((n - 1) as u64)) & 1u64) as nat
    }
}

/// The number of one bits among the lowest `width` bits of `x`, bit by bit.
pub fn count_low_ones(x: u64, width: u64) -> (r: u32)
    requires
        width <= 64,
    ensures
        r == low_ones(x, width as nat),
{
    let mut c: u32 = 0;
    for i in 0..width
        invariant
            width <= 64,
            c == low_ones(x, i as nat),
            c <= i,
    {
        let bit = (x >> i) & 1u64;
        assert(bit <= 1) by (bit_vector)
            requires
                bit == (x >> i) & 1u64,
        ;
        c = c + bit as u32;
    }
    c
}

proof fn lemma_low_ones_of_zero(n: nat)
    ensures
        low_ones(0u64, n) == 0,
    decreases n,
{
    if n > 0 {
        lemma_low_ones_of_zero((n - 1) as nat);
        let m = (n - 1) as u64;
        assert(((0u64 >> m) & 1u64) == 0u64) by (bit_vector);
    }
}

proof fn lemma_low_ones_counts_bit(x: u64, n: nat, i: u64)
    requires
        (i as nat) < n,
    ensures
        low_ones(x, n) >= ((x >> i) & 1u64),
    decreases n,
{
    if (i as nat) < (n - 1) as nat {
        lemma_low_ones_counts_bit(x, (n - 1) as nat, i);
    }
}

proof fn lemma_some_bit_set(x: u64, n: u64)
    requires
        n <= 64,
        x != 0,
        (x >> n) == 0u64,
    ensures
        exists|i: u64| i < n && #[trigger] ((x >> i) & 1u64) == 1u64,
    decreases n,
{
    if n == 0 {
        assert((x >> 0u64) == x) by (bit_vector);
    } else {
        let m = (n - 1) as u64;
        if ((x >> m) & 1u64) == 1u64 {
            assert(m < n && ((x >> m) & 1u64) == 1u64);
        } else {
            assert(((x >> m) & 1u64) == 0u64) by (bit_vector)
                requires
                    ((x >> m) & 1u64) != 1u64,
            ;
            assert((x >> m) == 0u64) by (bit_vector)
                requires
                    (x >> n) == 0u64,
                    ((x >> m) & 1u64) == 0u64,
                    m + 1 == n,
                    n <= 64,
            ;
            lemma_some_bit_set(x, m);
        }
    }
}


proof fn lemma_low_ones_at_most(x: u64, n: nat)
    ensures
        low_ones(x, n) <= n,
    decreases n,
{
    if n > 0 {
        lemma_low_ones_at_most(x, (n - 1) as nat);
        let m = (n - 1) as u64;
        assert(((x >> m) & 1u64) <= 1u64) by (bit_vector);
    }
}

proof fn lemma_low_ones_full(x: u64, n: u64)
    requires
        forall|i: u64| i < n ==> #[trigger] ((x >> i) & 1u64) == 1u64,
    ensures
        low_ones(x, n as nat) == n,
    decreases n,
{
    if n > 0 {
        lemma_low_ones_full(x, (n - 1) as u64);
        assert(((x >> ((n - 1) as u64)) & 1u64) == 1u64);
    }
}

/// A non-zero value below `2^n` has a one bit among its lowest `n` bits.
proof fn lemma_low_ones_positive(x: u64, n: u64)
    requires
        n <= 64,
        x != 0,
        (x >> n) == 0u64,
    ensures
        low_ones(x, n as nat) > 0,
{
    lemma_some_bit_set(x, n);
    let i = choose|i: u64| i < n && #[trigger] ((x >> i) & 1u64) == 1u64;
    lemma_low_ones_counts_bit(x, n as nat, i);
}

impl Scalar for i64 {
    open spec fn highest() -> Self {
        i64::MAX
    }

    open spec fn lowest() -> Self {
        i64::MIN
    }

    fn max_value() -> (r: Self) {
        i64::MAX
    }

    fn min_value() -> (r: Self) {
        i64::MIN
    }

    open spec fn minus(self, other: Self) -> Self {
        (self - other) as i64
    }

    open spec fn can_sub(self, other: Self) -> bool {
        i64::MIN <= self - other <= i64::MAX
    }

    fn sub(self, other: Self) -> (r: Self) {
        self - other
    }

    open spec fn zero_value() -> Self {
        0
    }

    proof fn lemma_zero_plus(x: Self) {
    }

    proof fn lemma_plus_zero(x: Self) {
    }

    proof fn lemma_zero_times(x: Self) {
    }

    proof fn lemma_times_zero(x: Self) {
    }

    open spec fn as_int(self) -> int {
        self as int
    }

    proof fn lemma_zero_int() {
    }

    proof fn lemma_plus_exact(x: Self, y: Self) {
    }

    proof fn lemma_times_exact(x: Self, y: Self) {
    }

    
    open spec fn one_value() -> Self {
        1
    }

    open spec fn quotient(self, other: Self) -> Self {
        match self.checked_div(other) {
            Some(q) => q,
            None => 0,
        }
    }

    open spec fn can_div(self, other: Self) -> bool {
        self.checked_div(other) is Some
    }

    open spec fn from_index(n: usize) -> Self {
        n as i64
    }

    fn one() -> (r: Self) {
        1
    }

    fn div(self, other: Self) -> (r: Self) {
        self.checked_div(other).unwrap()
    }

    fn from_usize(n: usize) -> (r: Self) {
        n as i64
    }

    open spec fn plus(self, other: Self) -> Self {
        (self + other) as i64
    }

    open spec fn can_add(self, other: Self) -> bool {
        i64::MIN <= self + other <= i64::MAX
    }

    open spec fn times(self, other: Self) -> Self {
        (self * other) as i64
    }

    open spec fn can_mul(self, other: Self) -> bool {
        i64::MIN <= self * other <= i64::MAX
    }

    open spec fn magnitude(self) -> Self {
        if self < 0 {
            (-self) as i64
        } else {
            self
        }
    }

    open spec fn can_abs(self) -> bool {
        self != i64::MIN
    }

    open spec fn at_most(self, other: Self) -> bool {
        self <= other
    }

    fn zero() -> (r: Self) {
        0
    }

    fn add(self, other: Self) -> (r: Self) {
        self + other
    }

    fn mul(self, other: Self) -> (r: Self) {
        self * other
    }

    fn abs(self) -> (r: Self) {
        if self < 0 {
            -self
        } else {
            self
        }
    }

    fn le(self, other: Self) -> (r: bool) {
        self <= other
    }

    fn is_zero(self) -> (r: bool) {
        self == 0
    }

    open spec fn xor(self, other: Self) -> Self {
        self ^ other
    }

    open spec fn and_bits(self, other: Self) -> Self {
        self & other
    }

    open spec fn or_bits(self, other: Self) -> Self {
        self | other
    }

    fn bitand(self, other: Self) -> (r: Self) {
        self & other
    }

    fn bitor(self, other: Self) -> (r: Self) {
        self | other
    }

    open spec fn ones(self) -> nat {
        low_ones(self as u64, 64)
    }

    fn bitxor(self, other: Self) -> (r: Self) {
        self ^ other
    }

    fn count_ones(self) -> (r: u32) {
        count_low_ones(self as u64, 64)
    }

    proof fn lemma_at_most_exact(x: Self, y: Self) {
    }

    proof fn lemma_as_int_injective(x: Self, y: Self) {
    }

    proof fn lemma_bounds(x: Self) {
    }

    proof fn lemma_magnitude_exact(x: Self) {
    }

    proof fn lemma_xor_zero(x: Self, y: Self) {
        assert((x ^ y == 0) == (x == y)) by (bit_vector);
    }

    proof fn lemma_ones_zero(x: Self) {
        let y: u64 = x as u64;
        assert((x == 0 ==> y == 0u64) && (x != 0 ==> y != 0u64 && (y >> 64u64) == 0u64)) by (bit_vector)
            requires
                y == x as u64,
        ;
        if x == 0 {
            lemma_low_ones_of_zero(64);
        } else {
            lemma_low_ones_positive(y, 64u64);
        }
    }

    open spec fn bit_width() -> nat {
        64
    }

    proof fn lemma_ones_bounds(x: Self) {
        lemma_low_ones_at_most(x as u64, 64);
        let z: u64 = (i64::MIN ^ i64::MAX) as u64;
        assert forall|i: u64| i < 64u64 implies #[trigger] ((z >> i) & 1u64) == 1u64 by {
            assert(((z >> i) & 1u64) == 1u64) by (bit_vector)
                requires
                    i < 64u64,
                    z == (i64::MIN ^ i64::MAX) as u64,
            ;
        }
        lemma_low_ones_full(z, 64u64);
    }
}

impl Scalar for i32 {
    open spec fn highest() -> Self {
        i32::MAX
    }

    open spec fn lowest() -> Self {
        i32::MIN
    }

    fn max_value() -> (r: Self) {
        i32::MAX
    }

    fn min_value() -> (r: Self) {
        i32::MIN
    }

    open spec fn minus(self, other: Self) -> Self {
        (self - other) as i32
    }

    open spec fn can_sub(self, other: Self) -> bool {
        i32::MIN <= self - other <= i32::MAX
    }

    fn sub(self, other: Self) -> (r: Self) {
        self - other
    }

    open spec fn zero_value() -> Self {
        0
    }

    proof fn lemma_zero_plus(x: Self) {
    }

    proof fn lemma_plus_zero(x: Self) {
    }

    proof fn lemma_zero_times(x: Self) {
    }

    proof fn lemma_times_zero(x: Self) {
    }

    open spec fn as_int(self) -> int {
        self as int
    }

    proof fn lemma_zero_int() {
    }

    proof fn lemma_plus_exact(x: Self, y: Self) {
    }

    proof fn lemma_times_exact(x: Self, y: Self) {
    }

    open spec fn one_value() -> Self {
        1
    }

    open spec fn quotient(self, other: Self) -> Self {
        match self.checked_div(other) {
            Some(q) => q,
            None => 0,
        }
    }

    open spec fn can_div(self, other: Self) -> bool {
        self.checked_div(other) is Some
    }

    open spec fn from_index(n: usize) -> Self {
        n as i32
    }

    fn one() -> (r: Self) {
        1
    }

    fn div(self, other: Self) -> (r: Self) {
        self.checked_div(other).unwrap()
    }

    fn from_usize(n: usize) -> (r: Self) {
        n as i32
    }

    open spec fn plus(self, other: Self) -> Self {
        (self + other) as i32
    }

    open spec fn can_add(self, other: Self) -> bool {
        i32::MIN <= self + other <= i32::MAX
    }

    open spec fn times(self, other: Self) -> Self {
        (self * other) as i32
    }

    open spec fn can_mul(self, other: Self) -> bool {
        i32::MIN <= self * other <= i32::MAX
    }

    open spec fn magnitude(self) -> Self {
        if self < 0 {
            (-self) as i32
        } else {
            self
        }
    }

    open spec fn can_abs(self) -> bool {
        self != i32::MIN
    }

    open spec fn at_most(self, other: Self) -> bool {
        self <= other
    }

    fn zero() -> (r: Self) {
        0
    }

    fn add(self, other: Self) -> (r: Self) {
        self + other
    }

    fn mul(self, other: Self) -> (r: Self) {
        self * other
    }

    fn abs(self) -> (r: Self) {
        if self < 0 {
            -self
        } else {
            self
        }
    }

    fn le(self, other: Self) -> (r: bool) {
        self <= other
    }

    fn is_zero(self) -> (r: bool) {
        self == 0
    }

    open spec fn xor(self, other: Self) -> Self {
        self ^ other
    }

    open spec fn and_bits(self, other: Self) -> Self {
        self & other
    }

    open spec fn or_bits(self, other: Self) -> Self {
        self | other
    }

    fn bitand(self, other: Self) -> (r: Self) {
        self & other
    }

    fn bitor(self, other: Self) -> (r: Self) {
        self | other
    }

    open spec fn ones(self) -> nat {
        low_ones((self as u32) as u64, 32)
    }

    fn bitxor(self, other: Self) -> (r: Self) {
        self ^ other
    }

    fn count_ones(self) -> (r: u32) {
        count_low_ones((self as u32) as u64, 32)
    }

    proof fn lemma_at_most_exact(x: Self, y: Self) {
    }

    proof fn lemma_as_int_injective(x: Self, y: Self) {
    }

    proof fn lemma_bounds(x: Self) {
    }

    proof fn lemma_magnitude_exact(x: Self) {
    }

    proof fn lemma_xor_zero(x: Self, y: Self) {
        assert((x ^ y == 0) == (x == y)) by (bit_vector);
    }

    proof fn lemma_ones_zero(x: Self) {
        let y: u64 = (x as u32) as u64;
        assert((x == 0 ==> y == 0u64) && (x != 0 ==> y != 0u64 && (y >> 32u64) == 0u64)) by (bit_vector)
            requires
                y == (x as u32) as u64,
        ;
        if x == 0 {
            lemma_low_ones_of_zero(32);
        } else {
            lemma_low_ones_positive(y, 32u64);
        }
    }

    open spec fn bit_width() -> nat {
        32
    }

    proof fn lemma_ones_bounds(x: Self) {
        lemma_low_ones_at_most((x as u32) as u64, 32);
        let z: u64 = ((i32::MIN ^ i32::MAX) as u32) as u64;
        assert forall|i: u64| i < 32u64 implies #[trigger] ((z >> i) & 1u64) == 1u64 by {
            assert(((z >> i) & 1u64) == 1u64) by (bit_vector)
                requires
                    i < 32u64,
                    z == ((i32::MIN ^ i32::MAX) as u32) as u64,
            ;
        }
        lemma_low_ones_full(z, 32u64);
    }
}

impl Scalar for u64 {
    open spec fn highest() -> Self {
        u64::MAX
    }

    open spec fn lowest() -> Self {
        0
    }

    fn max_value() -> (r: Self) {
        u64::MAX
    }

    fn min_value() -> (r: Self) {
        0
    }

    open spec fn minus(self, other: Self) -> Self {
        (self - other) as u64
    }

    open spec fn can_sub(self, other: Self) -> bool {
        0 <= self - other <= u64::MAX
    }

    fn sub(self, other: Self) -> (r: Self) {
        self - other
    }

    open spec fn zero_value() -> Self {
        0
    }

    proof fn lemma_zero_plus(x: Self) {
    }

    proof fn lemma_plus_zero(x: Self) {
    }

    proof fn lemma_zero_times(x: Self) {
    }

    proof fn lemma_times_zero(x: Self) {
    }

    open spec fn as_int(self) -> int {
        self as int
    }

    proof fn lemma_zero_int() {
    }

    proof fn lemma_plus_exact(x: Self, y: Self) {
    }

    proof fn lemma_times_exact(x: Self, y: Self) {
    }

    open spec fn one_value() -> Self {
        1
    }

    open spec fn quotient(self, other: Self) -> Self {
        self / other
    }

    open spec fn can_div(self, other: Self) -> bool {
        other != 0
    }

    open spec fn from_index(n: usize) -> Self {
        n as u64
    }

    fn one() -> (r: Self) {
        1
    }

    fn div(self, other: Self) -> (r: Self) {
        self / other
    }

    fn from_usize(n: usize) -> (r: Self) {
        n as u64
    }

    open spec fn plus(self, other: Self) -> Self {
        (self + other) as u64
    }

    open spec fn can_add(self, other: Self) -> bool {
        self + other <= u64::MAX
    }

    open spec fn times(self, other: Self) -> Self {
        (self * other) as u64
    }

    open spec fn can_mul(self, other: Self) -> bool {
        self * other <= u64::MAX
    }

    open spec fn magnitude(self) -> Self {
        self
    }

    open spec fn can_abs(self) -> bool {
        true
    }

    open spec fn at_most(self, other: Self) -> bool {
        self <= other
    }

    fn zero() -> (r: Self) {
        0
    }

    fn add(self, other: Self) -> (r: Self) {
        self + other
    }

    fn mul(self, other: Self) -> (r: Self) {
        self * other
    }

    fn abs(self) -> (r: Self) {
        self
    }

    fn le(self, other: Self) -> (r: bool) {
        self <= other
    }

    fn is_zero(self) -> (r: bool) {
        self == 0
    }

    open spec fn xor(self, other: Self) -> Self {
        self ^ other
    }

    open spec fn and_bits(self, other: Self) -> Self {
        self & other
    }

    open spec fn or_bits(self, other: Self) -> Self {
        self | other
    }

    fn bitand(self, other: Self) -> (r: Self) {
        self & other
    }

    fn bitor(self, other: Self) -> (r: Self) {
        self | other
    }

    open spec fn ones(self) -> nat {
        low_ones(self, 64)
    }

    fn bitxor(self, other: Self) -> (r: Self) {
        self ^ other
    }

    fn count_ones(self) -> (r: u32) {
        count_low_ones(self, 64)
    }

    proof fn lemma_at_most_exact(x: Self, y: Self) {
    }

    proof fn lemma_as_int_injective(x: Self, y: Self) {
    }

    proof fn lemma_bounds(x: Self) {
    }

    proof fn lemma_magnitude_exact(x: Self) {
    }

    proof fn lemma_xor_zero(x: Self, y: Self) {
        assert((x ^ y == 0) == (x == y)) by (bit_vector);
    }

    proof fn lemma_ones_zero(x: Self) {
        let y: u64 = x;
        assert((x == 0 ==> y == 0u64) && (x != 0 ==> y != 0u64 && (y >> 64u64) == 0u64)) by (bit_vector)
            requires
                y == x,
        ;
        if x == 0 {
            lemma_low_ones_of_zero(64);
        } else {
            lemma_low_ones_positive(y, 64u64);
        }
    }

    open spec fn bit_width() -> nat {
        64
    }

    proof fn lemma_ones_bounds(x: Self) {
        lemma_low_ones_at_most(x, 64);
        let z: u64 = (u64::MIN ^ u64::MAX);
        assert forall|i: u64| i < 64u64 implies #[trigger] ((z >> i) & 1u64) == 1u64 by {
            assert(((z >> i) & 1u64) == 1u64) by (bit_vector)
                requires
                    i < 64u64,
                    z == (u64::MIN ^ u64::MAX),
            ;
        }
        lemma_low_ones_full(z, 64u64);
    }
}

impl Scalar for i8 {
    open spec fn highest() -> Self {
        i8::MAX
    }

    open spec fn lowest() -> Self {
        i8::MIN
    }

    fn max_value() -> (r: Self) {
        i8::MAX
    }

    fn min_value() -> (r: Self) {
        i8::MIN
    }

    open spec fn minus(self, other: Self) -> Self {
        (self - other) as i8
    }

    open spec fn can_sub(self, other: Self) -> bool {
        i8::MIN <= self - other <= i8::MAX
    }

    fn sub(self, other: Self) -> (r: Self) {
        self - other
    }

    open spec fn zero_value() -> Self {
        0
    }

    proof fn lemma_zero_plus(x: Self) {
    }

    proof fn lemma_plus_zero(x: Self) {
    }

    proof fn lemma_zero_times(x: Self) {
    }

    proof fn lemma_times_zero(x: Self) {
    }

    open spec fn as_int(self) -> int {
        self as int
    }

    proof fn lemma_zero_int() {
    }

    proof fn lemma_plus_exact(x: Self, y: Self) {
    }

    proof fn lemma_times_exact(x: Self, y: Self) {
    }

    open spec fn one_value() -> Self {
        1
    }

    open spec fn quotient(self, other: Self) -> Self {
        match self.checked_div(other) {
            Some(q) => q,
            None => 0,
        }
    }

    open spec fn can_div(self, other: Self) -> bool {
        self.checked_div(other) is Some
    }

    open spec fn from_index(n: usize) -> Self {
        n as i8
    }

    fn one() -> (r: Self) {
        1
    }

    fn div(self, other: Self) -> (r: Self) {
        self.checked_div(other).unwrap()
    }

    fn from_usize(n: usize) -> (r: Self) {
        n as i8
    }

    open spec fn plus(self, other: Self) -> Self {
        (self + other) as i8
    }

    open spec fn can_add(self, other: Self) -> bool {
        i8::MIN <= self + other <= i8::MAX
    }

    open spec fn times(self, other: Self) -> Self {
        (self * other) as i8
    }

    open spec fn can_mul(self, other: Self) -> bool {
        i8::MIN <= self * other <= i8::MAX
    }

    open spec fn magnitude(self) -> Self {
        if self < 0 {
            (-self) as i8
        } else {
            self
        }
    }

    open spec fn can_abs(self) -> bool {
        self != i8::MIN
    }

    open spec fn at_most(self, other: Self) -> bool {
        self <= other
    }

    fn zero() -> (r: Self) {
        0
    }

    fn add(self, other: Self) -> (r: Self) {
        self + other
    }

    fn mul(self, other: Self) -> (r: Self) {
        self * other
    }

    fn abs(self) -> (r: Self) {
        if self < 0 {
            -self
        } else {
            self
        }
    }

    fn le(self, other: Self) -> (r: bool) {
        self <= other
    }

    fn is_zero(self) -> (r: bool) {
        self == 0
    }

    open spec fn xor(self, other: Self) -> Self {
        self ^ other
    }

    open spec fn and_bits(self, other: Self) -> Self {
        self & other
    }

    open spec fn or_bits(self, other: Self) -> Self {
        self | other
    }

    fn bitand(self, other: Self) -> (r: Self) {
        self & other
    }

    fn bitor(self, other: Self) -> (r: Self) {
        self | other
    }

    open spec fn ones(self) -> nat {
        low_ones((self as u8) as u64, 8)
    }

    fn bitxor(self, other: Self) -> (r: Self) {
        self ^ other
    }

    fn count_ones(self) -> (r: u32) {
        count_low_ones((self as u8) as u64, 8)
    }

    proof fn lemma_at_most_exact(x: Self, y: Self) {
    }

    proof fn lemma_as_int_injective(x: Self, y: Self) {
    }

    proof fn lemma_bounds(x: Self) {
    }

    proof fn lemma_magnitude_exact(x: Self) {
    }

    proof fn lemma_xor_zero(x: Self, y: Self) {
        assert((x ^ y == 0) == (x == y)) by (bit_vector);
    }

    proof fn lemma_ones_zero(x: Self) {
        let y: u64 = (x as u8) as u64;
        assert((x == 0 ==> y == 0u64) && (x != 0 ==> y != 0u64 && (y >> 8u64) == 0u64)) by (bit_vector)
            requires
                y == (x as u8) as u64,
        ;
        if x == 0 {
            lemma_low_ones_of_zero(8);
        } else {
            lemma_low_ones_positive(y, 8u64);
        }
    }

    open spec fn bit_width() -> nat {
        8
    }

    proof fn lemma_ones_bounds(x: Self) {
        lemma_low_ones_at_most((x as u8) as u64, 8);
        let z: u64 = ((i8::MIN ^ i8::MAX) as u8) as u64;
        assert forall|i: u64| i < 8u64 implies #[trigger] ((z >> i) & 1u64) == 1u64 by {
            assert(((z >> i) & 1u64) == 1u64) by (bit_vector)
                requires
                    i < 8u64,
                    z == ((i8::MIN ^ i8::MAX) as u8) as u64,
            ;
        }
        lemma_low_ones_full(z, 8u64);
    }
}

impl Scalar for i16 {
    open spec fn highest() -> Self {
        i16::MAX
    }

    open spec fn lowest() -> Self {
        i16::MIN
    }

    fn max_value() -> (r: Self) {
        i16::MAX
    }

    fn min_value() -> (r: Self) {
        i16::MIN
    }

    open spec fn minus(self, other: Self) -> Self {
        (self - other) as i16
    }

    open spec fn can_sub(self, other: Self) -> bool {
        i16::MIN <= self - other <= i16::MAX
    }

    fn sub(self, other: Self) -> (r: Self) {
        self - other
    }

    open spec fn zero_value() -> Self {
        0
    }

    proof fn lemma_zero_plus(x: Self) {
    }

    proof fn lemma_plus_zero(x: Self) {
    }

    proof fn lemma_zero_times(x: Self) {
    }

    proof fn lemma_times_zero(x: Self) {
    }

    open spec fn as_int(self) -> int {
        self as int
    }

    proof fn lemma_zero_int() {
    }

    proof fn lemma_plus_exact(x: Self, y: Self) {
    }

    proof fn lemma_times_exact(x: Self, y: Self) {
    }

    open spec fn one_value() -> Self {
        1
    }

    open spec fn quotient(self, other: Self) -> Self {
        match self.checked_div(other) {
            Some(q) => q,
            None => 0,
        }
    }

    open spec fn can_div(self, other: Self) -> bool {
        self.checked_div(other) is Some
    }

    open spec fn from_index(n: usize) -> Self {
        n as i16
    }

    fn one() -> (r: Self) {
        1
    }

    fn div(self, other: Self) -> (r: Self) {
        self.checked_div(other).unwrap()
    }

    fn from_usize(n: usize) -> (r: Self) {
        n as i16
    }

    open spec fn plus(self, other: Self) -> Self {
        (self + other) as i16
    }

    open spec fn can_add(self, other: Self) -> bool {
        i16::MIN <= self + other <= i16::MAX
    }

    open spec fn times(self, other: Self) -> Self {
        (self * other) as i16
    }

    open spec fn can_mul(self, other: Self) -> bool {
        i16::MIN <= self * other <= i16::MAX
    }

    open spec fn magnitude(self) -> Self {
        if self < 0 {
            (-self) as i16
        } else {
            self
        }
    }

    open spec fn can_abs(self) -> bool {
        self != i16::MIN
    }

    open spec fn at_most(self, other: Self) -> bool {
        self <= other
    }

    fn zero() -> (r: Self) {
        0
    }

    fn add(self, other: Self) -> (r: Self) {
        self + other
    }

    fn mul(self, other: Self) -> (r: Self) {
        self * other
    }

    fn abs(self) -> (r: Self) {
        if self < 0 {
            -self
        } else {
            self
        }
    }

    fn le(self, other: Self) -> (r: bool) {
        self <= other
    }

    fn is_zero(self) -> (r: bool) {
        self == 0
    }

    open spec fn xor(self, other: Self) -> Self {
        self ^ other
    }

    open spec fn and_bits(self, other: Self) -> Self {
        self & other
    }

    open spec fn or_bits(self, other: Self) -> Self {
        self | other
    }

    fn bitand(self, other: Self) -> (r: Self) {
        self & other
    }

    fn bitor(self, other: Self) -> (r: Self) {
        self | other
    }

    open spec fn ones(self) -> nat {
        low_ones((self as u16) as u64, 16)
    }

    fn bitxor(self, other: Self) -> (r: Self) {
        self ^ other
    }

    fn count_ones(self) -> (r: u32) {
        count_low_ones((self as u16) as u64, 16)
    }

    proof fn lemma_at_most_exact(x: Self, y: Self) {
    }

    proof fn lemma_as_int_injective(x: Self, y: Self) {
    }

    proof fn lemma_bounds(x: Self) {
    }

    proof fn lemma_magnitude_exact(x: Self) {
    }

    proof fn lemma_xor_zero(x: Self, y: Self) {
        assert((x ^ y == 0) == (x == y)) by (bit_vector);
    }

    proof fn lemma_ones_zero(x: Self) {
        let y: u64 = (x as u16) as u64;
        assert((x == 0 ==> y == 0u64) && (x != 0 ==> y != 0u64 && (y >> 16u64) == 0u64)) by (bit_vector)
            requires
                y == (x as u16) as u64,
        ;
        if x == 0 {
            lemma_low_ones_of_zero(16);
        } else {
            lemma_low_ones_positive(y, 16u64);
        }
    }

    open spec fn bit_width() -> nat {
        16
    }

    proof fn lemma_ones_bounds(x: Self) {
        lemma_low_ones_at_most((x as u16) as u64, 16);
        let z: u64 = ((i16::MIN ^ i16::MAX) as u16) as u64;
        assert forall|i: u64| i < 16u64 implies #[trigger] ((z >> i) & 1u64) == 1u64 by {
            assert(((z >> i) & 1u64) == 1u64) by (bit_vector)
                requires
                    i < 16u64,
                    z == ((i16::MIN ^ i16::MAX) as u16) as u64,
            ;
        }
        lemma_low_ones_full(z, 16u64);
    }
}

impl Scalar for isize {
    open spec fn highest() -> Self {
        isize::MAX
    }

    open spec fn lowest() -> Self {
        isize::MIN
    }

    fn max_value() -> (r: Self) {
        isize::MAX
    }

    fn min_value() -> (r: Self) {
        isize::MIN
    }

    open spec fn minus(self, other: Self) -> Self {
        (self - other) as isize
    }

    open spec fn can_sub(self, other: Self) -> bool {
        isize::MIN <= self - other <= isize::MAX
    }

    fn sub(self, other: Self) -> (r: Self) {
        self - other
    }

    open spec fn zero_value() -> Self {
        0
    }

    proof fn lemma_zero_plus(x: Self) {
    }

    proof fn lemma_plus_zero(x: Self) {
    }

    proof fn lemma_zero_times(x: Self) {
    }

    proof fn lemma_times_zero(x: Self) {
    }

    open spec fn as_int(self) -> int {
        self as int
    }

    proof fn lemma_zero_int() {
    }

    proof fn lemma_plus_exact(x: Self, y: Self) {
    }

    proof fn lemma_times_exact(x: Self, y: Self) {
    }

    open spec fn one_value() -> Self {
        1
    }

    open spec fn quotient(self, other: Self) -> Self {
        match self.checked_div(other) {
            Some(q) => q,
            None => 0,
        }
    }

    open spec fn can_div(self, other: Self) -> bool {
        self.checked_div(other) is Some
    }

    open spec fn from_index(n: usize) -> Self {
        n as isize
    }

    fn one() -> (r: Self) {
        1
    }

    fn div(self, other: Self) -> (r: Self) {
        self.checked_div(other).unwrap()
    }

    fn from_usize(n: usize) -> (r: Self) {
        n as isize
    }

    open spec fn plus(self, other: Self) -> Self {
        (self + other) as isize
    }

    open spec fn can_add(self, other: Self) -> bool {
        isize::MIN <= self + other <= isize::MAX
    }

    open spec fn times(self, other: Self) -> Self {
        (self * other) as isize
    }

    open spec fn can_mul(self, other: Self) -> bool {
        isize::MIN <= self * other <= isize::MAX
    }

    open spec fn magnitude(self) -> Self {
        if self < 0 {
            (-self) as isize
        } else {
            self
        }
    }

    open spec fn can_abs(self) -> bool {
        self != isize::MIN
    }

    open spec fn at_most(self, other: Self) -> bool {
        self <= other
    }

    fn zero() -> (r: Self) {
        0
    }

    fn add(self, other: Self) -> (r: Self) {
        self + other
    }

    fn mul(self, other: Self) -> (r: Self) {
        self * other
    }

    fn abs(self) -> (r: Self) {
        if self < 0 {
            -self
        } else {
            self
        }
    }

    fn le(self, other: Self) -> (r: bool) {
        self <= other
    }

    fn is_zero(self) -> (r: bool) {
        self == 0
    }

    open spec fn xor(self, other: Self) -> Self {
        self ^ other
    }

    open spec fn and_bits(self, other: Self) -> Self {
        self & other
    }

    open spec fn or_bits(self, other: Self) -> Self {
        self | other
    }

    fn bitand(self, other: Self) -> (r: Self) {
        self & other
    }

    fn bitor(self, other: Self) -> (r: Self) {
        self | other
    }

    open spec fn ones(self) -> nat {
        low_ones((self as usize) as u64, usize::BITS as nat)
    }

    fn bitxor(self, other: Self) -> (r: Self) {
        self ^ other
    }

    fn count_ones(self) -> (r: u32) {
        count_low_ones((self as usize) as u64, usize::BITS as u64)
    }

    proof fn lemma_at_most_exact(x: Self, y: Self) {
    }

    proof fn lemma_as_int_injective(x: Self, y: Self) {
    }

    proof fn lemma_bounds(x: Self) {
    }

    proof fn lemma_magnitude_exact(x: Self) {
    }

    proof fn lemma_xor_zero(x: Self, y: Self) {
        assert((x ^ y == 0) == (x == y)) by (bit_vector);
    }

    proof fn lemma_ones_zero(x: Self) {
        let y: u64 = (x as usize) as u64;
        assert((x == 0 ==> y == 0u64) && (x != 0 ==> y != 0u64 && (y >> usize::BITS as u64) == 0u64)) by (bit_vector)
            requires
                y == (x as usize) as u64,
        ;
        if x == 0 {
            lemma_low_ones_of_zero(usize::BITS as nat);
        } else {
            lemma_low_ones_positive(y, usize::BITS as u64);
        }
    }

    open spec fn bit_width() -> nat {
        usize::BITS as nat
    }

    proof fn lemma_ones_bounds(x: Self) {
        lemma_low_ones_at_most((x as usize) as u64, usize::BITS as nat);
        let (lo, hi) = (isize::MIN, isize::MAX);
        let w = lo ^ hi;
        assert(lo == -hi - 1);
        assert(w == -1isize) by (bit_vector)
            requires
                lo == -hi - 1,
                w == lo ^ hi,
        ;
        let z: u64 = (w as usize) as u64;
        assert forall|i: u64| i < usize::BITS as u64 implies #[trigger] ((z >> i) & 1u64) == 1u64 by {
            assert(((z >> i) & 1u64) == 1u64) by (bit_vector)
                requires
                    i < usize::BITS as u64,
                    w == -1isize,
                    z == (w as usize) as u64,
            ;
        }
        lemma_low_ones_full(z, usize::BITS as u64);
    }
}

impl Scalar for u8 {
    open spec fn highest() -> Self {
        u8::MAX
    }

    open spec fn lowest() -> Self {
        0
    }

    fn max_value() -> (r: Self) {
        u8::MAX
    }

    fn min_value() -> (r: Self) {
        0
    }

    open spec fn minus(self, other: Self) -> Self {
        (self - other) as u8
    }

    open spec fn can_sub(self, other: Self) -> bool {
        0 <= self - other <= u8::MAX
    }

    fn sub(self, other: Self) -> (r: Self) {
        self - other
    }

    open spec fn zero_value() -> Self {
        0
    }

    proof fn lemma_zero_plus(x: Self) {
    }

    proof fn lemma_plus_zero(x: Self) {
    }

    proof fn lemma_zero_times(x: Self) {
    }

    proof fn lemma_times_zero(x: Self) {
    }

    open spec fn as_int(self) -> int {
        self as int
    }

    proof fn lemma_zero_int() {
    }

    proof fn lemma_plus_exact(x: Self, y: Self) {
    }

    proof fn lemma_times_exact(x: Self, y: Self) {
    }

    open spec fn one_value() -> Self {
        1
    }

    open spec fn quotient(self, other: Self) -> Self {
        self / other
    }

    open spec fn can_div(self, other: Self) -> bool {
        other != 0
    }

    open spec fn from_index(n: usize) -> Self {
        n as u8
    }

    fn one() -> (r: Self) {
        1
    }

    fn div(self, other: Self) -> (r: Self) {
        self / other
    }

    fn from_usize(n: usize) -> (r: Self) {
        n as u8
    }

    open spec fn plus(self, other: Self) -> Self {
        (self + other) as u8
    }

    open spec fn can_add(self, other: Self) -> bool {
        self + other <= u8::MAX
    }

    open spec fn times(self, other: Self) -> Self {
        (self * other) as u8
    }

    open spec fn can_mul(self, other: Self) -> bool {
        self * other <= u8::MAX
    }

    open spec fn magnitude(self) -> Self {
        self
    }

    open spec fn can_abs(self) -> bool {
        true
    }

    open spec fn at_most(self, other: Self) -> bool {
        self <= other
    }

    fn zero() -> (r: Self) {
        0
    }

    fn add(self, other: Self) -> (r: Self) {
        self + other
    }

    fn mul(self, other: Self) -> (r: Self) {
        self * other
    }

    fn abs(self) -> (r: Self) {
        self
    }

    fn le(self, other: Self) -> (r: bool) {
        self <= other
    }

    fn is_zero(self) -> (r: bool) {
        self == 0
    }

    open spec fn xor(self, other: Self) -> Self {
        self ^ other
    }

    open spec fn and_bits(self, other: Self) -> Self {
        self & other
    }

    open spec fn or_bits(self, other: Self) -> Self {
        self | other
    }

    fn bitand(self, other: Self) -> (r: Self) {
        self & other
    }

    fn bitor(self, other: Self) -> (r: Self) {
        self | other
    }

    open spec fn ones(self) -> nat {
        low_ones(self as u64, 8)
    }

    fn bitxor(self, other: Self) -> (r: Self) {
        self ^ other
    }

    fn count_ones(self) -> (r: u32) {
        count_low_ones(self as u64, 8)
    }

    proof fn lemma_at_most_exact(x: Self, y: Self) {
    }

    proof fn lemma_as_int_injective(x: Self, y: Self) {
    }

    proof fn lemma_bounds(x: Self) {
    }

    proof fn lemma_magnitude_exact(x: Self) {
    }

    proof fn lemma_xor_zero(x: Self, y: Self) {
        assert((x ^ y == 0) == (x == y)) by (bit_vector);
    }

    proof fn lemma_ones_zero(x: Self) {
        let y: u64 = x as u64;
        assert((x == 0 ==> y == 0u64) && (x != 0 ==> y != 0u64 && (y >> 8u64) == 0u64)) by (bit_vector)
            requires
                y == x as u64,
        ;
        if x == 0 {
            lemma_low_ones_of_zero(8);
        } else {
            lemma_low_ones_positive(y, 8u64);
        }
    }

    open spec fn bit_width() -> nat {
        8
    }

    proof fn lemma_ones_bounds(x: Self) {
        lemma_low_ones_at_most(x as u64, 8);
        let z: u64 = (u8::MIN ^ u8::MAX) as u64;
        assert forall|i: u64| i < 8u64 implies #[trigger] ((z >> i) & 1u64) == 1u64 by {
            assert(((z >> i) & 1u64) == 1u64) by (bit_vector)
                requires
                    i < 8u64,
                    z == (u8::MIN ^ u8::MAX) as u64,
            ;
        }
        lemma_low_ones_full(z, 8u64);
    }
}

impl Scalar for u16 {
    open spec fn highest() -> Self {
        u16::MAX
    }

    open spec fn lowest() -> Self {
        0
    }

    fn max_value() -> (r: Self) {
        u16::MAX
    }

    fn min_value() -> (r: Self) {
        0
    }

    open spec fn minus(self, other: Self) -> Self {
        (self - other) as u16
    }

    open spec fn can_sub(self, other: Self) -> bool {
        0 <= self - other <= u16::MAX
    }

    fn sub(self, other: Self) -> (r: Self) {
        self - other
    }

    open spec fn zero_value() -> Self {
        0
    }

    proof fn lemma_zero_plus(x: Self) {
    }

    proof fn lemma_plus_zero(x: Self) {
    }

    proof fn lemma_zero_times(x: Self) {
    }

    proof fn lemma_times_zero(x: Self) {
    }

    open spec fn as_int(self) -> int {
        self as int
    }

    proof fn lemma_zero_int() {
    }

    proof fn lemma_plus_exact(x: Self, y: Self) {
    }

    proof fn lemma_times_exact(x: Self, y: Self) {
    }

    open spec fn one_value() -> Self {
        1
    }

    open spec fn quotient(self, other: Self) -> Self {
        self / other
    }

    open spec fn can_div(self, other: Self) -> bool {
        other != 0
    }

    open spec fn from_index(n: usize) -> Self {
        n as u16
    }

    fn one() -> (r: Self) {
        1
    }

    fn div(self, other: Self) -> (r: Self) {
        self / other
    }

    fn from_usize(n: usize) -> (r: Self) {
        n as u16
    }

    open spec fn plus(self, other: Self) -> Self {
        (self + other) as u16
    }

    open spec fn can_add(self, other: Self) -> bool {
        self + other <= u16::MAX
    }

    open spec fn times(self, other: Self) -> Self {
        (self * other) as u16
    }

    open spec fn can_mul(self, other: Self) -> bool {
        self * other <= u16::MAX
    }

    open spec fn magnitude(self) -> Self {
        self
    }

    open spec fn can_abs(self) -> bool {
        true
    }

    open spec fn at_most(self, other: Self) -> bool {
        self <= other
    }

    fn zero() -> (r: Self) {
        0
    }

    fn add(self, other: Self) -> (r: Self) {
        self + other
    }

    fn mul(self, other: Self) -> (r: Self) {
        self * other
    }

    fn abs(self) -> (r: Self) {
        self
    }

    fn le(self, other: Self) -> (r: bool) {
        self <= other
    }

    fn is_zero(self) -> (r: bool) {
        self == 0
    }

    open spec fn xor(self, other: Self) -> Self {
        self ^ other
    }

    open spec fn and_bits(self, other: Self) -> Self {
        self & other
    }

    open spec fn or_bits(self, other: Self) -> Self {
        self | other
    }

    fn bitand(self, other: Self) -> (r: Self) {
        self & other
    }

    fn bitor(self, other: Self) -> (r: Self) {
        self | other
    }

    open spec fn ones(self) -> nat {
        low_ones(self as u64, 16)
    }

    fn bitxor(self, other: Self) -> (r: Self) {
        self ^ other
    }

    fn count_ones(self) -> (r: u32) {
        count_low_ones(self as u64, 16)
    }

    proof fn lemma_at_most_exact(x: Self, y: Self) {
    }

    proof fn lemma_as_int_injective(x: Self, y: Self) {
    }

    proof fn lemma_bounds(x: Self) {
    }

    proof fn lemma_magnitude_exact(x: Self) {
    }

    proof fn lemma_xor_zero(x: Self, y: Self) {
        assert((x ^ y == 0) == (x == y)) by (bit_vector);
    }

    proof fn lemma_ones_zero(x: Self) {
        let y: u64 = x as u64;
        assert((x == 0 ==> y == 0u64) && (x != 0 ==> y != 0u64 && (y >> 16u64) == 0u64)) by (bit_vector)
            requires
                y == x as u64,
        ;
        if x == 0 {
            lemma_low_ones_of_zero(16);
        } else {
            lemma_low_ones_positive(y, 16u64);
        }
    }

    open spec fn bit_width() -> nat {
        16
    }

    proof fn lemma_ones_bounds(x: Self) {
        lemma_low_ones_at_most(x as u64, 16);
        let z: u64 = (u16::MIN ^ u16::MAX) as u64;
        assert forall|i: u64| i < 16u64 implies #[trigger] ((z >> i) & 1u64) == 1u64 by {
            assert(((z >> i) & 1u64) == 1u64) by (bit_vector)
                requires
                    i < 16u64,
                    z == (u16::MIN ^ u16::MAX) as u64,
            ;
        }
        lemma_low_ones_full(z, 16u64);
    }
}

impl Scalar for u32 {
    open spec fn highest() -> Self {
        u32::MAX
    }

    open spec fn lowest() -> Self {
        0
    }

    fn max_value() -> (r: Self) {
        u32::MAX
    }

    fn min_value() -> (r: Self) {
        0
    }

    open spec fn minus(self, other: Self) -> Self {
        (self - other) as u32
    }

    open spec fn can_sub(self, other: Self) -> bool {
        0 <= self - other <= u32::MAX
    }

    fn sub(self, other: Self) -> (r: Self) {
        self - other
    }

    open spec fn zero_value() -> Self {
        0
    }

    proof fn lemma_zero_plus(x: Self) {
    }

    proof fn lemma_plus_zero(x: Self) {
    }

    proof fn lemma_zero_times(x: Self) {
    }

    proof fn lemma_times_zero(x: Self) {
    }

    open spec fn as_int(self) -> int {
        self as int
    }

    proof fn lemma_zero_int() {
    }

    proof fn lemma_plus_exact(x: Self, y: Self) {
    }

    proof fn lemma_times_exact(x: Self, y: Self) {
    }

    open spec fn one_value() -> Self {
        1
    }

    open spec fn quotient(self, other: Self) -> Self {
        self / other
    }

    open spec fn can_div(self, other: Self) -> bool {
        other != 0
    }

    open spec fn from_index(n: usize) -> Self {
        n as u32
    }

    fn one() -> (r: Self) {
        1
    }

    fn div(self, other: Self) -> (r: Self) {
        self / other
    }

    fn from_usize(n: usize) -> (r: Self) {
        n as u32
    }

    open spec fn plus(self, other: Self) -> Self {
        (self + other) as u32
    }

    open spec fn can_add(self, other: Self) -> bool {
        self + other <= u32::MAX
    }

    open spec fn times(self, other: Self) -> Self {
        (self * other) as u32
    }

    open spec fn can_mul(self, other: Self) -> bool {
        self * other <= u32::MAX
    }

    open spec fn magnitude(self) -> Self {
        self
    }

    open spec fn can_abs(self) -> bool {
        true
    }

    open spec fn at_most(self, other: Self) -> bool {
        self <= other
    }

    fn zero() -> (r: Self) {
        0
    }

    fn add(self, other: Self) -> (r: Self) {
        self + other
    }

    fn mul(self, other: Self) -> (r: Self) {
        self * other
    }

    fn abs(self) -> (r: Self) {
        self
    }

    fn le(self, other: Self) -> (r: bool) {
        self <= other
    }

    fn is_zero(self) -> (r: bool) {
        self == 0
    }

    open spec fn xor(self, other: Self) -> Self {
        self ^ other
    }

    open spec fn and_bits(self, other: Self) -> Self {
        self & other
    }

    open spec fn or_bits(self, other: Self) -> Self {
        self | other
    }

    fn bitand(self, other: Self) -> (r: Self) {
        self & other
    }

    fn bitor(self, other: Self) -> (r: Self) {
        self | other
    }

    open spec fn ones(self) -> nat {
        low_ones(self as u64, 32)
    }

    fn bitxor(self, other: Self) -> (r: Self) {
        self ^ other
    }

    fn count_ones(self) -> (r: u32) {
        count_low_ones(self as u64, 32)
    }

    proof fn lemma_at_most_exact(x: Self, y: Self) {
    }

    proof fn lemma_as_int_injective(x: Self, y: Self) {
    }

    proof fn lemma_bounds(x: Self) {
    }

    proof fn lemma_magnitude_exact(x: Self) {
    }

    proof fn lemma_xor_zero(x: Self, y: Self) {
        assert((x ^ y == 0) == (x == y)) by (bit_vector);
    }

    proof fn lemma_ones_zero(x: Self) {
        let y: u64 = x as u64;
        assert((x == 0 ==> y == 0u64) && (x != 0 ==> y != 0u64 && (y >> 32u64) == 0u64)) by (bit_vector)
            requires
                y == x as u64,
        ;
        if x == 0 {
            lemma_low_ones_of_zero(32);
        } else {
            lemma_low_ones_positive(y, 32u64);
        }
    }

    open spec fn bit_width() -> nat {
        32
    }

    proof fn lemma_ones_bounds(x: Self) {
        lemma_low_ones_at_most(x as u64, 32);
        let z: u64 = (u32::MIN ^ u32::MAX) as u64;
        assert forall|i: u64| i < 32u64 implies #[trigger] ((z >> i) & 1u64) == 1u64 by {
            assert(((z >> i) & 1u64) == 1u64) by (bit_vector)
                requires
                    i < 32u64,
                    z == (u32::MIN ^ u32::MAX) as u64,
            ;
        }
        lemma_low_ones_full(z, 32u64);
    }
}

impl Scalar for usize {
    open spec fn highest() -> Self {
        usize::MAX
    }

    open spec fn lowest() -> Self {
        0
    }

    fn max_value() -> (r: Self) {
        usize::MAX
    }

    fn min_value() -> (r: Self) {
        0
    }

    open spec fn minus(self, other: Self) -> Self {
        (self - other) as usize
    }

    open spec fn can_sub(self, other: Self) -> bool {
        0 <= self - other <= usize::MAX
    }

    fn sub(self, other: Self) -> (r: Self) {
        self - other
    }

    open spec fn zero_value() -> Self {
        0
    }

    proof fn lemma_zero_plus(x: Self) {
    }

    proof fn lemma_plus_zero(x: Self) {
    }

    proof fn lemma_zero_times(x: Self) {
    }

    proof fn lemma_times_zero(x: Self) {
    }

    open spec fn as_int(self) -> int {
        self as int
    }

    proof fn lemma_zero_int() {
    }

    proof fn lemma_plus_exact(x: Self, y: Self) {
    }

    proof fn lemma_times_exact(x: Self, y: Self) {
    }

    open spec fn one_value() -> Self {
        1
    }

    open spec fn quotient(self, other: Self) -> Self {
        self / other
    }

    open spec fn can_div(self, other: Self) -> bool {
        other != 0
    }

    open spec fn from_index(n: usize) -> Self {
        n as usize
    }

    fn one() -> (r: Self) {
        1
    }

    fn div(self, other: Self) -> (r: Self) {
        self / other
    }

    fn from_usize(n: usize) -> (r: Self) {
        n as usize
    }

    open spec fn plus(self, other: Self) -> Self {
        (self + other) as usize
    }

    open spec fn can_add(self, other: Self) -> bool {
        self + other <= usize::MAX
    }

    open spec fn times(self, other: Self) -> Self {
        (self * other) as usize
    }

    open spec fn can_mul(self, other: Self) -> bool {
        self * other <= usize::MAX
    }

    open spec fn magnitude(self) -> Self {
        self
    }

    open spec fn can_abs(self) -> bool {
        true
    }

    open spec fn at_most(self, other: Self) -> bool {
        self <= other
    }

    fn zero() -> (r: Self) {
        0
    }

    fn add(self, other: Self) -> (r: Self) {
        self + other
    }

    fn mul(self, other: Self) -> (r: Self) {
        self * other
    }

    fn abs(self) -> (r: Self) {
        self
    }

    fn le(self, other: Self) -> (r: bool) {
        self <= other
    }

    fn is_zero(self) -> (r: bool) {
        self == 0
    }

    open spec fn xor(self, other: Self) -> Self {
        self ^ other
    }

    open spec fn and_bits(self, other: Self) -> Self {
        self & other
    }

    open spec fn or_bits(self, other: Self) -> Self {
        self | other
    }

    fn bitand(self, other: Self) -> (r: Self) {
        self & other
    }

    fn bitor(self, other: Self) -> (r: Self) {
        self | other
    }

    open spec fn ones(self) -> nat {
        low_ones(self as u64, usize::BITS as nat)
    }

    fn bitxor(self, other: Self) -> (r: Self) {
        self ^ other
    }

    fn count_ones(self) -> (r: u32) {
        count_low_ones(self as u64, usize::BITS as u64)
    }

    proof fn lemma_at_most_exact(x: Self, y: Self) {
    }

    proof fn lemma_as_int_injective(x: Self, y: Self) {
    }

    proof fn lemma_bounds(x: Self) {
    }

    proof fn lemma_magnitude_exact(x: Self) {
    }

    proof fn lemma_xor_zero(x: Self, y: Self) {
        assert((x ^ y == 0) == (x == y)) by (bit_vector);
    }

    proof fn lemma_ones_zero(x: Self) {
        let y: u64 = x as u64;
        assert((x == 0 ==> y == 0u64) && (x != 0 ==> y != 0u64 && (y >> usize::BITS as u64) == 0u64)) by (bit_vector)
            requires
                y == x as u64,
        ;
        if x == 0 {
            lemma_low_ones_of_zero(usize::BITS as nat);
        } else {
            lemma_low_ones_positive(y, usize::BITS as u64);
        }
    }

    open spec fn bit_width() -> nat {
        usize::BITS as nat
    }

    proof fn lemma_ones_bounds(x: Self) {
        lemma_low_ones_at_most(x as u64, usize::BITS as nat);
        let hi = usize::MAX;
        let w = 0usize ^ hi;
        assert(w == hi) by (bit_vector)
            requires
                w == 0usize ^ hi,
        ;
        vstd::arithmetic::power2::lemma2_to64();
        assert(hi as int + 1 == vstd::arithmetic::power2::pow2(usize::BITS as nat));
        let z: u64 = w as u64;
        assert(usize::BITS == 64 ==> z == 0xFFFF_FFFF_FFFF_FFFFu64);
        assert(usize::BITS == 32 ==> z == 0xFFFF_FFFFu64);
        assert forall|i: u64| i < usize::BITS as u64 implies #[trigger] ((z >> i) & 1u64) == 1u64 by {
            if usize::BITS == 64 {
                assert(((z >> i) & 1u64) == 1u64) by (bit_vector)
                    requires
                        i < 64,
                        z == 0xFFFF_FFFF_FFFF_FFFFu64,
                ;
            } else {
                assert(((z >> i) & 1u64) == 1u64) by (bit_vector)
                    requires
                        i < 32,
                        z == 0xFFFF_FFFFu64,
                ;
            }
        }
        lemma_low_ones_full(z, usize::BITS as u64);
    }
}


} // verus!
