//! Numeric capability sets: the constraints an index type and a value type
//! must satisfy so that every storage engine and algorithm can be written
//! once, generically.
//!
//! An index type is a fixed-width unsigned integer usable as an array
//! offset.  Its largest value is reserved as the `unset` sentinel meaning
//! "no entry / end of chain"; capacity guards keep real offsets strictly
//! below it.  A value type is a ring-like type with additive zero,
//! multiplicative one, and total (wrapping) addition, subtraction and
//! multiplication.

use vstd::prelude::*;

verus! {

/// Capability set for matrix index types.
///
/// The model of an index value is the mathematical integer `as_int`.
/// `max_spec()` is the sentinel (`unset`) value: every legal offset is
/// strictly below it.
pub trait IndexType: Copy + Sized {
    /// The mathematical integer this index value denotes.
    spec fn as_int(self) -> int;

    /// The sentinel value of this index type (its maximum).
    spec fn max_spec() -> int;

    /// Every index value lies between zero and the sentinel.
    proof fn lemma_in_range(self)
        ensures
            0 <= self.as_int() <= Self::max_spec(),
    ;

    /// The sentinel is positive and fits in the platform's size type.
    proof fn lemma_max_fits()
        ensures
            1 <= Self::max_spec() <= usize::MAX as int,
    ;

    /// Lossless conversion to the platform's size type.
    fn as_usize(self) -> (r: usize)
        ensures
            r as int == self.as_int(),
    ;

    /// Lossless conversion from the platform's size type.
    fn from_usize(x: usize) -> (r: Self)
        requires
            x as int <= Self::max_spec(),
        ensures
            r.as_int() == x as int,
    ;

    /// The sentinel value, used to mean "no entry / end of chain".
    fn unset() -> (r: Self)
        ensures
            r.as_int() == Self::max_spec(),
    ;

    /// The additive identity.
    fn zero() -> (r: Self)
        ensures
            r.as_int() == 0,
    ;

    /// The multiplicative unit.
    fn one() -> (r: Self)
        ensures
            r.as_int() == 1,
    ;

    /// Equality test.
    fn eq_ix(self, other: Self) -> (r: bool)
        ensures
            r <==> self.as_int() == other.as_int(),
    ;

    /// Strict order test.
    fn lt_ix(self, other: Self) -> (r: bool)
        ensures
            r <==> self.as_int() < other.as_int(),
    ;
}

impl IndexType for u8 {
    open spec fn as_int(self) -> int {
        self as int
    }

    open spec fn max_spec() -> int {
        u8::MAX as int
    }

    proof fn lemma_in_range(self) {
    }

    proof fn lemma_max_fits() {
    }

    fn as_usize(self) -> (r: usize) {
        self as usize
    }

    fn from_usize(x: usize) -> (r: Self) {
        x as u8
    }

    fn unset() -> (r: Self) {
        u8::MAX
    }

    fn zero() -> (r: Self) {
        0u8
    }

    fn one() -> (r: Self) {
        1u8
    }

    fn eq_ix(self, other: Self) -> (r: bool) {
        self == other
    }

    fn lt_ix(self, other: Self) -> (r: bool) {
        self < other
    }
}

impl IndexType for u16 {
    open spec fn as_int(self) -> int {
        self as int
    }

    open spec fn max_spec() -> int {
        u16::MAX as int
    }

    proof fn lemma_in_range(self) {
    }

    proof fn lemma_max_fits() {
    }

    fn as_usize(self) -> (r: usize) {
        self as usize
    }

    fn from_usize(x: usize) -> (r: Self) {
        x as u16
    }

    fn unset() -> (r: Self) {
        u16::MAX
    }

    fn zero() -> (r: Self) {
        0u16
    }

    fn one() -> (r: Self) {
        1u16
    }

    fn eq_ix(self, other: Self) -> (r: bool) {
        self == other
    }

    fn lt_ix(self, other: Self) -> (r: bool) {
        self < other
    }
}

impl IndexType for u32 {
    open spec fn as_int(self) -> int {
        self as int
    }

    open spec fn max_spec() -> int {
        u32::MAX as int
    }

    proof fn lemma_in_range(self) {
    }

    proof fn lemma_max_fits() {
    }

    fn as_usize(self) -> (r: usize) {
        self as usize
    }

    fn from_usize(x: usize) -> (r: Self) {
        x as u32
    }

    fn unset() -> (r: Self) {
        u32::MAX
    }

    fn zero() -> (r: Self) {
        0u32
    }

    fn one() -> (r: Self) {
        1u32
    }

    fn eq_ix(self, other: Self) -> (r: bool) {
        self == other
    }

    fn lt_ix(self, other: Self) -> (r: bool) {
        self < other
    }
}

impl IndexType for usize {
    open spec fn as_int(self) -> int {
        self as int
    }

    open spec fn max_spec() -> int {
        usize::MAX as int
    }

    proof fn lemma_in_range(self) {
    }

    proof fn lemma_max_fits() {
    }

    fn as_usize(self) -> (r: usize) {
        self
    }

    fn from_usize(x: usize) -> (r: Self) {
        x
    }

    fn unset() -> (r: Self) {
        usize::MAX
    }

    fn zero() -> (r: Self) {
        0usize
    }

    fn one() -> (r: Self) {
        1usize
    }

    fn eq_ix(self, other: Self) -> (r: bool) {
        self == other
    }

    fn lt_ix(self, other: Self) -> (r: bool) {
        self < other
    }
}

/// The character for one decimal digit.
pub open spec fn dec_digit(d: int) -> char {
    ((48 + d) as u8) as char
}

/// The decimal rendering of a non-negative integer, most significant
/// digit first.
pub open spec fn dec_str(n: int) -> Seq<char>
    decreases n,
{
    if n < 0 {
        Seq::empty()
    } else if n < 10 {
        seq![dec_digit(n)]
    } else {
        dec_str(n / 10).push(dec_digit(n % 10))
    }
}

/// Renders a non-negative integer in decimal, most significant digit
/// first.
pub fn dec_chars_u64(n: u64) -> (r: Vec<char>)
    ensures
        r@ == dec_str(n as int),
    decreases n,
{
    let d = ((48 + (n % 10) as u8) as char);
    if n < 10 {
        let mut v: Vec<char> = Vec::new();
        v.push(d);
        proof {
            assert(v@ =~= dec_str(n as int));
        }
        v
    } else {
        let mut v = dec_chars_u64(n / 10);
        v.push(d);
        v
    }
}

/// Capability set for matrix and vector entry values.
///
/// The operations form a commutative ring: the provided implementations
/// are the fixed-width signed integers with wrapping arithmetic, which
/// satisfy the ring laws exactly.  `sp_add`, `sp_sub` and `sp_mul` are the
/// mathematical models of the three executable operations.
pub trait ValueType: Copy + Sized {
    /// The additive identity, as a specification value.
    spec fn sp_zero() -> Self;

    /// The multiplicative unit, as a specification value.
    spec fn sp_one() -> Self;

    /// The model of addition.
    spec fn sp_add(self, other: Self) -> Self;

    /// The model of subtraction.
    spec fn sp_sub(self, other: Self) -> Self;

    /// The model of multiplication.
    spec fn sp_mul(self, other: Self) -> Self;

    /// Zero is the additive identity.
    proof fn lemma_add_zero(self)
        ensures
            self.sp_add(Self::sp_zero()) == self,
            Self::sp_zero().sp_add(self) == self,
    ;

    /// Subtracting zero is the identity.
    proof fn lemma_sub_zero(self)
        ensures
            self.sp_sub(Self::sp_zero()) == self,
    ;

    /// Zero is absorbing for multiplication.
    proof fn lemma_mul_zero(self)
        ensures
            Self::sp_zero().sp_mul(self) == Self::sp_zero(),
            self.sp_mul(Self::sp_zero()) == Self::sp_zero(),
    ;

    /// The additive identity.
    fn zero() -> (r: Self)
        ensures
            r == Self::sp_zero(),
    ;

    /// The multiplicative unit.
    fn one() -> (r: Self)
        ensures
            r == Self::sp_one(),
    ;

    /// Addition.
    fn add_val(self, other: Self) -> (r: Self)
        ensures
            r == self.sp_add(other),
    ;

    /// Subtraction.
    fn sub_val(self, other: Self) -> (r: Self)
        ensures
            r == self.sp_sub(other),
    ;

    /// Multiplication, used for scaling and products.
    fn mul_val(self, other: Self) -> (r: Self)
        ensures
            r == self.sp_mul(other),
    ;

    /// Equality test.
    fn eq_val(self, other: Self) -> (r: bool)
        ensures
            r <==> self == other,
    ;

    /// The decimal rendering of the value.
    spec fn text_spec(self) -> Seq<char>;

    /// Renders the value as text.
    fn to_text(self) -> (r: Vec<char>)
        ensures
            r@ == self.text_spec(),
    ;
}

impl ValueType for i64 {
    open spec fn sp_zero() -> Self {
        0i64
    }

    open spec fn sp_one() -> Self {
        1i64
    }

    open spec fn sp_add(self, other: Self) -> Self {
        vstd::wrapping::i64_specs::wrapping_add(self, other)
    }

    open spec fn sp_sub(self, other: Self) -> Self {
        vstd::wrapping::i64_specs::wrapping_sub(self, other)
    }

    open spec fn sp_mul(self, other: Self) -> Self {
        vstd::wrapping::i64_specs::wrapping_mul(self, other)
    }

    proof fn lemma_add_zero(self) {
    }

    proof fn lemma_sub_zero(self) {
    }

    proof fn lemma_mul_zero(self) {
    }

    fn zero() -> (r: Self) {
        0i64
    }

    fn one() -> (r: Self) {
        1i64
    }

    fn add_val(self, other: Self) -> (r: Self) {
        self.wrapping_add(other)
    }

    fn sub_val(self, other: Self) -> (r: Self) {
        self.wrapping_sub(other)
    }

    fn mul_val(self, other: Self) -> (r: Self) {
        self.wrapping_mul(other)
    }

    fn eq_val(self, other: Self) -> (r: bool) {
        self == other
    }

    open spec fn text_spec(self) -> Seq<char> {
        if self >= 0 {
            dec_str(self as int)
        } else {
            seq!['-'] + dec_str(-(self as int))
        }
    }

    fn to_text(self) -> (r: Vec<char>) {
        if self >= 0 {
            dec_chars_u64(self as u64)
        } else {
            // The magnitude, computed without overflowing at the minimum.
            let mag: u64 = ((-(self + 1)) as u64) + 1;
            let digits = dec_chars_u64(mag);
            let mut v: Vec<char> = Vec::new();
            v.push('-');
            let mut k: usize = 0;
            let n = digits.len();
            while k < n
                invariant
                    n == digits@.len(),
                    0 <= k <= n,
                    v@ == seq!['-'] + digits@.take(k as int),
                decreases n - k,
            {
                let c = digits[k];
                v.push(c);
                proof {
                    assert(v@ =~= seq!['-'] + digits@.take(k as int + 1));
                }
                k = k + 1;
            }
            proof {
                assert(digits@.take(n as int) =~= digits@);
            }
            v
        }
    }
}

impl ValueType for i32 {
    open spec fn sp_zero() -> Self {
        0i32
    }

    open spec fn sp_one() -> Self {
        1i32
    }

    open spec fn sp_add(self, other: Self) -> Self {
        vstd::wrapping::i32_specs::wrapping_add(self, other)
    }

    open spec fn sp_sub(self, other: Self) -> Self {
        vstd::wrapping::i32_specs::wrapping_sub(self, other)
    }

    open spec fn sp_mul(self, other: Self) -> Self {
        vstd::wrapping::i32_specs::wrapping_mul(self, other)
    }

    proof fn lemma_add_zero(self) {
    }

    proof fn lemma_sub_zero(self) {
    }

    proof fn lemma_mul_zero(self) {
    }

    fn zero() -> (r: Self) {
        0i32
    }

    fn one() -> (r: Self) {
        1i32
    }

    fn add_val(self, other: Self) -> (r: Self) {
        self.wrapping_add(other)
    }

    fn sub_val(self, other: Self) -> (r: Self) {
        self.wrapping_sub(other)
    }

    fn mul_val(self, other: Self) -> (r: Self) {
        self.wrapping_mul(other)
    }

    fn eq_val(self, other: Self) -> (r: bool) {
        self == other
    }

    open spec fn text_spec(self) -> Seq<char> {
        if self >= 0 {
            dec_str(self as int)
        } else {
            seq!['-'] + dec_str(-(self as int))
        }
    }

    fn to_text(self) -> (r: Vec<char>) {
        if self >= 0 {
            dec_chars_u64(self as u64)
        } else {
            // The magnitude, computed without overflowing at the minimum.
            let mag: u64 = ((-(self + 1)) as u64) + 1;
            let digits = dec_chars_u64(mag);
            let mut v: Vec<char> = Vec::new();
            v.push('-');
            let mut k: usize = 0;
            let n = digits.len();
            while k < n
                invariant
                    n == digits@.len(),
                    0 <= k <= n,
                    v@ == seq!['-'] + digits@.take(k as int),
                decreases n - k,
            {
                let c = digits[k];
                v.push(c);
                proof {
                    assert(v@ =~= seq!['-'] + digits@.take(k as int + 1));
                }
                k = k + 1;
            }
            proof {
                assert(digits@.take(n as int) =~= digits@);
            }
            v
        }
    }
}

} // verus!
