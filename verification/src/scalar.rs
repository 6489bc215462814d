use vstd::prelude::*;

verus! {

/// An exact numeric type that vectors and matrices can hold. Each value
/// stands for an integer, `value`, within the type's range; every operation
/// states the integer it yields and asks that the result fit the type.
pub trait Scalar: Copy + Sized {
    /// The integer this value stands for.
    spec fn value(self) -> int;

    /// The least integer the type can hold.
    spec fn lowest() -> int;

    /// The greatest integer the type can hold.
    spec fn highest() -> int;

    /// Every value lies within the range, the range holds 0 and 1, and two
    /// values standing for the same integer are the same.
    proof fn lemma_range(x: Self)
        ensures
            Self::lowest() <= x.value() <= Self::highest(),
            Self::lowest() <= 0,
            1 <= Self::highest(),
    ;

    proof fn lemma_value_injective(x: Self, y: Self)
        requires
            x.value() == y.value(),
        ensures
            x == y,
    ;

    fn zero() -> (r: Self)
        ensures
            r.value() == 0,
    ;

    fn one() -> (r: Self)
        ensures
            r.value() == 1,
    ;

    fn plus(self, other: Self) -> (r: Self)
        requires
            Self::lowest() <= self.value() + other.value() <= Self::highest(),
        ensures
            r.value() == self.value() + other.value(),
    ;

    /// The sum, or `None` when it does not fit the type.
    fn checked_plus(self, other: Self) -> (r: Option<Self>)
        ensures
            r is Some <==> Self::lowest() <= self.value() + other.value() <= Self::highest(),
            r matches Some(x) ==> x.value() == self.value() + other.value(),
    ;

    fn minus(self, other: Self) -> (r: Self)
        requires
            Self::lowest() <= self.value() - other.value() <= Self::highest(),
        ensures
            r.value() == self.value() - other.value(),
    ;

    fn times(self, other: Self) -> (r: Self)
        requires
            Self::lowest() <= self.value() * other.value() <= Self::highest(),
        ensures
            r.value() == self.value() * other.value(),
    ;

    /// The absolute value.
    fn magnitude(self) -> (r: Self)
        requires
            -self.value() <= Self::highest(),
        ensures
            r.value() == abs(self.value()),
    ;

    fn less_than(self, other: Self) -> (r: bool)
        ensures
            r == (self.value() < other.value()),
    ;

    /// The greatest integer whose square is at most this value.
    fn floor_sqrt(self) -> (r: Self)
        requires
            self.value() >= 0,
        ensures
            r.value() >= 0,
            r.value() * r.value() <= self.value() < (r.value() + 1) * (r.value() + 1),
    ;
}

/// `|x|`.
pub open spec fn abs(x: int) -> int {
    if x < 0 { -x } else { x }
}

/// `r` is the integer square root of `n`.
pub open spec fn is_floor_sqrt(n: int, r: int) -> bool {
    r >= 0 && r * r <= n < (r + 1) * (r + 1)
}

/// The integer square root of a `u64`, by bisection.
fn floor_sqrt_u64(n: u64) -> (r: u64)
    ensures
        is_floor_sqrt(n as int, r as int),
{
    let mut lo: u64 = 0;
    let mut hi: u64 = 4294967295;
    assert((hi + 1) * (hi + 1) > u64::MAX) by (nonlinear_arith)
        requires
            hi == 4294967295u64,
    ;
    while lo < hi
        invariant
            lo <= hi <= 4294967295,
            lo * lo <= n,
            n < (hi + 1) * (hi + 1),
        decreases hi - lo,
    {
        let mid: u64 = lo + (hi - lo + 1) / 2;
        assert(mid * mid <= 4294967295u64 * 4294967295u64) by (nonlinear_arith)
            requires
                mid <= 4294967295u64,
        ;
        if mid * mid <= n {
            lo = mid;
        } else {
            hi = mid - 1;
        }
    }
    lo
}

/// Bounds for narrowing the square root of a value of a smaller type.
proof fn lemma_sqrt_below(n: int, r: int, bound: int)
    requires
        is_floor_sqrt(n, r),
        0 <= n <= bound,
        bound >= 0,
    ensures
        r <= n,
        r * r <= bound,
{
    assert(r <= n) by (nonlinear_arith)
        requires
            r >= 0,
            r * r <= n,
            n < (r + 1) * (r + 1),
    ;
}

impl Scalar for i32 {
    open spec fn value(self) -> int {
        self as int
    }

    open spec fn lowest() -> int {
        i32::MIN as int
    }

    open spec fn highest() -> int {
        i32::MAX as int
    }

    proof fn lemma_range(x: Self) {
    }

    proof fn lemma_value_injective(x: Self, y: Self) {
    }

    fn zero() -> (r: Self) {
        0
    }

    fn one() -> (r: Self) {
        1
    }

    fn plus(self, other: Self) -> (r: Self) {
        self + other
    }

    fn checked_plus(self, other: Self) -> (r: Option<Self>) {
        self.checked_add(other)
    }

    fn minus(self, other: Self) -> (r: Self) {
        self - other
    }

    fn times(self, other: Self) -> (r: Self) {
        self * other
    }

    fn magnitude(self) -> (r: Self) {
        if self < 0 { -self } else { self }
    }

    fn less_than(self, other: Self) -> (r: bool) {
        self < other
    }

    fn floor_sqrt(self) -> (r: Self) {
        let r = floor_sqrt_u64(self as u64);
        proof {
            lemma_sqrt_below(self as int, r as int, i32::MAX as int);
        }
        r as i32
    }
}

impl Scalar for i64 {
    open spec fn value(self) -> int {
        self as int
    }

    open spec fn lowest() -> int {
        i64::MIN as int
    }

    open spec fn highest() -> int {
        i64::MAX as int
    }

    proof fn lemma_range(x: Self) {
    }

    proof fn lemma_value_injective(x: Self, y: Self) {
    }

    fn zero() -> (r: Self) {
        0
    }

    fn one() -> (r: Self) {
        1
    }

    fn plus(self, other: Self) -> (r: Self) {
        self + other
    }

    fn checked_plus(self, other: Self) -> (r: Option<Self>) {
        self.checked_add(other)
    }

    fn minus(self, other: Self) -> (r: Self) {
        self - other
    }

    fn times(self, other: Self) -> (r: Self) {
        self * other
    }

    fn magnitude(self) -> (r: Self) {
        if self < 0 { -self } else { self }
    }

    fn less_than(self, other: Self) -> (r: bool) {
        self < other
    }

    fn floor_sqrt(self) -> (r: Self) {
        let r = floor_sqrt_u64(self as u64);
        proof {
            lemma_sqrt_below(self as int, r as int, i64::MAX as int);
        }
        r as i64
    }
}

impl Scalar for u32 {
    open spec fn value(self) -> int {
        self as int
    }

    open spec fn lowest() -> int {
        0
    }

    open spec fn highest() -> int {
        u32::MAX as int
    }

    proof fn lemma_range(x: Self) {
    }

    proof fn lemma_value_injective(x: Self, y: Self) {
    }

    fn zero() -> (r: Self) {
        0
    }

    fn one() -> (r: Self) {
        1
    }

    fn plus(self, other: Self) -> (r: Self) {
        self + other
    }

    fn checked_plus(self, other: Self) -> (r: Option<Self>) {
        self.checked_add(other)
    }

    fn minus(self, other: Self) -> (r: Self) {
        self - other
    }

    fn times(self, other: Self) -> (r: Self) {
        self * other
    }

    fn magnitude(self) -> (r: Self) {
        self
    }

    fn less_than(self, other: Self) -> (r: bool) {
        self < other
    }

    fn floor_sqrt(self) -> (r: Self) {
        let r = floor_sqrt_u64(self as u64);
        proof {
            lemma_sqrt_below(self as int, r as int, u32::MAX as int);
        }
        r as u32
    }
}

impl Scalar for u64 {
    open spec fn value(self) -> int {
        self as int
    }

    open spec fn lowest() -> int {
        0
    }

    open spec fn highest() -> int {
        u64::MAX as int
    }

    proof fn lemma_range(x: Self) {
    }

    proof fn lemma_value_injective(x: Self, y: Self) {
    }

    fn zero() -> (r: Self) {
        0
    }

    fn one() -> (r: Self) {
        1
    }

    fn plus(self, other: Self) -> (r: Self) {
        self + other
    }

    fn checked_plus(self, other: Self) -> (r: Option<Self>) {
        self.checked_add(other)
    }

    fn minus(self, other: Self) -> (r: Self) {
        self - other
    }

    fn times(self, other: Self) -> (r: Self) {
        self * other
    }

    fn magnitude(self) -> (r: Self) {
        self
    }

    fn less_than(self, other: Self) -> (r: bool) {
        self < other
    }

    fn floor_sqrt(self) -> (r: Self) {
        floor_sqrt_u64(self)
    }
}

} // verus!
