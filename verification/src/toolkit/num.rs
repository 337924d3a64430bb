//! The numbers that geometry is computed in.
//!
//! Layout and painting are written against [`Num`], so that they are the same
//! computation, operation by operation, whatever the numbers are: a window
//! computes in machine floats, [`Px`] computes in whole pixels.

use vstd::prelude::*;
use crate::text::{int_string, int_text, parse_int, parse_signed};

verus! {

/// A number type. Each operation is a function of its operands; which one, a type
/// says that is verified itself, as [`Px`] is.
pub trait Num: Copy {
    closed spec fn add_of(a: Self, b: Self) -> Self {
        arbitrary()
    }

    closed spec fn sub_of(a: Self, b: Self) -> Self {
        arbitrary()
    }

    closed spec fn mul_of(a: Self, b: Self) -> Self {
        arbitrary()
    }

    closed spec fn div_of(a: Self, b: Self) -> Self {
        arbitrary()
    }

    closed spec fn neg_of(a: Self) -> Self {
        arbitrary()
    }

    closed spec fn max_of(a: Self, b: Self) -> Self {
        arbitrary()
    }

    closed spec fn min_of(a: Self, b: Self) -> Self {
        arbitrary()
    }

    closed spec fn lt_of(a: Self, b: Self) -> bool {
        arbitrary()
    }

    closed spec fn le_of(a: Self, b: Self) -> bool {
        arbitrary()
    }

    closed spec fn eq_of(a: Self, b: Self) -> bool {
        arbitrary()
    }

    /// The constant `n / d`.
    closed spec fn ratio_of(n: int, d: int) -> Self {
        arbitrary()
    }

    /// A count as a number.
    closed spec fn count_of(n: nat) -> Self {
        arbitrary()
    }

    /// The number that a text gives.
    closed spec fn parse_of(s: Seq<char>) -> Option<Self> {
        arbitrary()
    }

    /// The nearest byte.
    closed spec fn byte_of(a: Self) -> u8 {
        arbitrary()
    }

    /// The whole part as an index; none is below zero.
    closed spec fn index_of(a: Self) -> usize {
        arbitrary()
    }

    /// The number as text.
    closed spec fn text_of(a: Self) -> Seq<char> {
        arbitrary()
    }

    fn plus(self, other: Self) -> (r: Self)
        ensures
            r == Self::add_of(self, other),
    ;

    fn minus(self, other: Self) -> (r: Self)
        ensures
            r == Self::sub_of(self, other),
    ;

    fn times(self, other: Self) -> (r: Self)
        ensures
            r == Self::mul_of(self, other),
    ;

    fn over(self, other: Self) -> (r: Self)
        ensures
            r == Self::div_of(self, other),
    ;

    fn negated(self) -> (r: Self)
        ensures
            r == Self::neg_of(self),
    ;

    fn greater_of(self, other: Self) -> (r: Self)
        ensures
            r == Self::max_of(self, other),
    ;

    fn lesser_of(self, other: Self) -> (r: Self)
        ensures
            r == Self::min_of(self, other),
    ;

    fn less(self, other: Self) -> (r: bool)
        ensures
            r == Self::lt_of(self, other),
    ;

    fn at_most(self, other: Self) -> (r: bool)
        ensures
            r == Self::le_of(self, other),
    ;

    fn same(self, other: Self) -> (r: bool)
        ensures
            r == Self::eq_of(self, other),
    ;

    fn ratio(n: i32, d: i32) -> (r: Self)
        requires
            d > 0,
        ensures
            r == Self::ratio_of(n as int, d as int),
    ;

    fn count(n: usize) -> (r: Self)
        ensures
            r == Self::count_of(n as nat),
    ;

    fn parse(s: &str) -> (r: Option<Self>)
        ensures
            r == Self::parse_of(s@),
    ;

    fn to_byte(self) -> (r: u8)
        ensures
            r == Self::byte_of(self),
    ;

    fn to_index(self) -> (r: usize)
        ensures
            r == Self::index_of(self),
    ;

    fn to_text(self) -> (r: String)
        ensures
            r@ == Self::text_of(self),
    ;
}

/// The whole number `n`.
pub open spec fn whole<N: Num>(n: int) -> N {
    N::ratio_of(n, 1)
}

/// The operations are those of the real numbers: `val` gives every number its
/// value, and no operation rounds. What holds of geometry in such numbers is what it
/// is meant to be; other number types come as near to it as they round.
pub open spec fn exact<N: Num>(val: spec_fn(N) -> real) -> bool {
    &&& forall|a: N, b: N|
        #![trigger N::add_of(a, b)]
        val(N::add_of(a, b)) == val(a) + val(b)
    &&& forall|a: N, b: N|
        #![trigger N::sub_of(a, b)]
        val(N::sub_of(a, b)) == val(a) - val(b)
    &&& forall|a: N, b: N|
        #![trigger N::mul_of(a, b)]
        val(N::mul_of(a, b)) == val(a) * val(b)
    &&& forall|a: N, b: N|
        #![trigger N::div_of(a, b)]
        val(b) != 0 as real ==> val(N::div_of(a, b)) == val(a) / val(b)
    &&& forall|a: N| #![trigger N::neg_of(a)] val(N::neg_of(a)) == -val(a)
    &&& forall|a: N, b: N|
        #![trigger N::max_of(a, b)]
        N::max_of(a, b) == if val(a) < val(b) {
            b
        } else {
            a
        }
    &&& forall|a: N, b: N|
        #![trigger N::min_of(a, b)]
        N::min_of(a, b) == if val(b) < val(a) {
            b
        } else {
            a
        }
    &&& forall|a: N, b: N| #![trigger N::lt_of(a, b)] N::lt_of(a, b) <==> val(a) < val(b)
    &&& forall|a: N, b: N| #![trigger N::le_of(a, b)] N::le_of(a, b) <==> val(a) <= val(b)
    &&& forall|a: N, b: N| #![trigger N::eq_of(a, b)] N::eq_of(a, b) <==> val(a) == val(b)
    &&& forall|n: int, d: int|
        #![trigger N::ratio_of(n, d)]
        d > 0 ==> val(N::ratio_of(n, d)) == n as real / d as real
    &&& forall|n: nat| #![trigger N::count_of(n)] val(N::count_of(n)) == n as real
    &&& forall|a: N|
        #![trigger N::byte_of(a)]
        0 as real <= val(a) && val(a) <= 255 as real ==> val(a) < (N::byte_of(a) as real)
            + 1 as real && (N::byte_of(a) as real) < val(a) + 1 as real
    &&& forall|a: N|
        #![trigger N::index_of(a)]
        0 as real <= val(a) && val(a) < usize::MAX as real ==> (N::index_of(a) as real) <= val(a)
            && val(a) < (N::index_of(a) as real) + 1 as real
    &&& forall|a: N| #![trigger N::index_of(a)] val(a) < 0 as real ==> N::index_of(a) == 0
    &&& forall|a: N|
        #![trigger N::index_of(a)]
        val(a) >= usize::MAX as real ==> N::index_of(a) == usize::MAX
}

/// A whole number's value.
pub proof fn lemma_whole<N: Num>(val: spec_fn(N) -> real, n: int)
    requires
        exact(val),
    ensures
        val(whole(n)) == n as real,
{
    assert(val(N::ratio_of(n, 1)) == n as real / 1 as real);
    let x = n as real;
    assert(x / 1 as real == x) by (nonlinear_arith);
}

/// `a` limited to the range from `lo` to `hi`.
pub open spec fn clamp_of<N: Num>(a: N, lo: N, hi: N) -> N {
    if N::lt_of(a, lo) {
        lo
    } else if N::lt_of(hi, a) {
        hi
    } else {
        a
    }
}

pub fn clamp<N: Num>(a: N, lo: N, hi: N) -> (r: N)
    ensures
        r == clamp_of(a, lo, hi),
{
    if a.less(lo) {
        lo
    } else if hi.less(a) {
        hi
    } else {
        a
    }
}

/// `a` on the way to `b`, `t` of the way along.
pub open spec fn mix_of<N: Num>(a: N, b: N, t: N) -> N {
    N::add_of(a, N::mul_of(N::sub_of(b, a), t))
}

pub fn mix<N: Num>(a: N, b: N, t: N) -> (r: N)
    ensures
        r == mix_of(a, b, t),
{
    a.plus(b.minus(a).times(t))
}

/// Whole pixels. A result that an `i32` cannot hold is the nearest one it can.
#[derive(Debug, Clone, Copy, PartialEq, Eq, Structural)]
pub struct Px(pub i32);

/// The nearest `i32`.
pub open spec fn saturated(n: int) -> int {
    if n < i32::MIN {
        i32::MIN as int
    } else if n > i32::MAX {
        i32::MAX as int
    } else {
        n
    }
}

/// Division that rounds towards zero; by zero, zero.
pub open spec fn quotient(a: int, b: int) -> int {
    if b == 0 {
        0
    } else if (a >= 0) == (b > 0) {
        magnitude(a) / magnitude(b)
    } else {
        -(magnitude(a) / magnitude(b))
    }
}

pub open spec fn magnitude(a: int) -> int {
    if a < 0 {
        -a
    } else {
        a
    }
}

fn saturate(n: i64) -> (r: Px)
    ensures
        r.0 as int == saturated(n as int),
{
    if n < -0x8000_0000 {
        Px(i32::MIN)
    } else if n > 0x7fff_ffff {
        Px(i32::MAX)
    } else {
        Px(n as i32)
    }
}

fn divide(a: i64, b: i64) -> (r: i64)
    requires
        -0x8000_0000 <= a <= 0x8000_0000,
        -0x8000_0000 <= b <= 0x8000_0000,
    ensures
        r as int == quotient(a as int, b as int),
        -0x8000_0000 <= r <= 0x8000_0000,
{
    if b == 0 {
        return 0;
    }
    let x: u64 = (if a < 0 {
        -a
    } else {
        a
    }) as u64;
    let y: u64 = (if b < 0 {
        -b
    } else {
        b
    }) as u64;
    assert(x / y <= x) by (nonlinear_arith)
        requires
            y > 0,
    ;
    let q: i64 = (x / y) as i64;
    if (a >= 0) == (b > 0) {
        q
    } else {
        -q
    }
}

impl Num for Px {
    open spec fn add_of(a: Px, b: Px) -> Px {
        Px(saturated(a.0 + b.0) as i32)
    }

    open spec fn sub_of(a: Px, b: Px) -> Px {
        Px(saturated(a.0 - b.0) as i32)
    }

    open spec fn mul_of(a: Px, b: Px) -> Px {
        Px(saturated(a.0 * b.0) as i32)
    }

    open spec fn div_of(a: Px, b: Px) -> Px {
        Px(saturated(quotient(a.0 as int, b.0 as int)) as i32)
    }

    open spec fn neg_of(a: Px) -> Px {
        Px(saturated(-(a.0 as int)) as i32)
    }

    open spec fn max_of(a: Px, b: Px) -> Px {
        if a.0 < b.0 {
            b
        } else {
            a
        }
    }

    open spec fn min_of(a: Px, b: Px) -> Px {
        if a.0 < b.0 {
            a
        } else {
            b
        }
    }

    open spec fn lt_of(a: Px, b: Px) -> bool {
        a.0 < b.0
    }

    open spec fn le_of(a: Px, b: Px) -> bool {
        a.0 <= b.0
    }

    open spec fn eq_of(a: Px, b: Px) -> bool {
        a == b
    }

    open spec fn ratio_of(n: int, d: int) -> Px {
        Px(saturated(quotient(n, d)) as i32)
    }

    open spec fn count_of(n: nat) -> Px {
        Px(saturated(n as int) as i32)
    }

    open spec fn parse_of(s: Seq<char>) -> Option<Px> {
        match parse_int(s) {
            Some(n) => Some(Px(n as i32)),
            None => None,
        }
    }

    open spec fn byte_of(a: Px) -> u8 {
        if a.0 < 0 {
            0
        } else if a.0 > 255 {
            255
        } else {
            a.0 as u8
        }
    }

    open spec fn index_of(a: Px) -> usize {
        if a.0 < 0 {
            0
        } else {
            a.0 as usize
        }
    }

    open spec fn text_of(a: Px) -> Seq<char> {
        int_text(a.0 as int)
    }

    fn plus(self, other: Px) -> (r: Px) {
        saturate(self.0 as i64 + other.0 as i64)
    }

    fn minus(self, other: Px) -> (r: Px) {
        saturate(self.0 as i64 - other.0 as i64)
    }

    fn times(self, other: Px) -> (r: Px) {
        let a: i64 = self.0 as i64;
        let b: i64 = other.0 as i64;
        assert(-0x4000_0000_0000_0000 <= a * b <= 0x4000_0000_0000_0000) by (nonlinear_arith)
            requires
                -0x8000_0000 <= a <= 0x7fff_ffff,
                -0x8000_0000 <= b <= 0x7fff_ffff,
        ;
        saturate(a * b)
    }

    fn over(self, other: Px) -> (r: Px) {
        saturate(divide(self.0 as i64, other.0 as i64))
    }

    fn negated(self) -> (r: Px) {
        saturate(-(self.0 as i64))
    }

    fn greater_of(self, other: Px) -> (r: Px) {
        if self.0 < other.0 {
            other
        } else {
            self
        }
    }

    fn lesser_of(self, other: Px) -> (r: Px) {
        if self.0 < other.0 {
            self
        } else {
            other
        }
    }

    fn less(self, other: Px) -> (r: bool) {
        self.0 < other.0
    }

    fn at_most(self, other: Px) -> (r: bool) {
        self.0 <= other.0
    }

    fn same(self, other: Px) -> (r: bool) {
        self.0 == other.0
    }

    fn ratio(n: i32, d: i32) -> (r: Px) {
        saturate(divide(n as i64, d as i64))
    }

    fn count(n: usize) -> (r: Px) {
        if n > 0x7fff_ffff {
            Px(i32::MAX)
        } else {
            Px(n as i32)
        }
    }

    fn parse(s: &str) -> (r: Option<Px>) {
        match parse_signed(s) {
            Some(n) => Some(Px(n)),
            None => None,
        }
    }

    fn to_byte(self) -> (r: u8) {
        if self.0 < 0 {
            0
        } else if self.0 > 255 {
            255
        } else {
            self.0 as u8
        }
    }

    fn to_index(self) -> (r: usize) {
        if self.0 < 0 {
            0
        } else {
            self.0 as usize
        }
    }

    fn to_text(self) -> (r: String) {
        int_string(self.0)
    }
}

} // verus!
