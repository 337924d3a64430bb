//! What computing in whole pixels comes to.
use vstd::prelude::*;

use crate::text_laws::law_number_reads_back;
use crate::toolkit::num::{magnitude, Num, Px};

verus! {

/// The number of whole pixels that is nearest to `n`.
pub open spec fn is_nearest(p: Px, n: int) -> bool {
    &&& i32::MIN <= n <= i32::MAX ==> p.0 == n
    &&& n > i32::MAX ==> p.0 == i32::MAX
    &&& n < i32::MIN ==> p.0 == i32::MIN
}

/// Sums, differences and products of pixels are those of the numbers, held to the
/// range of a pixel count.
pub proof fn law_pixels_compute_as_numbers(a: Px, b: Px, n: nat)
    ensures
        is_nearest(Px::add_of(a, b), a.0 + b.0),
        is_nearest(Px::sub_of(a, b), a.0 - b.0),
        is_nearest(Px::mul_of(a, b), a.0 * b.0),
        is_nearest(Px::neg_of(a), 0 - a.0),
        is_nearest(Px::count_of(n), n as int),
{
}

/// What is left over when `a` is divided by `b` into `q`: less than the divisor,
/// and on the same side of zero as `a`.
pub open spec fn divides_towards_zero(a: int, b: int, q: int) -> bool {
    let left = a - b * q;
    let size = if b < 0 {
        -b
    } else {
        b
    };
    if a >= 0 {
        0 <= left < size
    } else {
        -size < left <= 0
    }
}

/// Division of pixels rounds towards zero, and nothing comes of dividing by zero.
/// The one quotient that is out of range is held to it.
pub proof fn law_pixels_divide_towards_zero(a: Px, b: Px)
    ensures
        b.0 == 0 ==> Px::div_of(a, b) == Px(0),
        b.0 == -1 ==> is_nearest(Px::div_of(a, b), 0 - a.0),
        b.0 != 0 && !(a.0 == i32::MIN && b.0 == -1) ==> divides_towards_zero(
            a.0 as int,
            b.0 as int,
            Px::div_of(a, b).0 as int,
        ),
        Px::ratio_of(a.0 as int, b.0 as int) == Px::div_of(a, b),
{
    if b.0 != 0 {
        let x = magnitude(a.0 as int);
        let y = magnitude(b.0 as int);
        let k = x / y;
        vstd::arithmetic::div_mod::lemma_fundamental_div_mod(x, y);
        vstd::arithmetic::div_mod::lemma_mod_bound(x, y);
        assert(0 <= k <= x) by (nonlinear_arith)
            requires
                x == y * k + x % y,
                0 <= x % y < y,
                y >= 1,
                x >= 0,
        ;
        if y == 1 {
            assert(k == x) by (nonlinear_arith)
                requires
                    x == y * k + x % y,
                    0 <= x % y < y,
                    y == 1,
            ;
        } else {
            assert(2 * k <= x) by (nonlinear_arith)
                requires
                    x == y * k + x % y,
                    0 <= x % y,
                    y >= 2,
                    k >= 0,
            ;
        }
        assert((-y) * k == -(y * k)) by (nonlinear_arith);
        assert(y * (-k) == -(y * k)) by (nonlinear_arith);
        assert((-y) * (-k) == y * k) by (nonlinear_arith);
    }
}

/// The larger of two pixel counts is one of them and no smaller than either, the
/// smaller one no larger; each is compared as the number that it is.
pub proof fn law_pixels_are_ordered(a: Px, b: Px)
    ensures
        Px::lt_of(a, b) <==> a.0 < b.0,
        Px::le_of(a, b) <==> a.0 <= b.0,
        Px::eq_of(a, b) <==> a.0 == b.0,
        Px::max_of(a, b) == a || Px::max_of(a, b) == b,
        Px::max_of(a, b).0 >= a.0 && Px::max_of(a, b).0 >= b.0,
        Px::min_of(a, b) == a || Px::min_of(a, b) == b,
        Px::min_of(a, b).0 <= a.0 && Px::min_of(a, b).0 <= b.0,
{
}

/// As a byte or an index, a pixel count is held to the range that these have.
pub proof fn law_pixels_as_bytes_and_indices(a: Px)
    ensures
        0 <= a.0 <= 255 ==> Px::byte_of(a) == a.0,
        a.0 < 0 ==> Px::byte_of(a) == 0 && Px::index_of(a) == 0,
        a.0 > 255 ==> Px::byte_of(a) == 255,
        a.0 >= 0 ==> Px::index_of(a) == a.0,
{
}

/// A pixel count that is written out reads back as itself.
pub proof fn law_pixels_read_back(a: Px)
    ensures
        Px::parse_of(Px::text_of(a)) == Some(a),
{
    law_number_reads_back(a.0 as int);
}

} // verus!
