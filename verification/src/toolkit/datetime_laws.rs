//! What dates and times come to as texts and on the clock.
use vstd::prelude::*;

use crate::text::{
    all_digits, decimal, digits_value, is_digit, is_whitespace, lemma_decimal, lemma_digits_pad,
    lemma_pieces_cons, lemma_pieces_one, lemma_trimmed_noop, pad_zeros, pieces,
};
use crate::text_laws::law_padding_goes_in_front;
use crate::toolkit::datetime::{
    civil, date_of_text, date_text, datetime_text, day_number, is_moment, law_civil_is_valid,
    low_bits, time_of_text, time_text, valid_date, wrap_step,
};

verus! {

/// The digits of `cs` from `a` to `b` stand for `n`.
pub open spec fn shows_number(cs: Seq<char>, a: int, b: int, n: nat) -> bool {
    &&& 0 <= a < b <= cs.len()
    &&& all_digits(cs.subrange(a, b))
    &&& digits_value(cs.subrange(a, b)) == n
}

proof fn lemma_places(n: nat, width: nat)
    requires
        decimal(n).len() <= width,
    ensures
        pad_zeros(decimal(n), width).len() == width,
        all_digits(pad_zeros(decimal(n), width)),
        digits_value(pad_zeros(decimal(n), width)) == n,
{
    lemma_decimal(n);
    law_padding_goes_in_front(decimal(n), width);
    lemma_digits_pad(decimal(n), width);
}

proof fn lemma_short(n: nat)
    ensures
        n < 100 ==> decimal(n).len() <= 2,
        n < 10000 ==> decimal(n).len() <= 4,
{
    reveal_with_fuel(decimal, 4);
}

/// A date is written as its day, its month and its year, in two, two and four places,
/// with strokes between them.
pub proof fn law_date_is_day_month_year(y: nat, m: nat, d: nat)
    requires
        y < 10000,
        m < 100,
        d < 100,
    ensures
        ({
            let t = date_text(y as int, m, d);
            &&& t.len() == 10
            &&& t[2] == '/' && t[5] == '/'
            &&& shows_number(t, 0, 2, d)
            &&& shows_number(t, 3, 5, m)
            &&& shows_number(t, 6, 10, y)
        }),
{
    lemma_short(y);
    lemma_short(m);
    lemma_short(d);
    lemma_places(y, 4);
    lemma_places(m, 2);
    lemma_places(d, 2);
    let t = date_text(y as int, m, d);
    assert(t.subrange(0, 2) =~= pad_zeros(decimal(d), 2));
    assert(t.subrange(3, 5) =~= pad_zeros(decimal(m), 2));
    assert(t.subrange(6, 10) =~= pad_zeros(decimal(y), 4));
}

/// A time is written as its hour, its minute and, if asked for, its second, in two
/// places each, with colons between them.
pub proof fn law_time_is_hour_minute_second(h: nat, m: nat, s: nat, with_seconds: bool)
    requires
        h < 100,
        m < 100,
        s < 100,
    ensures
        ({
            let t = time_text(h, m, s, with_seconds);
            &&& shows_number(t, 0, 2, h)
            &&& t[2] == ':'
            &&& shows_number(t, 3, 5, m)
            &&& !with_seconds ==> t.len() == 5
            &&& with_seconds ==> t.len() == 8 && t[5] == ':' && shows_number(t, 6, 8, s)
        }),
{
    lemma_short(h);
    lemma_short(m);
    lemma_short(s);
    lemma_places(h, 2);
    lemma_places(m, 2);
    lemma_places(s, 2);
    let t = time_text(h, m, s, with_seconds);
    assert(t.subrange(0, 2) =~= pad_zeros(decimal(h), 2));
    assert(t.subrange(3, 5) =~= pad_zeros(decimal(m), 2));
    if with_seconds {
        assert(t.subrange(6, 8) =~= pad_zeros(decimal(s), 2));
    }
}

/// A date with a time is the date, a space and the time.
pub proof fn law_date_stands_before_time(
    y: nat,
    mo: nat,
    d: nat,
    h: nat,
    mi: nat,
    s: nat,
    with_seconds: bool,
)
    requires
        y < 10000,
        mo < 100,
        d < 100,
    ensures
        ({
            let t = datetime_text(y as int, mo, d, h, mi, s, with_seconds);
            &&& t.take(10) == date_text(y as int, mo, d)
            &&& t[10] == ' '
            &&& t.skip(11) == time_text(h, mi, s, with_seconds)
        }),
{
    law_date_is_day_month_year(y, mo, d);
    let t = datetime_text(y as int, mo, d, h, mi, s, with_seconds);
    assert(t.take(10) =~= date_text(y as int, mo, d));
    assert(t.skip(11) =~= time_text(h, mi, s, with_seconds));
}

/// A text of digits, as they are typed.
pub open spec fn is_typed_number(cs: Seq<char>) -> bool {
    0 < cs.len() && all_digits(cs) && digits_value(cs) <= i32::MAX
}

proof fn lemma_typed(cs: Seq<char>, sep: char)
    requires
        is_typed_number(cs),
        !is_digit(sep),
    ensures
        forall|k: int| 0 <= k < cs.len() ==> #[trigger] cs[k] != sep && !is_whitespace(cs[k]),
        crate::text::trimmed(cs) == cs,
        cs[0] != '-' && cs[0] != '+',
{
    assert forall|k: int| 0 <= k < cs.len() implies #[trigger] cs[k] != sep && !is_whitespace(
        cs[k],
    ) by {
        assert(is_digit(cs[k]));
    }
    assert(is_digit(cs[0]));
    lemma_trimmed_noop(cs);
}

/// Three numbers with strokes between them are read as a day, a month and a year, if
/// there is such a date.
pub proof fn law_date_is_read_day_first(d: Seq<char>, m: Seq<char>, y: Seq<char>)
    requires
        is_typed_number(d),
        is_typed_number(m),
        is_typed_number(y),
    ensures
        ({
            let date = (digits_value(y) as int, digits_value(m) as int, digits_value(d) as int);
            date_of_text(d + seq!['/'] + (m + seq!['/'] + y)) == if valid_date(
                date.0,
                date.1,
                date.2,
            ) {
                Some(date)
            } else {
                None
            }
        }),
{
    let t = d + seq!['/'] + (m + seq!['/'] + y);
    lemma_typed(d, '/');
    lemma_typed(m, '/');
    lemma_typed(y, '/');
    assert(t[0] == d[0]);
    assert(t.last() == y.last());
    lemma_trimmed_noop(t);
    lemma_pieces_cons(d, m + seq!['/'] + y, '/');
    lemma_pieces_cons(m, y, '/');
    lemma_pieces_one(y, '/');
    assert(pieces(t, '/') =~= seq![d, m, y]);
}

/// Two or three numbers with colons between them are read as an hour, a minute and a
/// second, if there is such a time.
pub proof fn law_time_is_read_hour_first(h: Seq<char>, m: Seq<char>, s: Seq<char>)
    requires
        is_typed_number(h),
        is_typed_number(m),
        is_typed_number(s),
    ensures
        ({
            let time = (digits_value(h), digits_value(m), digits_value(s));
            let short = (digits_value(h), digits_value(m), 0nat);
            &&& time_of_text(h + seq![':'] + (m + seq![':'] + s)) == if time.0 < 24 && time.1 < 60
                && time.2 < 60 {
                Some(time)
            } else {
                None
            }
            &&& time_of_text(h + seq![':'] + m) == if time.0 < 24 && time.1 < 60 {
                Some(short)
            } else {
                None
            }
        }),
{
    let t = h + seq![':'] + (m + seq![':'] + s);
    let u = h + seq![':'] + m;
    lemma_typed(h, ':');
    lemma_typed(m, ':');
    lemma_typed(s, ':');
    assert(t[0] == h[0] && u[0] == h[0]);
    assert(t.last() == s.last());
    assert(u.last() == m.last());
    lemma_trimmed_noop(t);
    lemma_trimmed_noop(u);
    lemma_pieces_cons(h, m + seq![':'] + s, ':');
    lemma_pieces_cons(m, s, ':');
    lemma_pieces_one(s, ':');
    lemma_pieces_cons(h, m, ':');
    lemma_pieces_one(m, ':');
    assert(pieces(t, ':') =~= seq![h, m, s]);
    assert(pieces(u, ':') =~= seq![h, m]);
}

proof fn lemma_year_kept(y: int)
    requires
        i32::MIN <= y <= i32::MAX,
    ensures
        low_bits(y) == y,
{
}

proof fn lemma_seconds_add_up(total: int, days: int, rest: int)
    requires
        days == total / 86400,
        rest == total % 86400,
    ensures
        days * 86400 + rest == total,
{
}

/// The moment that a count of seconds gives is a date and a time of day, and as many
/// seconds after the first moment of all; its year has to be one that can be held.
#[verifier::spinoff_prover]
#[verifier::rlimit(60)]
pub proof fn law_moment_counts_the_seconds(total: int, t: (i32, u32, u32, u32, u32, u32))
    requires
        is_moment(total, t),
        i32::MIN <= civil(total / 86400).0 <= i32::MAX,
    ensures
        valid_date(t.0 as int, t.1 as int, t.2 as int),
        t.3 < 24 && t.4 < 60 && t.5 < 60,
        day_number(t.0 as int, t.1 as int, t.2 as int) * 86400 + (t.3 * 3600 + t.4 * 60 + t.5)
            == total,
{
    let z = total / 86400;
    law_civil_is_valid(z);
    let c = civil(z);
    lemma_year_kept(c.0);
    lemma_seconds_add_up(total, z, t.3 * 3600 + t.4 * 60 + t.5);
}

/// A step moves a unit by as much as it says, and from one end of its range on to the
/// other.
pub proof fn law_step_moves_round(v: int, delta: int, bound: int)
    requires
        0 <= v < bound,
    ensures
        0 <= wrap_step(v, delta, bound) < bound,
        0 <= v + delta < bound ==> wrap_step(v, delta, bound) == v + delta,
        bound <= v + delta < 2 * bound ==> wrap_step(v, delta, bound) == v + delta - bound,
        -bound <= v + delta < 0 ==> wrap_step(v, delta, bound) == v + delta + bound,
{
    if 0 <= v + delta < bound {
        vstd::arithmetic::div_mod::lemma_small_mod((v + delta) as nat, bound as nat);
    }
    if bound <= v + delta < 2 * bound {
        vstd::arithmetic::div_mod::lemma_fundamental_div_mod_converse(
            v + delta,
            bound,
            1,
            v + delta - bound,
        );
    }
    if -bound <= v + delta < 0 {
        vstd::arithmetic::div_mod::lemma_fundamental_div_mod_converse(
            v + delta,
            bound,
            -1,
            v + delta + bound,
        );
    }
    vstd::arithmetic::div_mod::lemma_mod_bound(v + delta, bound);
}

} // verus!
