//! What holds of the theme's scales and curves.

use vstd::prelude::*;
use vstd::string::*;
use crate::text::next_sep;
use crate::toolkit::geometry::{color_of_hex, hex_value, shorthand, Color};
use crate::toolkit::num::{exact, lemma_whole, whole, Num};
use crate::toolkit::tailwind::{
    breakpoint_of, eased, font_size_of, font_weight_of, fraction_of, leading_of,
    opacity_of, radius_of, spacing_of, tracking_of, Easing,
};

verus! {

// ---- numbers in tokens ----

/// One unit of the spacing scale is 4 px, and `px` is one pixel; what is no number names no
/// spacing.
pub proof fn law_spacing_unit_is_four_pixels<N: Num>(val: spec_fn(N) -> real, token: Seq<char>)
    requires
        exact(val),
    ensures
        token == "px"@ ==> spacing_of::<N>(token) is Some && val(spacing_of::<N>(token)->0)
            == 1 as real,
        token != "px"@ ==> (spacing_of::<N>(token) is Some <==> N::parse_of(token) is Some),
        token != "px"@ && N::parse_of(token) is Some ==> val(spacing_of::<N>(token)->0) == val(
            N::parse_of(token)->0,
        ) * 4 as real,
{
    lemma_whole::<N>(val, 1);
    lemma_whole::<N>(val, 4);
}

/// A fraction is what stands before the slash, divided by what stands after it; there is
/// none without a slash, or over zero.
pub proof fn law_fraction_is_a_quotient<N: Num>(
    val: spec_fn(N) -> real,
    over: Seq<char>,
    under: Seq<char>,
)
    requires
        exact(val),
        !over.contains('/'),
    ensures
        fraction_of::<N>(over) is None,
        ({
            let f = fraction_of::<N>(over + seq!['/'] + under);
            let (a, b) = (N::parse_of(over), N::parse_of(under));
            &&& f is Some <==> a is Some && b is Some && val(b->0) != 0 as real
            &&& f is Some ==> val(f->0) * val(b->0) == val(a->0)
        }),
{
    lemma_whole::<N>(val, 0);
    let token = over + seq!['/'] + under;
    lemma_no_slash(over, 0);
    lemma_slash_at(token, 0, over.len() as int);
    assert(token.take(over.len() as int) =~= over);
    assert(token.skip((over.len() + 1) as int) =~= under);
    let f = fraction_of::<N>(token);
    if f is Some {
        let (a, b) = (val(N::parse_of(over)->0), val(N::parse_of(under)->0));
        assert((a / b) * b == a) by (nonlinear_arith)
            requires
                b != 0 as real,
        ;
    }
}

proof fn lemma_no_slash(cs: Seq<char>, i: int)
    requires
        0 <= i <= cs.len(),
        !cs.contains('/'),
    ensures
        next_sep(cs, i, '/') >= cs.len(),
    decreases cs.len() - i,
{
    if i < cs.len() {
        assert(cs.contains(cs[i]));
        lemma_no_slash(cs, i + 1);
    }
}

proof fn lemma_slash_at(cs: Seq<char>, i: int, at: int)
    requires
        0 <= i <= at < cs.len(),
        cs[at] == '/',
        forall|k: int| i <= k < at ==> #[trigger] cs[k] != '/',
    ensures
        next_sep(cs, i, '/') == at,
    decreases at - i,
{
    if i < at {
        lemma_slash_at(cs, i + 1, at);
    }
}

/// An opacity is a percentage: from 0 to 100 it is that many hundredths, and beyond that the
/// nearest of nothing and all.
pub proof fn law_opacity_is_a_percentage<N: Num>(val: spec_fn(N) -> real, token: Seq<char>)
    requires
        exact(val),
    ensures
        opacity_of::<N>(token) is Some <==> N::parse_of(token) is Some,
        N::parse_of(token) matches Some(n) ==> {
            let o = val(opacity_of::<N>(token)->0);
            &&& 0 as real <= val(n) && val(n) <= 100 as real ==> o * 100 as real == val(n)
            &&& val(n) < 0 as real ==> o == 0 as real
            &&& val(n) > 100 as real ==> o == 1 as real
        },
{
    lemma_whole::<N>(val, 0);
    lemma_whole::<N>(val, 1);
    lemma_whole::<N>(val, 100);
}

// ---- curves ----

/// Every curve starts at nothing and ends at all, and never goes back. `In` stays under the
/// straight line and `Out` over it; `InOut` is the same read from either end.
pub proof fn law_easing_goes_from_start_to_end<N: Num>(
    val: spec_fn(N) -> real,
    easing: Easing,
    s: N,
    t: N,
)
    requires
        exact(val),
        val(s) <= val(t),
    ensures
        val(eased(easing, s)) <= val(eased(easing, t)),
        val(s) <= 0 as real ==> val(eased(easing, s)) == 0 as real,
        val(t) >= 1 as real ==> val(eased(easing, t)) == 1 as real,
        0 as real <= val(s) && val(s) <= 1 as real ==> {
            &&& val(eased(Easing::Linear, s)) == val(s)
            &&& val(eased(Easing::In, s)) == val(s) * val(s)
            &&& val(eased(Easing::In, s)) <= val(s)
            &&& val(s) <= val(eased(Easing::Out, s))
            &&& val(t) == 1 as real - val(s) ==> val(eased(Easing::InOut, s)) + val(
                eased(Easing::InOut, t),
            ) == 1 as real && val(eased(Easing::Out, t)) == 1 as real - val(eased(Easing::In, s))
        },
{
    lemma_eased(val, easing, s);
    lemma_eased(val, easing, t);
    lemma_eased(val, Easing::Linear, s);
    lemma_eased(val, Easing::In, s);
    lemma_eased(val, Easing::Out, s);
    lemma_eased(val, Easing::InOut, s);
    lemma_eased(val, Easing::Out, t);
    lemma_eased(val, Easing::InOut, t);
    let (a, b) = (limited(val(s)), limited(val(t)));
    let one = 1 as real;
    assert(a * a <= b * b && (one - b) * (one - b) <= (one - a) * (one - a) && a * a <= a && (one
        - a) * (one - a) <= one - a && a * b <= b * b) by (nonlinear_arith)
        requires
            0 as real <= a <= b <= 1 as real,
            one == 1 as real,
    ;
    let half = 1 as real / 2 as real;
    assert(a <= half ==> 2 as real * a * a <= half) by (nonlinear_arith)
        requires
            0 as real <= a,
            half == 1 as real / 2 as real,
    ;
    assert(b >= half ==> 2 as real * (one - b) * (one - b) <= half) by (nonlinear_arith)
        requires
            b <= 1 as real,
            one == 1 as real,
            half == 1 as real / 2 as real,
    ;
    assert(2 as real * a * a == 2 as real * (a * a)) by (nonlinear_arith);
    assert(2 as real * b * b == 2 as real * (b * b)) by (nonlinear_arith);
    assert(2 as real * (one - a) * (one - a) == 2 as real * ((one - a) * (one - a)))
        by (nonlinear_arith);
    assert(2 as real * (one - b) * (one - b) == 2 as real * ((one - b) * (one - b)))
        by (nonlinear_arith);
    if b == one - a {
        assert((one - b) * (one - b) == a * a) by (nonlinear_arith)
            requires
                b == one - a,
        ;
    }
    if a == half {
        assert((one - a) * (one - a) == a * a && 4 as real * (a * a) == 1 as real)
            by (nonlinear_arith)
            requires
                a == half,
                one == 1 as real,
                half == 1 as real / 2 as real,
        ;
    }
    if a == 0 as real {
        assert(a * a == 0 as real) by (nonlinear_arith)
            requires
                a == 0 as real,
        ;
        assert((one - a) * (one - a) == 1 as real) by (nonlinear_arith)
            requires
                a == 0 as real,
                one == 1 as real,
        ;
    }
    if b == 1 as real {
        assert(b * b == 1 as real) by (nonlinear_arith)
            requires
                b == 1 as real,
        ;
        assert((one - b) * (one - b) == 0 as real) by (nonlinear_arith)
            requires
                b == 1 as real,
                one == 1 as real,
        ;
    }
}

/// `t`, or the nearest of 0 and 1.
pub open spec fn limited(t: real) -> real {
    if t < 0 as real {
        0 as real
    } else if t > 1 as real {
        1 as real
    } else {
        t
    }
}

proof fn lemma_eased<N: Num>(val: spec_fn(N) -> real, easing: Easing, t: N)
    requires
        exact(val),
    ensures
        ({
            let u = limited(val(t));
            let one = 1 as real;
            val(eased(easing, t)) == match easing {
                Easing::Linear => u,
                Easing::In => u * u,
                Easing::Out => one - (one - u) * (one - u),
                Easing::InOut => if u < one / 2 as real {
                    2 as real * u * u
                } else {
                    one - 2 as real * (one - u) * (one - u)
                },
            }
        }),
{
    lemma_whole::<N>(val, 0);
    lemma_whole::<N>(val, 1);
    lemma_whole::<N>(val, 2);
    lemma_whole::<N>(val, -2);
    let u = limited(val(t));
    let one = 1 as real;
    let w = (-2) as real * u + 2 as real;
    assert((w * w) / (2 as real) == 2 as real * (one - u) * (one - u)) by (nonlinear_arith)
        requires
            w == (-2) as real * u + 2 as real,
            one == 1 as real,
    ;
}

// ---- colors and sides ----

/// The hexadecimal digit of a number below 16.
pub open spec fn hex_digit(v: int) -> char {
    if v < 10 {
        (48 + v) as char
    } else {
        (87 + v) as char
    }
}

/// A color's hexadecimal digits name that color, with or without `#`.
pub proof fn law_hex_digits_name_the_color(c: Color)
    requires
        c.a == 255,
    ensures
        ({
            let six = seq![
                hex_digit(c.r as int / 16),
                hex_digit(c.r as int % 16),
                hex_digit(c.g as int / 16),
                hex_digit(c.g as int % 16),
                hex_digit(c.b as int / 16),
                hex_digit(c.b as int % 16),
            ];
            &&& color_of_hex(six) == Some(c)
            &&& color_of_hex(seq!['#'] + six) == Some(c)
        }),
{
    let six = seq![
        hex_digit(c.r as int / 16),
        hex_digit(c.r as int % 16),
        hex_digit(c.g as int / 16),
        hex_digit(c.g as int % 16),
        hex_digit(c.b as int / 16),
        hex_digit(c.b as int % 16),
    ];
    lemma_hex_digit(c.r as int / 16);
    lemma_hex_digit(c.r as int % 16);
    lemma_hex_digit(c.g as int / 16);
    lemma_hex_digit(c.g as int % 16);
    lemma_hex_digit(c.b as int / 16);
    lemma_hex_digit(c.b as int % 16);
    assert((seq!['#'] + six).skip(1) =~= six);
}

/// A short form of three digits repeats each of them.
pub proof fn law_short_hex_repeats_its_digits(x: char, y: char, z: char)
    requires
        x != '#',
    ensures
        color_of_hex(seq![x, y, z]) == color_of_hex(seq![x, x, y, y, z, z]),
        color_of_hex(seq!['#'] + seq![x, y, z]) == color_of_hex(seq![x, x, y, y, z, z]),
{
    assert((seq!['#'] + seq![x, y, z]).skip(1) =~= seq![x, y, z]);
}

proof fn lemma_hex_digit(v: int)
    requires
        0 <= v < 16,
    ensures
        hex_value(hex_digit(v)) == Some(v),
        hex_digit(v) != '#',
{
}

/// Four values are the sides clockwise from the top. With fewer, a side that is left out is
/// that opposite to it, and the right side the top.
pub proof fn law_shorthand_goes_clockwise<N: Num>(a: N, b: N, c: N, d: N)
    ensures
        shorthand(seq![a, b, c, d]).top == a,
        shorthand(seq![a, b, c, d]).right == b,
        shorthand(seq![a, b, c, d]).bottom == c,
        shorthand(seq![a, b, c, d]).left == d,
        shorthand(seq![a, b, c]) == shorthand(seq![a, b, c, b]),
        shorthand(seq![a, b]) == shorthand(seq![a, b, a, b]),
        shorthand(seq![a]) == shorthand(seq![a, a, a, a]),
{
}

// ---- scales ----

/// The names of the font sizes, the corner radii, the font weights, the line heights, the
/// letter spacings and the breakpoints, from the smallest to the largest.
pub open spec fn font_sizes() -> Seq<Seq<char>> {
    seq![
        "xs"@,
        "sm"@,
        "base"@,
        "lg"@,
        "xl"@,
        "2xl"@,
        "3xl"@,
        "4xl"@,
        "5xl"@,
        "6xl"@,
        "7xl"@,
        "8xl"@,
        "9xl"@,
    ]
}

pub open spec fn radii() -> Seq<Seq<char>> {
    seq![
        "none"@,
        "sm"@,
        "default"@,
        "md"@,
        "lg"@,
        "xl"@,
        "2xl"@,
        "3xl"@,
        "full"@,
    ]
}

pub open spec fn weights() -> Seq<Seq<char>> {
    seq![
        "thin"@,
        "extralight"@,
        "light"@,
        "normal"@,
        "medium"@,
        "semibold"@,
        "bold"@,
        "extrabold"@,
        "black"@,
    ]
}

pub open spec fn leadings() -> Seq<Seq<char>> {
    seq![
        "none"@,
        "tight"@,
        "snug"@,
        "normal"@,
        "relaxed"@,
        "loose"@,
    ]
}

pub open spec fn trackings() -> Seq<Seq<char>> {
    seq![
        "tighter"@,
        "tight"@,
        "normal"@,
        "wide"@,
        "wider"@,
        "widest"@,
    ]
}

pub open spec fn breakpoints() -> Seq<Seq<char>> {
    seq![
        "sm"@,
        "md"@,
        "lg"@,
        "xl"@,
        "2xl"@,
    ]
}

/// Font sizes grow along their scale, and a line is never lower than its font.
#[verifier::rlimit(60)]
pub proof fn law_font_sizes_grow<N: Num>(val: spec_fn(N) -> real, i: int, j: int)
    requires
        exact(val),
        0 <= i < j < font_sizes().len(),
    ensures
        font_size_of::<N>(font_sizes()[i]) matches Some(a) && font_size_of::<N>(
            font_sizes()[j],
        ) matches Some(b) && val(a.0) < val(b.0) && val(a.1) <= val(b.1) && val(a.0) <= val(a.1)
            && val(b.0) <= val(b.1),
{
    lemma_font_size(val, i);
    lemma_font_size(val, j);
}

spec fn font_px(i: int) -> (int, int) {
    if i == 0 {
        (12int, 16int)
    } else if i == 1 {
        (14int, 20int)
    } else if i == 2 {
        (16int, 24int)
    } else if i == 3 {
        (18int, 28int)
    } else if i == 4 {
        (20int, 28int)
    } else if i == 5 {
        (24int, 32int)
    } else if i == 6 {
        (30int, 36int)
    } else if i == 7 {
        (36int, 40int)
    } else if i == 8 {
        (48int, 48int)
    } else if i == 9 {
        (60int, 60int)
    } else if i == 10 {
        (72int, 72int)
    } else if i == 11 {
        (96int, 96int)
    } else {
        (128int, 128int)
    }
}

#[verifier::rlimit(60)]
proof fn lemma_font_size<N: Num>(val: spec_fn(N) -> real, i: int)
    requires
        exact(val),
        0 <= i < font_sizes().len(),
    ensures
        font_size_of::<N>(font_sizes()[i]) == Some((whole::<N>(font_px(i).0), whole::<N>(font_px(i).1))),
        val(whole::<N>(font_px(i).0)) == font_px(i).0 as real,
        val(whole::<N>(font_px(i).1)) == font_px(i).1 as real,
{
    reveal_strlit("xs");
    assert("xs"@.len() == 2 && "xs"@[0] == 'x' && "xs"@[1] == 's');
    reveal_strlit("sm");
    assert("sm"@.len() == 2 && "sm"@[0] == 's' && "sm"@[1] == 'm');
    reveal_strlit("base");
    assert("base"@.len() == 4 && "base"@[0] == 'b' && "base"@[3] == 'e');
    reveal_strlit("lg");
    assert("lg"@.len() == 2 && "lg"@[0] == 'l' && "lg"@[1] == 'g');
    reveal_strlit("xl");
    assert("xl"@.len() == 2 && "xl"@[0] == 'x' && "xl"@[1] == 'l');
    reveal_strlit("2xl");
    assert("2xl"@.len() == 3 && "2xl"@[0] == '2' && "2xl"@[2] == 'l');
    reveal_strlit("3xl");
    assert("3xl"@.len() == 3 && "3xl"@[0] == '3' && "3xl"@[2] == 'l');
    reveal_strlit("4xl");
    assert("4xl"@.len() == 3 && "4xl"@[0] == '4' && "4xl"@[2] == 'l');
    reveal_strlit("5xl");
    assert("5xl"@.len() == 3 && "5xl"@[0] == '5' && "5xl"@[2] == 'l');
    reveal_strlit("6xl");
    assert("6xl"@.len() == 3 && "6xl"@[0] == '6' && "6xl"@[2] == 'l');
    reveal_strlit("7xl");
    assert("7xl"@.len() == 3 && "7xl"@[0] == '7' && "7xl"@[2] == 'l');
    reveal_strlit("8xl");
    assert("8xl"@.len() == 3 && "8xl"@[0] == '8' && "8xl"@[2] == 'l');
    reveal_strlit("9xl");
    assert("9xl"@.len() == 3 && "9xl"@[0] == '9' && "9xl"@[2] == 'l');
    lemma_whole::<N>(val, font_px(i).0);
    lemma_whole::<N>(val, font_px(i).1);
}

/// Radii grow along their scale from none; the bare name is the default one.
#[verifier::rlimit(40)]
pub proof fn law_radii_grow<N: Num>(val: spec_fn(N) -> real, i: int, j: int)
    requires
        exact(val),
        0 <= i < j < radii().len(),
    ensures
        radius_of::<N>(radii()[i]) matches Some(a) && radius_of::<N>(radii()[j]) matches Some(b)
            && val(a) < val(b) && val(a) >= 0 as real,
        val(radius_of::<N>("none"@)->0) == 0 as real,
        radius_of::<N>(""@) == radius_of::<N>("default"@),
{
    reveal_strlit("none");
    assert("none"@.len() == 4 && "none"@[0] == 'n' && "none"@[3] == 'e');
    reveal_strlit("sm");
    assert("sm"@.len() == 2 && "sm"@[0] == 's' && "sm"@[1] == 'm');
    reveal_strlit("default");
    assert("default"@.len() == 7 && "default"@[0] == 'd' && "default"@[6] == 't');
    reveal_strlit("md");
    assert("md"@.len() == 2 && "md"@[0] == 'm' && "md"@[1] == 'd');
    reveal_strlit("lg");
    assert("lg"@.len() == 2 && "lg"@[0] == 'l' && "lg"@[1] == 'g');
    reveal_strlit("xl");
    assert("xl"@.len() == 2 && "xl"@[0] == 'x' && "xl"@[1] == 'l');
    reveal_strlit("2xl");
    assert("2xl"@.len() == 3 && "2xl"@[0] == '2' && "2xl"@[2] == 'l');
    reveal_strlit("3xl");
    assert("3xl"@.len() == 3 && "3xl"@[0] == '3' && "3xl"@[2] == 'l');
    reveal_strlit("full");
    assert("full"@.len() == 4 && "full"@[0] == 'f' && "full"@[3] == 'l');
    reveal_strlit("");
    assert(""@.len() == 0);
    lemma_whole::<N>(val, 0);
    lemma_whole::<N>(val, 4);
    lemma_whole::<N>(val, 6);
    lemma_whole::<N>(val, 8);
    lemma_whole::<N>(val, 12);
    lemma_whole::<N>(val, 16);
    lemma_whole::<N>(val, 24);
    lemma_whole::<N>(val, 32);
    lemma_whole::<N>(val, 9999);
}

/// Weights grow by 100 along their scale.
pub proof fn law_weights_grow(i: int)
    requires
        0 <= i < weights().len(),
    ensures
        font_weight_of(weights()[i]) == Some(((i + 1) * 100) as u16),
{
    reveal_strlit("thin");
    assert("thin"@.len() == 4 && "thin"@[0] == 't' && "thin"@[3] == 'n');
    reveal_strlit("extralight");
    assert("extralight"@.len() == 10 && "extralight"@[0] == 'e' && "extralight"@[9] == 't');
    reveal_strlit("light");
    assert("light"@.len() == 5 && "light"@[0] == 'l' && "light"@[4] == 't');
    reveal_strlit("normal");
    assert("normal"@.len() == 6 && "normal"@[0] == 'n' && "normal"@[5] == 'l');
    reveal_strlit("medium");
    assert("medium"@.len() == 6 && "medium"@[0] == 'm' && "medium"@[5] == 'm');
    reveal_strlit("semibold");
    assert("semibold"@.len() == 8 && "semibold"@[0] == 's' && "semibold"@[7] == 'd');
    reveal_strlit("bold");
    assert("bold"@.len() == 4 && "bold"@[0] == 'b' && "bold"@[3] == 'd');
    reveal_strlit("extrabold");
    assert("extrabold"@.len() == 9 && "extrabold"@[0] == 'e' && "extrabold"@[8] == 'd');
    reveal_strlit("black");
    assert("black"@.len() == 5 && "black"@[0] == 'b' && "black"@[4] == 'k');
}

/// Line heights grow along their scale, from the font's own size to twice that; a token that
/// names none is a spacing.
#[verifier::rlimit(40)]
pub proof fn law_leadings_grow<N: Num>(val: spec_fn(N) -> real, size: N, i: int, j: int)
    requires
        exact(val),
        val(size) > 0 as real,
        0 <= i < j < leadings().len(),
    ensures
        leading_of::<N>(leadings()[i], size) matches Some(a) && leading_of::<N>(
            leadings()[j],
            size,
        ) matches Some(b) && val(a) < val(b),
        val(leading_of::<N>("none"@, size)->0) == val(size),
        val(leading_of::<N>("loose"@, size)->0) == val(size) * 2 as real,
        forall|token: Seq<char>|
            !leadings().contains(token) ==> #[trigger] leading_of::<N>(token, size) == spacing_of::<
                N,
            >(token),
{
    reveal_strlit("none");
    assert("none"@.len() == 4 && "none"@[0] == 'n' && "none"@[3] == 'e');
    reveal_strlit("tight");
    assert("tight"@.len() == 5 && "tight"@[0] == 't' && "tight"@[4] == 't');
    reveal_strlit("snug");
    assert("snug"@.len() == 4 && "snug"@[0] == 's' && "snug"@[3] == 'g');
    reveal_strlit("normal");
    assert("normal"@.len() == 6 && "normal"@[0] == 'n' && "normal"@[5] == 'l');
    reveal_strlit("relaxed");
    assert("relaxed"@.len() == 7 && "relaxed"@[0] == 'r' && "relaxed"@[6] == 'd');
    reveal_strlit("loose");
    assert("loose"@.len() == 5 && "loose"@[0] == 'l' && "loose"@[4] == 'e');
    lemma_whole::<N>(val, 1);
    lemma_whole::<N>(val, 2);
    let s = val(size);
    assert(s * (1 as real) < s * (5 as real / 4 as real) && s * (5 as real / 4 as real) < s * (
    11 as real / 8 as real) && s * (11 as real / 8 as real) < s * (3 as real / 2 as real) && s * (
    3 as real / 2 as real) < s * (13 as real / 8 as real) && s * (13 as real / 8 as real) < s
        * (2 as real) && s * (1 as real) == s) by (nonlinear_arith)
        requires
            s > 0 as real,
    ;
    assert forall|token: Seq<char>| !leadings().contains(token) implies #[trigger] leading_of::<N>(
        token,
        size,
    ) == spacing_of::<N>(token) by {
        let all = leadings();
        assert(all.contains(all[0]) && all.contains(all[1]) && all.contains(all[2]) && all.contains(
            all[3],
        ) && all.contains(all[4]) && all.contains(all[5]));
    }
}

/// Letter spacings grow along their scale, through none in the middle.
#[verifier::rlimit(40)]
pub proof fn law_trackings_grow<N: Num>(val: spec_fn(N) -> real, i: int, j: int)
    requires
        exact(val),
        0 <= i < j < trackings().len(),
    ensures
        tracking_of::<N>(trackings()[i]) matches Some(a) && tracking_of::<N>(
            trackings()[j],
        ) matches Some(b) && val(a) < val(b),
        val(tracking_of::<N>("normal"@)->0) == 0 as real,
{
    reveal_strlit("tighter");
    assert("tighter"@.len() == 7 && "tighter"@[0] == 't' && "tighter"@[6] == 'r');
    reveal_strlit("tight");
    assert("tight"@.len() == 5 && "tight"@[0] == 't' && "tight"@[4] == 't');
    reveal_strlit("normal");
    assert("normal"@.len() == 6 && "normal"@[0] == 'n' && "normal"@[5] == 'l');
    reveal_strlit("wide");
    assert("wide"@.len() == 4 && "wide"@[0] == 'w' && "wide"@[3] == 'e');
    reveal_strlit("wider");
    assert("wider"@.len() == 5 && "wider"@[0] == 'w' && "wider"@[4] == 'r');
    reveal_strlit("widest");
    assert("widest"@.len() == 6 && "widest"@[0] == 'w' && "widest"@[5] == 't');
    assert(val(N::ratio_of(-4, 5)) == (-4) as real / 5 as real);
    assert(val(N::ratio_of(-2, 5)) == (-2) as real / 5 as real);
    assert(val(N::ratio_of(2, 5)) == 2 as real / 5 as real);
    assert(val(N::ratio_of(4, 5)) == 4 as real / 5 as real);
    assert(val(N::ratio_of(8, 5)) == 8 as real / 5 as real);
    lemma_whole::<N>(val, 0);
}

/// Breakpoints grow along their scale.
pub proof fn law_breakpoints_grow(i: int, j: int)
    requires
        0 <= i < j < breakpoints().len(),
    ensures
        breakpoint_of(breakpoints()[i]) matches Some(a) && breakpoint_of(
            breakpoints()[j],
        ) matches Some(b) && a < b,
{
    reveal_strlit("sm");
    assert("sm"@.len() == 2 && "sm"@[0] == 's' && "sm"@[1] == 'm');
    reveal_strlit("md");
    assert("md"@.len() == 2 && "md"@[0] == 'm' && "md"@[1] == 'd');
    reveal_strlit("lg");
    assert("lg"@.len() == 2 && "lg"@[0] == 'l' && "lg"@[1] == 'g');
    reveal_strlit("xl");
    assert("xl"@.len() == 2 && "xl"@[0] == 'x' && "xl"@[1] == 'l');
    reveal_strlit("2xl");
    assert("2xl"@.len() == 3 && "2xl"@[0] == '2' && "2xl"@[2] == 'l');
}

} // verus!
