//! The default theme's design tokens, as plain lookup functions.
//!
//! This module only maps *token strings* (`"4"`, `"blue-500"`, `"lg"`, ...) to
//! numbers and colors; it knows nothing of which style key a token is used for.
//! One rem is 16 px.

use vstd::prelude::*;
use vstd::string::*;
use crate::text::{all_digits, ascii_digit, chars_of, is_digit, next_sep, str_eq, string_of_range};
use crate::toolkit::geometry::{color_of_hex, Color};
use crate::toolkit::num::{clamp, clamp_of, whole, Num};

verus! {

/// The spacing scale, in pixels: one unit is 4 px.
pub open spec fn spacing_of<N: Num>(token: Seq<char>) -> Option<N> {
    if token == "px"@ {
        Some(whole(1))
    } else {
        match N::parse_of(token) {
            Some(n) => Some(N::mul_of(n, whole(4))),
            None => None,
        }
    }
}

/// The spacing scale, used by `p-*`, `m-*`, `gap-*`, `w-*`, `h-*` and others.
pub fn spacing<N: Num>(token: &str) -> (r: Option<N>)
    ensures
        r == spacing_of::<N>(token@),
{
    if str_eq(token, "px") {
        return Some(N::ratio(1, 1));
    }
    match N::parse(token) {
        Some(n) => Some(n.times(N::ratio(4, 1))),
        None => None,
    }
}

/// A bare fraction such as `1/2`: what stands before the first `/`, divided by
/// what stands after it; none for a zero denominator.
pub open spec fn fraction_of<N: Num>(token: Seq<char>) -> Option<N> {
    let at = next_sep(token, 0, '/');
    if at >= token.len() {
        None
    } else {
        match (N::parse_of(token.take(at)), N::parse_of(token.skip(at + 1))) {
            (Some(n), Some(d)) => if N::eq_of(d, whole(0)) {
                None
            } else {
                Some(N::div_of(n, d))
            },
            _ => None,
        }
    }
}

/// A bare fraction such as `1/2`, used by `w-1/2`, `h-1/3` and others.
pub fn fraction<N: Num>(token: &str) -> (r: Option<N>)
    ensures
        r == fraction_of::<N>(token@),
{
    let cs: Vec<char> = chars_of(token);
    let n: usize = cs.len();
    let mut at: usize = 0;
    while at < n && cs[at] != '/'
        invariant
            0 <= at <= n,
            n == cs@.len(),
            next_sep(cs@, at as int, '/') == next_sep(cs@, 0, '/'),
        decreases n - at,
    {
        at = at + 1;
    }
    if at >= n {
        return None;
    }
    let num: String = string_of_range(&cs, 0, at);
    let den: String = string_of_range(&cs, at + 1, n);
    assert(num@ =~= token@.take(at as int));
    assert(den@ =~= token@.skip(at + 1));
    match (N::parse(num.as_str()), N::parse(den.as_str())) {
        (Some(n), Some(d)) => if d.same(N::ratio(0, 1)) {
            None
        } else {
            Some(n.over(d))
        },
        _ => None,
    }
}

/// `text-{token}`: the font size and the line height, in px.
pub open spec fn font_size_of<N: Num>(token: Seq<char>) -> Option<(N, N)> {
    if token == "xs"@ {
        Some((whole(12), whole(16)))
    } else if token == "sm"@ {
        Some((whole(14), whole(20)))
    } else if token == "base"@ {
        Some((whole(16), whole(24)))
    } else if token == "lg"@ {
        Some((whole(18), whole(28)))
    } else if token == "xl"@ {
        Some((whole(20), whole(28)))
    } else if token == "2xl"@ {
        Some((whole(24), whole(32)))
    } else if token == "3xl"@ {
        Some((whole(30), whole(36)))
    } else if token == "4xl"@ {
        Some((whole(36), whole(40)))
    } else if token == "5xl"@ {
        Some((whole(48), whole(48)))
    } else if token == "6xl"@ {
        Some((whole(60), whole(60)))
    } else if token == "7xl"@ {
        Some((whole(72), whole(72)))
    } else if token == "8xl"@ {
        Some((whole(96), whole(96)))
    } else if token == "9xl"@ {
        Some((whole(128), whole(128)))
    } else {
        None
    }
}

/// `text-{token}`: the font size and the line height, in px.
pub fn font_size<N: Num>(token: &str) -> (r: Option<(N, N)>)
    ensures
        r == font_size_of::<N>(token@),
{
    if str_eq(token, "xs") {
        Some((N::ratio(12, 1), N::ratio(16, 1)))
    } else if str_eq(token, "sm") {
        Some((N::ratio(14, 1), N::ratio(20, 1)))
    } else if str_eq(token, "base") {
        Some((N::ratio(16, 1), N::ratio(24, 1)))
    } else if str_eq(token, "lg") {
        Some((N::ratio(18, 1), N::ratio(28, 1)))
    } else if str_eq(token, "xl") {
        Some((N::ratio(20, 1), N::ratio(28, 1)))
    } else if str_eq(token, "2xl") {
        Some((N::ratio(24, 1), N::ratio(32, 1)))
    } else if str_eq(token, "3xl") {
        Some((N::ratio(30, 1), N::ratio(36, 1)))
    } else if str_eq(token, "4xl") {
        Some((N::ratio(36, 1), N::ratio(40, 1)))
    } else if str_eq(token, "5xl") {
        Some((N::ratio(48, 1), N::ratio(48, 1)))
    } else if str_eq(token, "6xl") {
        Some((N::ratio(60, 1), N::ratio(60, 1)))
    } else if str_eq(token, "7xl") {
        Some((N::ratio(72, 1), N::ratio(72, 1)))
    } else if str_eq(token, "8xl") {
        Some((N::ratio(96, 1), N::ratio(96, 1)))
    } else if str_eq(token, "9xl") {
        Some((N::ratio(128, 1), N::ratio(128, 1)))
    } else {
        None
    }
}

/// `font-{token}`: the numeric weight.
pub open spec fn font_weight_of(token: Seq<char>) -> Option<u16> {
    if token == "thin"@ {
        Some(100u16)
    } else if token == "extralight"@ {
        Some(200u16)
    } else if token == "light"@ {
        Some(300u16)
    } else if token == "normal"@ {
        Some(400u16)
    } else if token == "medium"@ {
        Some(500u16)
    } else if token == "semibold"@ {
        Some(600u16)
    } else if token == "bold"@ {
        Some(700u16)
    } else if token == "extrabold"@ {
        Some(800u16)
    } else if token == "black"@ {
        Some(900u16)
    } else {
        None
    }
}

/// `font-{token}`: the numeric weight.
pub fn font_weight(token: &str) -> (r: Option<u16>)
    ensures
        r == font_weight_of(token@),
{
    if str_eq(token, "thin") {
        Some(100)
    } else if str_eq(token, "extralight") {
        Some(200)
    } else if str_eq(token, "light") {
        Some(300)
    } else if str_eq(token, "normal") {
        Some(400)
    } else if str_eq(token, "medium") {
        Some(500)
    } else if str_eq(token, "semibold") {
        Some(600)
    } else if str_eq(token, "bold") {
        Some(700)
    } else if str_eq(token, "extrabold") {
        Some(800)
    } else if str_eq(token, "black") {
        Some(900)
    } else {
        None
    }
}

/// `leading-{token}`: the line height in px, for the current font size.
pub open spec fn leading_of<N: Num>(token: Seq<char>, font_size_px: N) -> Option<N> {
    if token == "none"@ {
        Some(N::mul_of(font_size_px, whole(1)))
    } else if token == "tight"@ {
        Some(N::mul_of(font_size_px, N::ratio_of(5, 4)))
    } else if token == "snug"@ {
        Some(N::mul_of(font_size_px, N::ratio_of(11, 8)))
    } else if token == "normal"@ {
        Some(N::mul_of(font_size_px, N::ratio_of(3, 2)))
    } else if token == "relaxed"@ {
        Some(N::mul_of(font_size_px, N::ratio_of(13, 8)))
    } else if token == "loose"@ {
        Some(N::mul_of(font_size_px, whole(2)))
    } else {
        spacing_of(token)
    }
}

/// `leading-{token}`: the line height in px, for the current font size.
pub fn leading<N: Num>(token: &str, font_size_px: N) -> (r: Option<N>)
    ensures
        r == leading_of::<N>(token@, font_size_px),
{
    if str_eq(token, "none") {
        Some(font_size_px.times(N::ratio(1, 1)))
    } else if str_eq(token, "tight") {
        Some(font_size_px.times(N::ratio(5, 4)))
    } else if str_eq(token, "snug") {
        Some(font_size_px.times(N::ratio(11, 8)))
    } else if str_eq(token, "normal") {
        Some(font_size_px.times(N::ratio(3, 2)))
    } else if str_eq(token, "relaxed") {
        Some(font_size_px.times(N::ratio(13, 8)))
    } else if str_eq(token, "loose") {
        Some(font_size_px.times(N::ratio(2, 1)))
    } else {
        spacing(token)
    }
}

/// `tracking-{token}`: the letter spacing in px.
pub open spec fn tracking_of<N: Num>(token: Seq<char>) -> Option<N> {
    if token == "tighter"@ {
        Some(N::ratio_of(-4, 5))
    } else if token == "tight"@ {
        Some(N::ratio_of(-2, 5))
    } else if token == "normal"@ {
        Some(whole(0))
    } else if token == "wide"@ {
        Some(N::ratio_of(2, 5))
    } else if token == "wider"@ {
        Some(N::ratio_of(4, 5))
    } else if token == "widest"@ {
        Some(N::ratio_of(8, 5))
    } else {
        None
    }
}

/// `tracking-{token}`: the letter spacing in px.
pub fn tracking<N: Num>(token: &str) -> (r: Option<N>)
    ensures
        r == tracking_of::<N>(token@),
{
    if str_eq(token, "tighter") {
        Some(N::ratio(-4, 5))
    } else if str_eq(token, "tight") {
        Some(N::ratio(-2, 5))
    } else if str_eq(token, "normal") {
        Some(N::ratio(0, 1))
    } else if str_eq(token, "wide") {
        Some(N::ratio(2, 5))
    } else if str_eq(token, "wider") {
        Some(N::ratio(4, 5))
    } else if str_eq(token, "widest") {
        Some(N::ratio(8, 5))
    } else {
        None
    }
}

/// `rounded-{token}`: the radius in px.
pub open spec fn radius_of<N: Num>(token: Seq<char>) -> Option<N> {
    if token == "none"@ {
        Some(whole(0))
    } else if token == "sm"@ {
        Some(whole(4))
    } else if token == ""@ || token == "default"@ {
        Some(whole(6))
    } else if token == "md"@ {
        Some(whole(8))
    } else if token == "lg"@ {
        Some(whole(12))
    } else if token == "xl"@ {
        Some(whole(16))
    } else if token == "2xl"@ {
        Some(whole(24))
    } else if token == "3xl"@ {
        Some(whole(32))
    } else if token == "full"@ {
        Some(whole(9999))
    } else {
        None
    }
}

/// `rounded-{token}`: the radius in px.
pub fn radius<N: Num>(token: &str) -> (r: Option<N>)
    ensures
        r == radius_of::<N>(token@),
{
    if str_eq(token, "none") {
        Some(N::ratio(0, 1))
    } else if str_eq(token, "sm") {
        Some(N::ratio(4, 1))
    } else if str_eq(token, "") || str_eq(token, "default") {
        Some(N::ratio(6, 1))
    } else if str_eq(token, "md") {
        Some(N::ratio(8, 1))
    } else if str_eq(token, "lg") {
        Some(N::ratio(12, 1))
    } else if str_eq(token, "xl") {
        Some(N::ratio(16, 1))
    } else if str_eq(token, "2xl") {
        Some(N::ratio(24, 1))
    } else if str_eq(token, "3xl") {
        Some(N::ratio(32, 1))
    } else if str_eq(token, "full") {
        Some(N::ratio(9999, 1))
    } else {
        None
    }
}

/// `border{-side}-{token}`: the width in px.
pub open spec fn border_width_of<N: Num>(token: Seq<char>) -> Option<N> {
    if token == ""@ || token == "default"@ {
        Some(whole(1))
    } else if token == "0"@ {
        Some(whole(0))
    } else if token == "2"@ {
        Some(whole(2))
    } else if token == "4"@ {
        Some(whole(4))
    } else if token == "8"@ {
        Some(whole(8))
    } else {
        None
    }
}

/// `border{-side}-{token}`: the width in px.
pub fn border_width<N: Num>(token: &str) -> (r: Option<N>)
    ensures
        r == border_width_of::<N>(token@),
{
    if str_eq(token, "") || str_eq(token, "default") {
        Some(N::ratio(1, 1))
    } else if str_eq(token, "0") {
        Some(N::ratio(0, 1))
    } else if str_eq(token, "2") {
        Some(N::ratio(2, 1))
    } else if str_eq(token, "4") {
        Some(N::ratio(4, 1))
    } else if str_eq(token, "8") {
        Some(N::ratio(8, 1))
    } else {
        None
    }
}

/// `opacity-{token}`: a percentage, as 0 to 1.
pub open spec fn opacity_of<N: Num>(token: Seq<char>) -> Option<N> {
    match N::parse_of(token) {
        Some(n) => Some(clamp_of(N::div_of(n, whole(100)), whole(0), whole(1))),
        None => None,
    }
}

/// `opacity-{token}`: a percentage, as 0 to 1.
pub fn opacity<N: Num>(token: &str) -> (r: Option<N>)
    ensures
        r == opacity_of::<N>(token@),
{
    match N::parse(token) {
        Some(n) => Some(clamp(n.over(N::ratio(100, 1)), N::ratio(0, 1), N::ratio(1, 1))),
        None => None,
    }
}

/// `duration-{token}`: milliseconds.
pub fn duration_ms<N: Num>(token: &str) -> (r: Option<N>)
    ensures
        r == N::parse_of(token@),
{
    N::parse(token)
}

/// `delay-{token}`: milliseconds.
pub fn delay_ms<N: Num>(token: &str) -> (r: Option<N>)
    ensures
        r == N::parse_of(token@),
{
    N::parse(token)
}

/// The standard easing curves.
#[derive(Debug, Clone, Copy, PartialEq, Eq, Structural)]
pub enum Easing {
    Linear,
    In,
    Out,
    InOut,
}

/// `ease-{token}`; a bare `ease` is the default curve.
pub open spec fn easing_of(token: Seq<char>) -> Option<Easing> {
    if token == "linear"@ {
        Some(Easing::Linear)
    } else if token == "in"@ {
        Some(Easing::In)
    } else if token == "out"@ {
        Some(Easing::Out)
    } else if token == "in-out"@ || token == ""@ {
        Some(Easing::InOut)
    } else {
        None
    }
}

/// Eased progress: `t` limited to 0..=1 first.
pub open spec fn eased<N: Num>(easing: Easing, t: N) -> N {
    let t = clamp_of(t, whole(0), whole(1));
    match easing {
        Easing::Linear => t,
        Easing::In => N::mul_of(t, t),
        Easing::Out => N::sub_of(
            whole(1),
            N::mul_of(N::sub_of(whole(1), t), N::sub_of(whole(1), t)),
        ),
        Easing::InOut => if N::lt_of(t, N::ratio_of(1, 2)) {
            N::mul_of(N::mul_of(whole(2), t), t)
        } else {
            let u = N::add_of(N::mul_of(whole(-2), t), whole(2));
            N::sub_of(whole(1), N::div_of(N::mul_of(u, u), whole(2)))
        },
    }
}

impl Easing {
    /// `ease-{token}`.
    pub fn from_token(token: &str) -> (r: Option<Easing>)
        ensures
            r == easing_of(token@),
    {
        if str_eq(token, "linear") {
            Some(Easing::Linear)
        } else if str_eq(token, "in") {
            Some(Easing::In)
        } else if str_eq(token, "out") {
            Some(Easing::Out)
        } else if str_eq(token, "in-out") || str_eq(token, "") {
            Some(Easing::InOut)
        } else {
            None
        }
    }

    /// Eases `t` (0..=1 linear progress) into eased progress.
    pub fn apply<N: Num>(self, t: N) -> (r: N)
        ensures
            r == eased(self, t),
    {
        let one: N = N::ratio(1, 1);
        let t: N = clamp(t, N::ratio(0, 1), one);
        match self {
            Easing::Linear => t,
            Easing::In => t.times(t),
            Easing::Out => one.minus(one.minus(t).times(one.minus(t))),
            Easing::InOut => if t.less(N::ratio(1, 2)) {
                N::ratio(2, 1).times(t).times(t)
            } else {
                let u: N = N::ratio(-2, 1).times(t).plus(N::ratio(2, 1));
                one.minus(u.times(u).over(N::ratio(2, 1)))
            },
        }
    }
}

/// The min-width in px of a standard breakpoint (`sm:`, `md:`, `lg:`, `xl:`, `2xl:`).
pub open spec fn breakpoint_of(token: Seq<char>) -> Option<u32> {
    if token == "sm"@ {
        Some(640u32)
    } else if token == "md"@ {
        Some(768u32)
    } else if token == "lg"@ {
        Some(1024u32)
    } else if token == "xl"@ {
        Some(1280u32)
    } else if token == "2xl"@ {
        Some(1536u32)
    } else {
        None
    }
}

/// The min-width in px of a standard breakpoint (`sm:`, `md:`, `lg:`, `xl:`, `2xl:`).
pub fn breakpoint(token: &str) -> (r: Option<u32>)
    ensures
        r == breakpoint_of(token@),
{
    if str_eq(token, "sm") {
        Some(640)
    } else if str_eq(token, "md") {
        Some(768)
    } else if str_eq(token, "lg") {
        Some(1024)
    } else if str_eq(token, "xl") {
        Some(1280)
    } else if str_eq(token, "2xl") {
        Some(1536)
    } else {
        None
    }
}

/// The place of a shade in its family's row.
pub open spec fn shade_index(shade: Seq<char>) -> Option<int> {
    if shade == "50"@ {
        Some(0int)
    } else if shade == "100"@ {
        Some(1int)
    } else if shade == "200"@ {
        Some(2int)
    } else if shade == "300"@ {
        Some(3int)
    } else if shade == "400"@ {
        Some(4int)
    } else if shade == "500"@ {
        Some(5int)
    } else if shade == "600"@ {
        Some(6int)
    } else if shade == "700"@ {
        Some(7int)
    } else if shade == "800"@ {
        Some(8int)
    } else if shade == "900"@ {
        Some(9int)
    } else if shade == "950"@ {
        Some(10int)
    } else {
        None
    }
}

pub open spec fn slate_row() -> Seq<Seq<char>> {
    seq![
        "#f8fafc"@,
        "#f1f5f9"@,
        "#e2e8f0"@,
        "#cbd5e1"@,
        "#94a3b8"@,
        "#64748b"@,
        "#475569"@,
        "#334155"@,
        "#1e293b"@,
        "#0f172a"@,
        "#020617"@,
    ]
}

pub open spec fn gray_row() -> Seq<Seq<char>> {
    seq![
        "#f9fafb"@,
        "#f3f4f6"@,
        "#e5e7eb"@,
        "#d1d5db"@,
        "#9ca3af"@,
        "#6b7280"@,
        "#4b5563"@,
        "#374151"@,
        "#1f2937"@,
        "#111827"@,
        "#030712"@,
    ]
}

pub open spec fn zinc_row() -> Seq<Seq<char>> {
    seq![
        "#fafafa"@,
        "#f4f4f5"@,
        "#e4e4e7"@,
        "#d4d4d8"@,
        "#a1a1aa"@,
        "#71717a"@,
        "#52525b"@,
        "#3f3f46"@,
        "#27272a"@,
        "#18181b"@,
        "#09090b"@,
    ]
}

pub open spec fn neutral_row() -> Seq<Seq<char>> {
    seq![
        "#fafafa"@,
        "#f5f5f5"@,
        "#e5e5e5"@,
        "#d4d4d4"@,
        "#a3a3a3"@,
        "#737373"@,
        "#525252"@,
        "#404040"@,
        "#262626"@,
        "#171717"@,
        "#0a0a0a"@,
    ]
}

pub open spec fn stone_row() -> Seq<Seq<char>> {
    seq![
        "#fafaf9"@,
        "#f5f5f4"@,
        "#e7e5e4"@,
        "#d6d3d1"@,
        "#a8a29e"@,
        "#78716c"@,
        "#57534e"@,
        "#44403c"@,
        "#292524"@,
        "#1c1917"@,
        "#0c0a09"@,
    ]
}

pub open spec fn red_row() -> Seq<Seq<char>> {
    seq![
        "#fef2f2"@,
        "#fee2e2"@,
        "#fecaca"@,
        "#fca5a5"@,
        "#f87171"@,
        "#ef4444"@,
        "#dc2626"@,
        "#b91c1c"@,
        "#991b1b"@,
        "#7f1d1d"@,
        "#450a0a"@,
    ]
}

pub open spec fn orange_row() -> Seq<Seq<char>> {
    seq![
        "#fff7ed"@,
        "#ffedd5"@,
        "#fed7aa"@,
        "#fdba74"@,
        "#fb923c"@,
        "#f97316"@,
        "#ea580c"@,
        "#c2410c"@,
        "#9a3412"@,
        "#7c2d12"@,
        "#431407"@,
    ]
}

pub open spec fn amber_row() -> Seq<Seq<char>> {
    seq![
        "#fffbeb"@,
        "#fef3c7"@,
        "#fde68a"@,
        "#fcd34d"@,
        "#fbbf24"@,
        "#f59e0b"@,
        "#d97706"@,
        "#b45309"@,
        "#92400e"@,
        "#78350f"@,
        "#451a03"@,
    ]
}

pub open spec fn yellow_row() -> Seq<Seq<char>> {
    seq![
        "#fefce8"@,
        "#fef9c3"@,
        "#fef08a"@,
        "#fde047"@,
        "#facc15"@,
        "#eab308"@,
        "#ca8a04"@,
        "#a16207"@,
        "#854d0e"@,
        "#713f12"@,
        "#422006"@,
    ]
}

pub open spec fn lime_row() -> Seq<Seq<char>> {
    seq![
        "#f7fee7"@,
        "#ecfccb"@,
        "#d9f99d"@,
        "#bef264"@,
        "#a3e635"@,
        "#84cc16"@,
        "#65a30d"@,
        "#4d7c0f"@,
        "#3f6212"@,
        "#365314"@,
        "#1a2e05"@,
    ]
}

pub open spec fn green_row() -> Seq<Seq<char>> {
    seq![
        "#f0fdf4"@,
        "#dcfce7"@,
        "#bbf7d0"@,
        "#86efac"@,
        "#4ade80"@,
        "#22c55e"@,
        "#16a34a"@,
        "#15803d"@,
        "#166534"@,
        "#14532d"@,
        "#052e16"@,
    ]
}

pub open spec fn emerald_row() -> Seq<Seq<char>> {
    seq![
        "#ecfdf5"@,
        "#d1fae5"@,
        "#a7f3d0"@,
        "#6ee7b7"@,
        "#34d399"@,
        "#10b981"@,
        "#059669"@,
        "#047857"@,
        "#065f46"@,
        "#064e3b"@,
        "#022c22"@,
    ]
}

pub open spec fn teal_row() -> Seq<Seq<char>> {
    seq![
        "#f0fdfa"@,
        "#ccfbf1"@,
        "#99f6e4"@,
        "#5eead4"@,
        "#2dd4bf"@,
        "#14b8a6"@,
        "#0d9488"@,
        "#0f766e"@,
        "#115e59"@,
        "#134e4a"@,
        "#042f2e"@,
    ]
}

pub open spec fn cyan_row() -> Seq<Seq<char>> {
    seq![
        "#ecfeff"@,
        "#cffafe"@,
        "#a5f3fc"@,
        "#67e8f9"@,
        "#22d3ee"@,
        "#06b6d4"@,
        "#0891b2"@,
        "#0e7490"@,
        "#155e75"@,
        "#164e63"@,
        "#083344"@,
    ]
}

pub open spec fn sky_row() -> Seq<Seq<char>> {
    seq![
        "#f0f9ff"@,
        "#e0f2fe"@,
        "#bae6fd"@,
        "#7dd3fc"@,
        "#38bdf8"@,
        "#0ea5e9"@,
        "#0284c7"@,
        "#0369a1"@,
        "#075985"@,
        "#0c4a6e"@,
        "#082f49"@,
    ]
}

pub open spec fn blue_row() -> Seq<Seq<char>> {
    seq![
        "#eff6ff"@,
        "#dbeafe"@,
        "#bfdbfe"@,
        "#93c5fd"@,
        "#60a5fa"@,
        "#3b82f6"@,
        "#2563eb"@,
        "#1d4ed8"@,
        "#1e40af"@,
        "#1e3a8a"@,
        "#172554"@,
    ]
}

pub open spec fn indigo_row() -> Seq<Seq<char>> {
    seq![
        "#eef2ff"@,
        "#e0e7ff"@,
        "#c7d2fe"@,
        "#a5b4fc"@,
        "#818cf8"@,
        "#6366f1"@,
        "#4f46e5"@,
        "#4338ca"@,
        "#3730a3"@,
        "#312e81"@,
        "#1e1b4b"@,
    ]
}

pub open spec fn violet_row() -> Seq<Seq<char>> {
    seq![
        "#f5f3ff"@,
        "#ede9fe"@,
        "#ddd6fe"@,
        "#c4b5fd"@,
        "#a78bfa"@,
        "#8b5cf6"@,
        "#7c3aed"@,
        "#6d28d9"@,
        "#5b21b6"@,
        "#4c1d95"@,
        "#2e1065"@,
    ]
}

pub open spec fn purple_row() -> Seq<Seq<char>> {
    seq![
        "#faf5ff"@,
        "#f3e8ff"@,
        "#e9d5ff"@,
        "#d8b4fe"@,
        "#c084fc"@,
        "#a855f7"@,
        "#9333ea"@,
        "#7e22ce"@,
        "#6b21a8"@,
        "#581c87"@,
        "#3b0764"@,
    ]
}

pub open spec fn fuchsia_row() -> Seq<Seq<char>> {
    seq![
        "#fdf4ff"@,
        "#fae8ff"@,
        "#f5d0fe"@,
        "#f0abfc"@,
        "#e879f9"@,
        "#d946ef"@,
        "#c026d3"@,
        "#a21caf"@,
        "#86198f"@,
        "#701a75"@,
        "#4a044e"@,
    ]
}

pub open spec fn pink_row() -> Seq<Seq<char>> {
    seq![
        "#fdf2f8"@,
        "#fce7f3"@,
        "#fbcfe8"@,
        "#f9a8d4"@,
        "#f472b6"@,
        "#ec4899"@,
        "#db2777"@,
        "#be185d"@,
        "#9d174d"@,
        "#831843"@,
        "#500724"@,
    ]
}

pub open spec fn rose_row() -> Seq<Seq<char>> {
    seq![
        "#fff1f2"@,
        "#ffe4e6"@,
        "#fecdd3"@,
        "#fda4af"@,
        "#fb7185"@,
        "#f43f5e"@,
        "#e11d48"@,
        "#be123c"@,
        "#9f1239"@,
        "#881337"@,
        "#4c0519"@,
    ]
}

/// The default color palette: 22 families of 11 shades.
pub open spec fn family_row(family: Seq<char>) -> Option<Seq<Seq<char>>> {
    if family == "slate"@ {
        Some(slate_row())
    } else if family == "gray"@ {
        Some(gray_row())
    } else if family == "zinc"@ {
        Some(zinc_row())
    } else if family == "neutral"@ {
        Some(neutral_row())
    } else if family == "stone"@ {
        Some(stone_row())
    } else if family == "red"@ {
        Some(red_row())
    } else if family == "orange"@ {
        Some(orange_row())
    } else if family == "amber"@ {
        Some(amber_row())
    } else if family == "yellow"@ {
        Some(yellow_row())
    } else if family == "lime"@ {
        Some(lime_row())
    } else if family == "green"@ {
        Some(green_row())
    } else if family == "emerald"@ {
        Some(emerald_row())
    } else if family == "teal"@ {
        Some(teal_row())
    } else if family == "cyan"@ {
        Some(cyan_row())
    } else if family == "sky"@ {
        Some(sky_row())
    } else if family == "blue"@ {
        Some(blue_row())
    } else if family == "indigo"@ {
        Some(indigo_row())
    } else if family == "violet"@ {
        Some(violet_row())
    } else if family == "purple"@ {
        Some(purple_row())
    } else if family == "fuchsia"@ {
        Some(fuchsia_row())
    } else if family == "pink"@ {
        Some(pink_row())
    } else if family == "rose"@ {
        Some(rose_row())
    } else {
        None
    }
}

/// The hex color of a shade of a family.
pub open spec fn palette_of(family: Seq<char>, shade: Seq<char>) -> Option<Seq<char>> {
    match (family_row(family), shade_index(shade)) {
        (Some(row), Some(i)) => Some(row[i]),
        _ => None,
    }
}

fn shade_place(shade: &str) -> (r: Option<usize>)
    ensures
        match r {
            Some(i) => shade_index(shade@) == Some(i as int) && i < 11,
            None => shade_index(shade@) is None,
        },
{
    if str_eq(shade, "50") {
        Some(0)
    } else if str_eq(shade, "100") {
        Some(1)
    } else if str_eq(shade, "200") {
        Some(2)
    } else if str_eq(shade, "300") {
        Some(3)
    } else if str_eq(shade, "400") {
        Some(4)
    } else if str_eq(shade, "500") {
        Some(5)
    } else if str_eq(shade, "600") {
        Some(6)
    } else if str_eq(shade, "700") {
        Some(7)
    } else if str_eq(shade, "800") {
        Some(8)
    } else if str_eq(shade, "900") {
        Some(9)
    } else if str_eq(shade, "950") {
        Some(10)
    } else {
        None
    }
}

fn row_of(family: &str) -> (r: Option<[&'static str; 11]>)
    ensures
        match r {
            Some(row) => family_row(family@) is Some && forall|i: int|
                0 <= i < 11 ==> (#[trigger] row@[i])@ == family_row(family@)->0[i],
            None => family_row(family@) is None,
        },
{
    if str_eq(family, "slate") {
        Some(
            [
                "#f8fafc",
                "#f1f5f9",
                "#e2e8f0",
                "#cbd5e1",
                "#94a3b8",
                "#64748b",
                "#475569",
                "#334155",
                "#1e293b",
                "#0f172a",
                "#020617",
            ],
        )
    } else if str_eq(family, "gray") {
        Some(
            [
                "#f9fafb",
                "#f3f4f6",
                "#e5e7eb",
                "#d1d5db",
                "#9ca3af",
                "#6b7280",
                "#4b5563",
                "#374151",
                "#1f2937",
                "#111827",
                "#030712",
            ],
        )
    } else if str_eq(family, "zinc") {
        Some(
            [
                "#fafafa",
                "#f4f4f5",
                "#e4e4e7",
                "#d4d4d8",
                "#a1a1aa",
                "#71717a",
                "#52525b",
                "#3f3f46",
                "#27272a",
                "#18181b",
                "#09090b",
            ],
        )
    } else if str_eq(family, "neutral") {
        Some(
            [
                "#fafafa",
                "#f5f5f5",
                "#e5e5e5",
                "#d4d4d4",
                "#a3a3a3",
                "#737373",
                "#525252",
                "#404040",
                "#262626",
                "#171717",
                "#0a0a0a",
            ],
        )
    } else if str_eq(family, "stone") {
        Some(
            [
                "#fafaf9",
                "#f5f5f4",
                "#e7e5e4",
                "#d6d3d1",
                "#a8a29e",
                "#78716c",
                "#57534e",
                "#44403c",
                "#292524",
                "#1c1917",
                "#0c0a09",
            ],
        )
    } else if str_eq(family, "red") {
        Some(
            [
                "#fef2f2",
                "#fee2e2",
                "#fecaca",
                "#fca5a5",
                "#f87171",
                "#ef4444",
                "#dc2626",
                "#b91c1c",
                "#991b1b",
                "#7f1d1d",
                "#450a0a",
            ],
        )
    } else if str_eq(family, "orange") {
        Some(
            [
                "#fff7ed",
                "#ffedd5",
                "#fed7aa",
                "#fdba74",
                "#fb923c",
                "#f97316",
                "#ea580c",
                "#c2410c",
                "#9a3412",
                "#7c2d12",
                "#431407",
            ],
        )
    } else if str_eq(family, "amber") {
        Some(
            [
                "#fffbeb",
                "#fef3c7",
                "#fde68a",
                "#fcd34d",
                "#fbbf24",
                "#f59e0b",
                "#d97706",
                "#b45309",
                "#92400e",
                "#78350f",
                "#451a03",
            ],
        )
    } else if str_eq(family, "yellow") {
        Some(
            [
                "#fefce8",
                "#fef9c3",
                "#fef08a",
                "#fde047",
                "#facc15",
                "#eab308",
                "#ca8a04",
                "#a16207",
                "#854d0e",
                "#713f12",
                "#422006",
            ],
        )
    } else if str_eq(family, "lime") {
        Some(
            [
                "#f7fee7",
                "#ecfccb",
                "#d9f99d",
                "#bef264",
                "#a3e635",
                "#84cc16",
                "#65a30d",
                "#4d7c0f",
                "#3f6212",
                "#365314",
                "#1a2e05",
            ],
        )
    } else if str_eq(family, "green") {
        Some(
            [
                "#f0fdf4",
                "#dcfce7",
                "#bbf7d0",
                "#86efac",
                "#4ade80",
                "#22c55e",
                "#16a34a",
                "#15803d",
                "#166534",
                "#14532d",
                "#052e16",
            ],
        )
    } else if str_eq(family, "emerald") {
        Some(
            [
                "#ecfdf5",
                "#d1fae5",
                "#a7f3d0",
                "#6ee7b7",
                "#34d399",
                "#10b981",
                "#059669",
                "#047857",
                "#065f46",
                "#064e3b",
                "#022c22",
            ],
        )
    } else if str_eq(family, "teal") {
        Some(
            [
                "#f0fdfa",
                "#ccfbf1",
                "#99f6e4",
                "#5eead4",
                "#2dd4bf",
                "#14b8a6",
                "#0d9488",
                "#0f766e",
                "#115e59",
                "#134e4a",
                "#042f2e",
            ],
        )
    } else if str_eq(family, "cyan") {
        Some(
            [
                "#ecfeff",
                "#cffafe",
                "#a5f3fc",
                "#67e8f9",
                "#22d3ee",
                "#06b6d4",
                "#0891b2",
                "#0e7490",
                "#155e75",
                "#164e63",
                "#083344",
            ],
        )
    } else if str_eq(family, "sky") {
        Some(
            [
                "#f0f9ff",
                "#e0f2fe",
                "#bae6fd",
                "#7dd3fc",
                "#38bdf8",
                "#0ea5e9",
                "#0284c7",
                "#0369a1",
                "#075985",
                "#0c4a6e",
                "#082f49",
            ],
        )
    } else if str_eq(family, "blue") {
        Some(
            [
                "#eff6ff",
                "#dbeafe",
                "#bfdbfe",
                "#93c5fd",
                "#60a5fa",
                "#3b82f6",
                "#2563eb",
                "#1d4ed8",
                "#1e40af",
                "#1e3a8a",
                "#172554",
            ],
        )
    } else if str_eq(family, "indigo") {
        Some(
            [
                "#eef2ff",
                "#e0e7ff",
                "#c7d2fe",
                "#a5b4fc",
                "#818cf8",
                "#6366f1",
                "#4f46e5",
                "#4338ca",
                "#3730a3",
                "#312e81",
                "#1e1b4b",
            ],
        )
    } else if str_eq(family, "violet") {
        Some(
            [
                "#f5f3ff",
                "#ede9fe",
                "#ddd6fe",
                "#c4b5fd",
                "#a78bfa",
                "#8b5cf6",
                "#7c3aed",
                "#6d28d9",
                "#5b21b6",
                "#4c1d95",
                "#2e1065",
            ],
        )
    } else if str_eq(family, "purple") {
        Some(
            [
                "#faf5ff",
                "#f3e8ff",
                "#e9d5ff",
                "#d8b4fe",
                "#c084fc",
                "#a855f7",
                "#9333ea",
                "#7e22ce",
                "#6b21a8",
                "#581c87",
                "#3b0764",
            ],
        )
    } else if str_eq(family, "fuchsia") {
        Some(
            [
                "#fdf4ff",
                "#fae8ff",
                "#f5d0fe",
                "#f0abfc",
                "#e879f9",
                "#d946ef",
                "#c026d3",
                "#a21caf",
                "#86198f",
                "#701a75",
                "#4a044e",
            ],
        )
    } else if str_eq(family, "pink") {
        Some(
            [
                "#fdf2f8",
                "#fce7f3",
                "#fbcfe8",
                "#f9a8d4",
                "#f472b6",
                "#ec4899",
                "#db2777",
                "#be185d",
                "#9d174d",
                "#831843",
                "#500724",
            ],
        )
    } else if str_eq(family, "rose") {
        Some(
            [
                "#fff1f2",
                "#ffe4e6",
                "#fecdd3",
                "#fda4af",
                "#fb7185",
                "#f43f5e",
                "#e11d48",
                "#be123c",
                "#9f1239",
                "#881337",
                "#4c0519",
            ],
        )
    } else {
        None
    }
}

/// The default color palette: 22 families of 11 shades.
pub fn palette(family: &str, shade: &str) -> (r: Option<&'static str>)
    ensures
        match r {
            Some(hex) => palette_of(family@, shade@) == Some(hex@),
            None => palette_of(family@, shade@) is None,
        },
{
    match (row_of(family), shade_place(shade)) {
        (Some(row), Some(i)) => {
            assert(row@[i as int]@ == family_row(family@)->0[i as int]);
            Some(row[i])
        },
        _ => None,
    }
}

/// The last position that holds `-`, below `n`.
pub open spec fn last_dash(cs: Seq<char>, n: int) -> Option<int>
    decreases n,
{
    if n <= 0 {
        None
    } else if cs[n - 1] == '-' {
        Some(n - 1)
    } else {
        last_dash(cs, n - 1)
    }
}

/// The family and the shade that a color token names: a token that does not end
/// in `-` and digits names a family, in its middle shade.
pub open spec fn family_and_shade(token: Seq<char>) -> (Seq<char>, Seq<char>) {
    match last_dash(token, token.len() as int) {
        Some(at) => if all_digits(token.skip(at + 1)) {
            (token.take(at), token.skip(at + 1))
        } else {
            (token, "500"@)
        },
        None => (token, "500"@),
    }
}

/// The color that a token names.
pub open spec fn color_of(token: Seq<char>) -> Option<Color> {
    if token == "white"@ {
        Some(Color { r: 255, g: 255, b: 255, a: 255 })
    } else if token == "black"@ {
        Some(Color { r: 0, g: 0, b: 0, a: 255 })
    } else if token == "transparent"@ {
        Some(Color { r: 0, g: 0, b: 0, a: 0 })
    } else {
        let (family, shade) = family_and_shade(token);
        match palette_of(family, shade) {
            Some(hex) => color_of_hex(hex),
            None => None,
        }
    }
}

/// Resolves a color token: `"white"`, `"black"`, `"transparent"`, a bare palette
/// name (`"blue"` is `blue-500`), or `"{family}-{shade}"`.
pub fn color(token: &str) -> (r: Option<Color>)
    ensures
        r == color_of(token@),
{
    if str_eq(token, "white") {
        return Some(Color::rgb(255, 255, 255));
    }
    if str_eq(token, "black") {
        return Some(Color::rgb(0, 0, 0));
    }
    if str_eq(token, "transparent") {
        return Some(Color::transparent());
    }
    let cs: Vec<char> = chars_of(token);
    let n: usize = cs.len();
    let mut k: usize = n;
    let mut digits: bool = true;
    while k > 0 && cs[k - 1] != '-'
        invariant
            0 <= k <= n,
            n == cs@.len(),
            cs@ == token@,
            last_dash(cs@, k as int) == last_dash(cs@, n as int),
            digits == all_digits(cs@.skip(k as int)),
        decreases k,
    {
        let ghost rest = cs@.skip(k - 1);
        let ghost tail = cs@.skip(k as int);
        let d: bool = ascii_digit(cs[k - 1]);
        proof {
            assert(rest[0] == cs@[k - 1]);
            assert(forall|i: int| 0 <= i < tail.len() ==> tail[i] == rest[i + 1]);
            if digits && d {
                assert forall|i: int| 0 <= i < rest.len() implies is_digit(#[trigger] rest[i]) by {
                    if i > 0 {
                        assert(is_digit(tail[i - 1]));
                    }
                }
            }
            if !digits {
                let i = choose|i: int| 0 <= i < tail.len() && !is_digit(#[trigger] tail[i]);
                assert(!is_digit(rest[i + 1]));
            }
        }
        digits = digits && d;
        k = k - 1;
    }
    let hex: Option<&'static str> = if k > 0 && digits {
        let family: String = string_of_range(&cs, 0, k - 1);
        let shade: String = string_of_range(&cs, k, n);
        assert(family@ =~= token@.take(k - 1));
        assert(shade@ =~= token@.skip(k as int));
        palette(family.as_str(), shade.as_str())
    } else {
        palette(token, "500")
    };
    match hex {
        Some(h) => Color::from_hex(h),
        None => None,
    }
}

} // verus!
