//! Backend-agnostic geometry and color types.

use vstd::prelude::*;
use crate::text::{chars_of, split_words, trim_suffix, trimmed_suffix, word_list};
use crate::toolkit::num::{whole, Num};

verus! {

#[derive(Debug, Clone, Copy, PartialEq)]
pub struct Point<N> {
    pub x: N,
    pub y: N,
}

#[derive(Debug, Clone, Copy, PartialEq)]
pub struct Size<N> {
    pub w: N,
    pub h: N,
}

#[derive(Debug, Clone, Copy, PartialEq)]
pub struct Rect<N> {
    pub x: N,
    pub y: N,
    pub w: N,
    pub h: N,
}

/// Per-side spacing (padding / margin).
#[derive(Debug, Clone, Copy, PartialEq)]
pub struct Edges<N> {
    pub top: N,
    pub right: N,
    pub bottom: N,
    pub left: N,
}

pub open spec fn origin<N: Num>() -> Point<N> {
    Point { x: whole(0), y: whole(0) }
}

pub open spec fn no_size<N: Num>() -> Size<N> {
    Size { w: whole(0), h: whole(0) }
}

pub open spec fn edges_all<N: Num>(v: N) -> Edges<N> {
    Edges { top: v, right: v, bottom: v, left: v }
}

/// Whether a point lies in a rectangle, its border counted.
pub open spec fn holds_point<N: Num>(r: Rect<N>, p: Point<N>) -> bool {
    N::le_of(r.x, p.x) && N::le_of(p.x, N::add_of(r.x, r.w)) && N::le_of(r.y, p.y) && N::le_of(
        p.y,
        N::add_of(r.y, r.h),
    )
}

/// A rectangle shrunk by per-side insets, to nothing at the least.
pub open spec fn inset_rect<N: Num>(r: Rect<N>, e: Edges<N>) -> Rect<N> {
    Rect {
        x: N::add_of(r.x, e.left),
        y: N::add_of(r.y, e.top),
        w: N::max_of(N::sub_of(N::sub_of(r.w, e.left), e.right), whole(0)),
        h: N::max_of(N::sub_of(N::sub_of(r.h, e.top), e.bottom), whole(0)),
    }
}

impl<N: Num> Point<N> {
    pub fn new(x: N, y: N) -> (r: Self)
        ensures
            r == (Point { x, y }),
    {
        Point { x, y }
    }
}

impl<N: Num> Default for Point<N> {
    fn default() -> (r: Self)
        ensures
            r == origin::<N>(),
    {
        Point { x: N::ratio(0, 1), y: N::ratio(0, 1) }
    }
}

impl<N: Num> Size<N> {
    pub fn new(w: N, h: N) -> (r: Self)
        ensures
            r == (Size { w, h }),
    {
        Size { w, h }
    }
}

impl<N: Num> Default for Size<N> {
    fn default() -> (r: Self)
        ensures
            r == no_size::<N>(),
    {
        Size { w: N::ratio(0, 1), h: N::ratio(0, 1) }
    }
}

pub open spec fn no_rect<N: Num>() -> Rect<N> {
    Rect { x: whole(0), y: whole(0), w: whole(0), h: whole(0) }
}

impl<N: Num> Default for Rect<N> {
    fn default() -> (r: Self)
        ensures
            r == no_rect::<N>(),
    {
        let z: N = N::ratio(0, 1);
        Rect { x: z, y: z, w: z, h: z }
    }
}

impl<N: Num> Default for Edges<N> {
    fn default() -> (r: Self)
        ensures
            r == edges_all::<N>(whole(0)),
    {
        Edges::all(N::ratio(0, 1))
    }
}

impl<N: Num> Rect<N> {
    pub fn new(x: N, y: N, w: N, h: N) -> (r: Self)
        ensures
            r == (Rect { x, y, w, h }),
    {
        Rect { x, y, w, h }
    }

    pub fn contains(&self, p: Point<N>) -> (r: bool)
        ensures
            r == holds_point(*self, p),
    {
        self.x.at_most(p.x) && p.x.at_most(self.x.plus(self.w)) && self.y.at_most(p.y)
            && p.y.at_most(self.y.plus(self.h))
    }

    /// Shrinks by per-side insets (top, right, bottom, left).
    pub fn inset(&self, e: Edges<N>) -> (r: Rect<N>)
        ensures
            r == inset_rect(*self, e),
    {
        Rect {
            x: self.x.plus(e.left),
            y: self.y.plus(e.top),
            w: self.w.minus(e.left).minus(e.right).greater_of(N::ratio(0, 1)),
            h: self.h.minus(e.top).minus(e.bottom).greater_of(N::ratio(0, 1)),
        }
    }
}

/// CSS-style shorthand: 1, 2, 3, or 4 values; anything else is no spacing.
pub open spec fn shorthand<N: Num>(v: Seq<N>) -> Edges<N> {
    if v.len() == 1 {
        edges_all(v[0])
    } else if v.len() == 2 {
        Edges { top: v[0], right: v[1], bottom: v[0], left: v[1] }
    } else if v.len() == 3 {
        Edges { top: v[0], right: v[1], bottom: v[2], left: v[1] }
    } else if v.len() == 4 {
        Edges { top: v[0], right: v[1], bottom: v[2], left: v[3] }
    } else {
        edges_all(whole(0))
    }
}

/// A length in a shorthand: a number, with or without `px`; 0 if it is none.
pub open spec fn length_of<N: Num>(word: Seq<char>) -> N {
    match N::parse_of(trimmed_suffix(word, "px"@)) {
        Some(v) => v,
        None => whole(0),
    }
}

impl<N: Num> Edges<N> {
    pub fn all(v: N) -> (r: Self)
        ensures
            r == edges_all(v),
    {
        Edges { top: v, right: v, bottom: v, left: v }
    }

    /// CSS-style shorthand: 1, 2, 3, or 4 values.
    pub fn parse(s: &str) -> (r: Edges<N>)
        ensures
            r == shorthand(word_list(s@).map_values(|w: Seq<char>| length_of::<N>(w))),
    {
        let words: Vec<String> = split_words(s);
        let mut nums: Vec<N> = Vec::new();
        let mut i: usize = 0;
        let ghost want = word_list(s@).map_values(|w: Seq<char>| length_of::<N>(w));
        while i < words.len()
            invariant
                0 <= i <= words@.len(),
                words@.map_values(|w: String| w@) == word_list(s@),
                want == word_list(s@).map_values(|w: Seq<char>| length_of::<N>(w)),
                nums@ =~= want.take(i as int),
            decreases words@.len() - i,
        {
            assert(word_list(s@)[i as int] == words@[i as int]@);
            let v: N = match N::parse(trim_suffix(words[i].as_str(), "px").as_str()) {
                Some(v) => v,
                None => N::ratio(0, 1),
            };
            assert(want[i as int] == v);
            nums.push(v);
            i = i + 1;
        }
        assert(nums@ =~= want);
        if nums.len() == 1 {
            Edges::all(nums[0])
        } else if nums.len() == 2 {
            Edges { top: nums[0], right: nums[1], bottom: nums[0], left: nums[1] }
        } else if nums.len() == 3 {
            Edges { top: nums[0], right: nums[1], bottom: nums[2], left: nums[1] }
        } else if nums.len() == 4 {
            Edges { top: nums[0], right: nums[1], bottom: nums[2], left: nums[3] }
        } else {
            Edges::all(N::ratio(0, 1))
        }
    }
}

// ---- color ----

/// Straight (non-premultiplied) RGBA, 0..=255.
#[derive(Debug, Clone, Copy, PartialEq, Eq, Structural)]
pub struct Color {
    pub r: u8,
    pub g: u8,
    pub b: u8,
    pub a: u8,
}

/// The value of a hexadecimal digit.
pub open spec fn hex_value(c: char) -> Option<int> {
    let v = c as int;
    if 48 <= v && v <= 57 {
        Some(v - 48)
    } else if 97 <= v && v <= 102 {
        Some(v - 87)
    } else if 65 <= v && v <= 70 {
        Some(v - 55)
    } else {
        None
    }
}

/// A byte in two digits.
pub open spec fn hex_pair(a: char, b: char) -> Option<u8> {
    match (hex_value(a), hex_value(b)) {
        (Some(x), Some(y)) => Some((16 * x + y) as u8),
        _ => None,
    }
}

/// A byte whose two digits are the same.
pub open spec fn hex_twice(c: char) -> Option<u8> {
    match hex_value(c) {
        Some(x) => Some((17 * x) as u8),
        None => None,
    }
}

pub open spec fn opaque_color(r: Option<u8>, g: Option<u8>, b: Option<u8>) -> Option<Color> {
    match (r, g, b) {
        (Some(r), Some(g), Some(b)) => Some(Color { r, g, b, a: 255 }),
        _ => None,
    }
}

/// The color that six or three hexadecimal digits give.
pub open spec fn hex_digits_color(s: Seq<char>) -> Option<Color> {
    if s.len() == 6 {
        opaque_color(hex_pair(s[0], s[1]), hex_pair(s[2], s[3]), hex_pair(s[4], s[5]))
    } else if s.len() == 3 {
        opaque_color(hex_twice(s[0]), hex_twice(s[1]), hex_twice(s[2]))
    } else {
        None
    }
}

/// The color that `#RRGGBB` or `#RGB` gives; the `#` may be left out.
pub open spec fn color_of_hex(s: Seq<char>) -> Option<Color> {
    if s.len() > 0 && s[0] == '#' {
        hex_digits_color(s.skip(1))
    } else {
        hex_digits_color(s)
    }
}

fn hex_digit_value(c: char) -> (r: Option<u8>)
    ensures
        match r {
            Some(v) => hex_value(c) == Some(v as int) && v < 16,
            None => hex_value(c) is None,
        },
{
    let v: u32 = c as u32;
    if 48 <= v && v <= 57 {
        Some((v - 48) as u8)
    } else if 97 <= v && v <= 102 {
        Some((v - 87) as u8)
    } else if 65 <= v && v <= 70 {
        Some((v - 55) as u8)
    } else {
        None
    }
}

fn pair_value(a: char, b: char) -> (r: Option<u8>)
    ensures
        r == hex_pair(a, b),
{
    match (hex_digit_value(a), hex_digit_value(b)) {
        (Some(x), Some(y)) => Some(16 * x + y),
        _ => None,
    }
}

fn twice_value(c: char) -> (r: Option<u8>)
    ensures
        r == hex_twice(c),
{
    match hex_digit_value(c) {
        Some(x) => Some(17 * x),
        None => None,
    }
}

fn opaque(r: Option<u8>, g: Option<u8>, b: Option<u8>) -> (c: Option<Color>)
    ensures
        c == opaque_color(r, g, b),
{
    match (r, g, b) {
        (Some(r), Some(g), Some(b)) => Some(Color { r, g, b, a: 255 }),
        _ => None,
    }
}

impl Color {
    pub fn transparent() -> (c: Self)
        ensures
            c == (Color { r: 0, g: 0, b: 0, a: 0 }),
    {
        Color { r: 0, g: 0, b: 0, a: 0 }
    }

    pub fn white() -> (c: Self)
        ensures
            c == (Color { r: 255, g: 255, b: 255, a: 255 }),
    {
        Color { r: 255, g: 255, b: 255, a: 255 }
    }

    pub fn black() -> (c: Self)
        ensures
            c == (Color { r: 0, g: 0, b: 0, a: 255 }),
    {
        Color { r: 0, g: 0, b: 0, a: 255 }
    }

    pub fn rgb(r: u8, g: u8, b: u8) -> (c: Self)
        ensures
            c == (Color { r, g, b, a: 255 }),
    {
        Color { r, g, b, a: 255 }
    }

    /// Parses `#RRGGBB` or `#RGB`. Returns `None` on malformed input.
    pub fn from_hex(s: &str) -> (r: Option<Color>)
        ensures
            r == color_of_hex(s@),
    {
        let cs: Vec<char> = chars_of(s);
        let from: usize = if cs.len() > 0 && cs[0] == '#' {
            1
        } else {
            0
        };
        let ghost d = if from == 1 {
            s@.skip(1)
        } else {
            s@
        };
        assert(forall|k: int| 0 <= k < d.len() ==> d[k] == cs@[from + k]);
        let n: usize = cs.len() - from;
        if n == 6 {
            opaque(
                pair_value(cs[from], cs[from + 1]),
                pair_value(cs[from + 2], cs[from + 3]),
                pair_value(cs[from + 4], cs[from + 5]),
            )
        } else if n == 3 {
            opaque(twice_value(cs[from]), twice_value(cs[from + 1]), twice_value(cs[from + 2]))
        } else {
            None
        }
    }
}

} // verus!
