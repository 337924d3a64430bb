//! What holds of pixels that are put on a surface.

use vstd::prelude::*;
use crate::assets::decode::Frame;
use crate::toolkit::geometry::{Color, Edges, Point, Rect};
use crate::toolkit::num::{exact, lemma_whole, Num};
use crate::toolkit::raster::{
    around, blended, clipped, corners, faded, frame_sample, packed, pictured, place,
    sampled, source_at, span_of, top_opacity, Segment, Surface,
};

verus! {

/// A byte comes as near to a value as bytes do.
pub open spec fn near(b: u8, v: real) -> bool {
    v < (b as real) + 1 as real && (b as real) < v + 1 as real
}

// ---- opacity, clips and blending ----

/// What is drawn with full opacity keeps its alpha, with none it vanishes, and in
/// between it has its share.
pub proof fn law_opacity_scales_alpha<N: Num>(val: spec_fn(N) -> real, alpha: u8, opacity: N)
    requires
        exact(val),
        0 as real <= val(opacity) && val(opacity) <= 1 as real,
    ensures
        near(faded(alpha, opacity), alpha as real * val(opacity)),
        val(opacity) == 1 as real ==> faded(alpha, opacity) == alpha,
        val(opacity) == 0 as real ==> faded(alpha, opacity) == 0,
{
    let a = alpha as real;
    let o = val(opacity);
    assert(0 as real <= a * o && a * o <= 255 as real) by (nonlinear_arith)
        requires
            0 as real <= a,
            a <= 255 as real,
            0 as real <= o,
            o <= 1 as real,
    ;
    assert(a * (1 as real) == a) by (nonlinear_arith);
    assert(a * (0 as real) == 0 as real) by (nonlinear_arith);
    assert(val(N::count_of(alpha as nat)) == a);
}

/// A clip lets nothing through where it covers nothing and everything where it covers
/// all; where it covers more, no less gets through.
pub proof fn law_clip_lets_through(a: u8, mask: Seq<u8>, at: int, other: Seq<u8>)
    ensures
        mask[at] == 0 ==> clipped(Some(mask), at, a) == 0,
        mask[at] == 255 ==> clipped(Some(mask), at, a) == a,
        mask[at] <= other[at] ==> clipped(Some(mask), at, a) <= clipped(Some(other), at, a) <= a,
        clipped(None, at, a) == a,
{
    let c = mask[at];
    let d = other[at];
    assert(a * 255 / 255 == a);
    assert(a * 0 == 0);
    if c <= d {
        assert(a * c <= a * d <= a * 255) by (nonlinear_arith)
            requires
                0 <= a <= 255,
                0 <= c <= d <= 255,
        ;
        assert(a * c >= 0) by (nonlinear_arith)
            requires
                0 <= a,
                0 <= c,
        ;
    }
}

/// A sample that is transparent, or that the clip holds back, changes nothing; an
/// opaque one that gets through replaces what was there.
pub proof fn law_sample_covers<N: Num>(
    val: spec_fn(N) -> real,
    dst: Color,
    clip: Option<Seq<u8>>,
    at: int,
    r: u8,
    g: u8,
    b: u8,
    a: u8,
)
    requires
        exact(val),
    ensures
        a == 0 ==> sampled::<N>(dst, clip, at, r, g, b, a) == dst,
        (clip matches Some(m) && m[at] == 0) ==> sampled::<N>(dst, clip, at, r, g, b, a) == dst,
        a == 255 && (clip matches Some(m) ==> m[at] == 255) ==> sampled::<N>(
            dst,
            clip,
            at,
            r,
            g,
            b,
            a,
        ) == (Color { r, g, b, a: 255 }),
        (clip matches Some(m) && m[at] == 255) ==> sampled::<N>(dst, clip, at, r, g, b, a)
            == sampled::<N>(dst, None, at, r, g, b, a),
{
    if let Some(m) = clip {
        law_clip_lets_through(a, m, at, m);
    }
    if a == 255 {
        lemma_opaque::<N>(val, dst, r, g, b);
    }
}

/// A byte that is near to a whole number is that number.
proof fn lemma_near_byte(b: u8, v: u8)
    requires
        near(b, v as real),
    ensures
        b == v,
{
}

proof fn lemma_opaque_channel<N: Num>(val: spec_fn(N) -> real, sample: u8, under: u8)
    requires
        exact(val),
    ensures
        ({
            let w = N::div_of(N::count_of(255), crate::toolkit::num::whole::<N>(255));
            &&& crate::toolkit::raster::mixed(
                N::mul_of(N::count_of(sample as nat), w),
                w,
                under,
            ) == sample
            &&& crate::toolkit::raster::mixed(N::count_of(255), w, under) == 255
        }),
{
    let w = N::div_of(N::count_of(255), crate::toolkit::num::whole::<N>(255));
    lemma_blend_channel::<N>(val, 255, sample, under);
    let (s, u, h) = (sample as real, under as real, share(255));
    assert(s * h + u * (1 as real - h) == s) by (nonlinear_arith)
        requires
            h == 1 as real,
    ;
    assert(255 as real * h + u * (1 as real - h) == 255 as real) by (nonlinear_arith)
        requires
            h == 1 as real,
    ;
    assert(over(sample, 255, under) == s);
    assert(over(255, 255, under) == 255u8 as real);
    lemma_near_byte(
        crate::toolkit::raster::mixed(N::mul_of(N::count_of(sample as nat), w), w, under),
        sample,
    );
    lemma_near_byte(crate::toolkit::raster::mixed(N::count_of(255), w, under), 255);
}

/// An opaque sample replaces what is under it.
proof fn lemma_opaque<N: Num>(val: spec_fn(N) -> real, dst: Color, r: u8, g: u8, b: u8)
    requires
        exact(val),
    ensures
        blended::<N>(dst, r, g, b, 255) == (Color { r, g, b, a: 255 }),
{
    lemma_opaque_channel::<N>(val, r, dst.r);
    lemma_opaque_channel::<N>(val, g, dst.g);
    lemma_opaque_channel::<N>(val, b, dst.b);
    lemma_opaque_channel::<N>(val, 255, dst.a);
}

/// How much of a sample with alpha `a` shows.
pub open spec fn share(a: u8) -> real {
    a as real / 255 as real
}

/// What a channel should be: the sample's share, and the rest of what is under it.
pub open spec fn over(sample: u8, a: u8, under: u8) -> real {
    sample as real * share(a) + under as real * (1 as real - share(a))
}

proof fn lemma_blend_channel<N: Num>(val: spec_fn(N) -> real, a: u8, sample: u8, under: u8)
    requires
        exact(val),
    ensures
        ({
            let w = N::div_of(N::count_of(a as nat), crate::toolkit::num::whole::<N>(255));
            &&& val(w) == share(a)
            &&& 0 as real <= share(a) && share(a) <= 1 as real
            &&& 0 as real <= over(sample, a, under) && over(sample, a, under) <= 255 as real
            &&& near(
                crate::toolkit::raster::mixed(
                    N::mul_of(N::count_of(sample as nat), w),
                    w,
                    under,
                ),
                over(sample, a, under),
            )
            &&& a == 255 ==> share(a) == 1 as real
            &&& near(
                crate::toolkit::raster::mixed(N::count_of(a as nat), w, under),
                over(255, a, under),
            )
        }),
{
    lemma_whole::<N>(val, 255);
    lemma_whole::<N>(val, 1);
    let x = a as real;
    let t = share(a);
    assert(t * (255 as real) == x) by (nonlinear_arith)
        requires
            t == x / 255 as real,
    ;
    assert(0 as real <= t && t <= 1 as real) by (nonlinear_arith)
        requires
            t * (255 as real) == x,
            0 as real <= x,
            x <= 255 as real,
    ;
    let s = sample as real;
    let u = under as real;
    assert(0 as real <= s * t + u * (1 as real - t) && s * t + u * (1 as real - t)
        <= 255 as real) by (nonlinear_arith)
        requires
            0 as real <= t,
            t <= 1 as real,
            0 as real <= s,
            s <= 255 as real,
            0 as real <= u,
            u <= 255 as real,
    ;
    let f = 255 as real;
    assert(0 as real <= f * t + u * (1 as real - t) && f * t + u * (1 as real - t)
        <= 255 as real) by (nonlinear_arith)
        requires
            0 as real <= t,
            t <= 1 as real,
            f == 255 as real,
            0 as real <= u,
            u <= 255 as real,
    ;
    assert(f * t == x) by (nonlinear_arith)
        requires
            t * (255 as real) == x,
            f == 255 as real,
    ;
    if a == 255 {
        assert(t == 1 as real) by (nonlinear_arith)
            requires
                t * (255 as real) == x,
                x == 255 as real,
        ;
    }
}

/// Blending a sample over a premultiplied pixel: each channel is the sample's by its
/// alpha, and what was there by the rest.
pub proof fn law_blend_is_sample_over_pixel<N: Num>(
    val: spec_fn(N) -> real,
    dst: Color,
    r: u8,
    g: u8,
    b: u8,
    a: u8,
)
    requires
        exact(val),
        dst.r <= dst.a && dst.g <= dst.a && dst.b <= dst.a,
    ensures
        ({
            let p = blended::<N>(dst, r, g, b, a);
            &&& near(p.r, over(r, a, dst.r))
            &&& near(p.g, over(g, a, dst.g))
            &&& near(p.b, over(b, a, dst.b))
            &&& near(p.a, over(255, a, dst.a))
        }),
{
    lemma_blend_channel::<N>(val, a, r, dst.r);
    lemma_blend_channel::<N>(val, a, g, dst.g);
    lemma_blend_channel::<N>(val, a, b, dst.b);
    lemma_blend_channel::<N>(val, a, 255, dst.a);
    lemma_over_least(r, a, dst.r, dst.a);
    lemma_over_least(g, a, dst.g, dst.a);
    lemma_over_least(b, a, dst.b, dst.a);
}

proof fn lemma_over_least(s: u8, a: u8, u: u8, d: u8)
    requires
        u <= d,
        0 as real <= share(a),
        share(a) <= 1 as real,
    ensures
        over(s, a, u) <= over(255, a, d),
{
    let t = share(a);
    let (x, y, z) = (s as real, u as real, d as real);
    let f = 255 as real;
    assert(x * t + y * (1 as real - t) <= f * t + z * (1 as real - t)) by (nonlinear_arith)
        requires
            x <= f,
            y <= z,
            0 as real <= t,
            t <= 1 as real,
    ;
}

// ---- pictures ----

/// Pixel `p` of the surface shows source pixel `s` of `count`: it is the one that lies
/// there when they are spread evenly from `start` over `extent`.
pub open spec fn shows_source(p: int, start: real, extent: real, count: int, s: int) -> bool {
    &&& 0 <= s < count
    &&& s as real * extent <= (p as real - start) * (count as real)
    &&& (p as real - start) * (count as real) < (s + 1) as real * extent
}

proof fn lemma_source<N: Num>(
    val: spec_fn(N) -> real,
    p: nat,
    start: N,
    extent: N,
    count: u32,
)
    requires
        exact(val),
        count > 0,
        val(extent) > 0 as real,
        val(start) <= p as real && (p as real) < val(start) + val(extent),
    ensures
        shows_source(
            p as int,
            val(start),
            val(extent),
            count as int,
            source_at(p, start, extent, count),
        ),
{
    let d = p as real - val(start);
    let e = val(extent);
    let c = count as real;
    let q = d / e;
    assert(q * e == d) by (nonlinear_arith)
        requires
            q == d / e,
            e > 0 as real,
    ;
    assert(0 as real <= q && q < 1 as real) by (nonlinear_arith)
        requires
            q * e == d,
            0 as real <= d,
            d < e,
            e > 0 as real,
    ;
    assert(0 as real <= q * c && q * c < c) by (nonlinear_arith)
        requires
            0 as real <= q,
            q < 1 as real,
            c > 0 as real,
    ;
    let n = N::mul_of(
        N::div_of(N::sub_of(N::count_of(p), start), extent),
        N::count_of(count as nat),
    );
    assert(val(n) == q * c);
    let i = N::index_of(n);
    assert((i as real) <= q * c && q * c < (i as real) + 1 as real);
    assert(i < count);
    let x = i as real;
    assert(x * e <= d * c && d * c < (x + 1 as real) * e) by (nonlinear_arith)
        requires
            q * e == d,
            e > 0 as real,
            x <= q * c,
            q * c < x + 1 as real,
    ;
    assert((i + 1) as real == x + 1 as real);
}

/// A stretched picture is neither turned nor mirrored: the pixel that shows at a place
/// is the one that lies there when the picture's columns are spread evenly over its
/// bounds from left to right, and its rows from top to bottom.
pub proof fn law_picture_is_stretched<N: Num>(
    val: spec_fn(N) -> real,
    frame: Frame,
    bounds: Rect<N>,
    x: nat,
    y: nat,
)
    requires
        exact(val),
        frame.width > 0,
        frame.height > 0,
        val(bounds.w) > 0 as real,
        val(bounds.h) > 0 as real,
        val(bounds.x) <= x as real && (x as real) < val(bounds.x) + val(bounds.w),
        val(bounds.y) <= y as real && (y as real) < val(bounds.y) + val(bounds.h),
    ensures
        exists|u: int, v: int|
            #[trigger] shows_source(
                x as int,
                val(bounds.x),
                val(bounds.w),
                frame.width as int,
                u,
            ) && #[trigger] shows_source(
                y as int,
                val(bounds.y),
                val(bounds.h),
                frame.height as int,
                v,
            ) && frame_sample(frame, bounds, x, y) == (v * frame.width + u) * 4,
{
    lemma_source(val, x, bounds.x, bounds.w, frame.width);
    lemma_source(val, y, bounds.y, bounds.h, frame.height);
    let u = source_at(x, bounds.x, bounds.w, frame.width);
    let v = source_at(y, bounds.y, bounds.h, frame.height);
    assert(shows_source(x as int, val(bounds.x), val(bounds.w), frame.width as int, u));
    assert(shows_source(y as int, val(bounds.y), val(bounds.h), frame.height as int, v));
}

/// Going right never shows an earlier column of the picture, nor going down an earlier
/// row.
pub proof fn law_sources_go_forward(
    p: int,
    q: int,
    start: real,
    extent: real,
    count: int,
    s: int,
    t: int,
)
    requires
        extent > 0 as real,
        p <= q,
        shows_source(p, start, extent, count, s),
        shows_source(q, start, extent, count, t),
    ensures
        s <= t,
        p == q ==> s == t,
{
    let (a, b) = (p as real - start, q as real - start);
    let c = count as real;
    assert(a * c <= b * c) by (nonlinear_arith)
        requires
            a <= b,
            c >= 0 as real,
    ;
    if s > t {
        let (x, y) = (s as real, (t + 1) as real);
        assert(y * extent <= x * extent) by (nonlinear_arith)
            requires
                y <= x,
                extent > 0 as real,
        ;
    }
    if p == q && t > s {
        let (x, y) = ((s + 1) as real, t as real);
        assert(x * extent <= y * extent) by (nonlinear_arith)
            requires
                x <= y,
                extent > 0 as real,
        ;
    }
}

/// The pixel of a picture in column `i` and row `j`.
pub open spec fn frame_pixel(frame: Frame, i: int, j: int) -> Color {
    let at = 4 * (i + j * frame.width);
    Color {
        r: frame.rgba@[at],
        g: frame.rgba@[at + 1],
        b: frame.rgba@[at + 2],
        a: frame.rgba@[at + 3],
    }
}

proof fn lemma_source_is_offset(p: int, start: int, count: int, s: int)
    requires
        shows_source(p, start as real, count as real, count, s),
        count > 0,
    ensures
        s == p - start,
{
    let c = count as real;
    let d = (p - start) as real;
    let x = s as real;
    let y = (s + 1) as real;
    assert(x <= d && d < y) by (nonlinear_arith)
        requires
            x * c <= d * c,
            d * c < y * c,
            c > 0 as real,
    ;
}

/// A picture drawn at its own size onto whole pixels is copied as it is: with full
/// opacity and no clip, every opaque pixel of it stands where it belongs.
pub proof fn law_picture_at_its_own_size_is_copied<N: Num>(
    val: spec_fn(N) -> real,
    before: Surface,
    frame: Frame,
    bounds: Rect<N>,
    opacity: N,
    left: int,
    top: int,
    i: int,
    j: int,
)
    requires
        exact(val),
        frame.rgba@.len() == frame.width * frame.height * 4,
        val(bounds.x) == left as real,
        val(bounds.y) == top as real,
        val(bounds.w) == frame.width as real,
        val(bounds.h) == frame.height as real,
        val(opacity) == 1 as real,
        0 <= i < frame.width,
        0 <= j < frame.height,
        0 <= left,
        0 <= top,
        left + frame.width <= before.width,
        top + frame.height <= before.height,
        frame_pixel(frame, i, j).a == 255,
    ensures
        pictured(before, None, frame, bounds, opacity, left + i, top + j) == frame_pixel(
            frame,
            i,
            j,
        ),
{
    let (x, y) = ((left + i) as nat, (top + j) as nat);
    lemma_span::<N>(val, bounds.x, bounds.w, before.width, left, frame.width as int);
    lemma_span::<N>(val, bounds.y, bounds.h, before.height, top, frame.height as int);
    lemma_whole::<N>(val, 0);
    lemma_source(val, x, bounds.x, bounds.w, frame.width);
    lemma_source(val, y, bounds.y, bounds.h, frame.height);
    lemma_source_is_offset(
        x as int,
        left,
        frame.width as int,
        source_at(x, bounds.x, bounds.w, frame.width),
    );
    lemma_source_is_offset(
        y as int,
        top,
        frame.height as int,
        source_at(y, bounds.y, bounds.h, frame.height),
    );
    let w = frame.width as int;
    assert((j * w + i) * 4 == 4 * (i + j * w)) by (nonlinear_arith);
    assert(frame_sample(frame, bounds, x, y) == 4 * (i + j * w));
    law_opacity_scales_alpha(val, 255, opacity);
    let p = frame_pixel(frame, i, j);
    law_sample_covers::<N>(
        val,
        before.pixels@[place(before.width, x as int, y as int)],
        None,
        place(before.width, x as int, y as int),
        p.r,
        p.g,
        p.b,
        255,
    );
}

/// The pixels that whole bounds inside the surface cover.
proof fn lemma_span<N: Num>(
    val: spec_fn(N) -> real,
    start: N,
    extent: N,
    limit: u32,
    a: int,
    n: int,
)
    requires
        exact(val),
        val(start) == a as real,
        val(extent) == n as real,
        0 <= a,
        0 <= n,
        a + n <= limit,
    ensures
        span_of(start, extent, limit) == (a, a + n),
{
    lemma_whole::<N>(val, 0);
    assert(val(N::count_of(limit as nat)) == limit as real);
    let s = N::max_of(start, crate::toolkit::num::whole::<N>(0));
    assert(val(s) == a as real);
    let e = N::min_of(N::add_of(start, extent), N::count_of(limit as nat));
    assert(val(e) == (a + n) as real);
    let i = N::index_of(s);
    let k = N::index_of(e);
    assert((i as real) <= val(s) && val(s) < (i as real) + 1 as real);
    assert((k as real) <= val(e) && val(e) < (k as real) + 1 as real);
}

/// A picture changes no pixel that lies wholly outside its bounds, and nothing at all if
/// its bounds have no area.
pub proof fn law_picture_stays_in_its_bounds<N: Num>(
    val: spec_fn(N) -> real,
    before: Surface,
    clip: Option<Seq<u8>>,
    frame: Frame,
    bounds: Rect<N>,
    opacity: N,
    x: int,
    y: int,
)
    requires
        exact(val),
        0 <= x < before.width,
        0 <= y < before.height,
        (x + 1) as real <= val(bounds.x) || val(bounds.x) + val(bounds.w) <= x as real || (y
            + 1) as real <= val(bounds.y) || val(bounds.y) + val(bounds.h) <= y as real
            || val(bounds.w) <= 0 as real || val(bounds.h) <= 0 as real,
    ensures
        pictured(before, clip, frame, bounds, opacity, x, y) == before.pixels@[place(
            before.width,
            x,
            y,
        )],
{
    lemma_whole::<N>(val, 0);
    lemma_outside_span::<N>(val, bounds.x, bounds.w, before.width, x);
    lemma_outside_span::<N>(val, bounds.y, bounds.h, before.height, y);
}

proof fn lemma_outside_span<N: Num>(
    val: spec_fn(N) -> real,
    start: N,
    extent: N,
    limit: u32,
    p: int,
)
    requires
        exact(val),
        0 <= p < limit,
    ensures
        (p + 1) as real <= val(start) ==> p < span_of(start, extent, limit).0,
        val(start) + val(extent) <= p as real ==> p >= span_of(start, extent, limit).1,
{
    lemma_whole::<N>(val, 0);
    assert(val(N::count_of(limit as nat)) == limit as real);
    let s = N::max_of(start, crate::toolkit::num::whole::<N>(0));
    let e = N::min_of(N::add_of(start, extent), N::count_of(limit as nat));
    let i = N::index_of(s);
    let k = N::index_of(e);
    if (p + 1) as real <= val(start) {
        assert(val(s) == val(start));
    }
    if val(start) + val(extent) <= p as real {
        assert(val(e) == val(start) + val(extent));
    }
}

// ---- packing ----

/// A packed pixel gives its colors back.
pub proof fn law_packed_gives_colors_back(p: Color)
    ensures
        packed(p) as int / 0x1_0000 == p.r,
        packed(p) as int / 0x100 % 0x100 == p.g,
        packed(p) as int % 0x100 == p.b,
{
}

// ---- outlines ----

/// The point that a segment ends in.
pub open spec fn end_point<N>(s: Segment<N>) -> Option<Point<N>> {
    match s {
        Segment::MoveTo(p) => Some(p),
        Segment::LineTo(p) => Some(p),
        Segment::QuadTo(_, p) => Some(p),
        Segment::Close => None,
    }
}

/// A point on the edge of a rectangle.
pub open spec fn on_edge<N>(val: spec_fn(N) -> real, r: Rect<N>, p: Point<N>) -> bool {
    let (l, t) = (val(r.x), val(r.y));
    let (rt, b) = (l + val(r.w), t + val(r.h));
    &&& l <= val(p.x) && val(p.x) <= rt && t <= val(p.y) && val(p.y) <= b
    &&& val(p.x) == l || val(p.x) == rt || val(p.y) == t || val(p.y) == b
}

/// The outline curves around the corner at `(x, y)` from `radius` before it to `radius`
/// behind it.
pub open spec fn rounds_corner<N>(
    val: spec_fn(N) -> real,
    s: Seq<Segment<N>>,
    x: real,
    y: real,
    radius: real,
) -> bool {
    exists|k: int|
        0 < k < s.len() && (#[trigger] s[k] matches Segment::QuadTo(c, to) && val(c.x) == x && val(
            c.y,
        ) == y && distance(val, to, x, y) == radius && (end_point(s[k - 1]) matches Some(from)
            && distance(val, from, x, y) == radius))
}

pub open spec fn gap_between(a: real, b: real) -> real {
    if a < b {
        b - a
    } else {
        a - b
    }
}

/// How far a point is from `(x, y)`, across and down together.
pub open spec fn distance<N>(val: spec_fn(N) -> real, p: Point<N>, x: real, y: real) -> real {
    gap_between(val(p.x), x) + gap_between(val(p.y), y)
}

/// A corner's radius is what was asked for, but none below zero and none over half a
/// side.
pub open spec fn fitting(asked: real, w: real, h: real) -> real {
    let most = if w < h {
        w / 2 as real
    } else {
        h / 2 as real
    };
    if asked < 0 as real {
        0 as real
    } else if asked < most {
        asked
    } else {
        most
    }
}

/// The corners' radii fit: `top` is the top left one, `right` top right, `bottom` bottom
/// right, `left` bottom left.
pub proof fn law_corners_fit<N: Num>(val: spec_fn(N) -> real, r: Rect<N>, radius: Edges<N>)
    requires
        exact(val),
        val(r.w) > 0 as real,
        val(r.h) > 0 as real,
    ensures
        ({
            let (tl, tr, br, bl) = corners(r, radius);
            let (w, h) = (val(r.w), val(r.h));
            &&& val(tl) == fitting(val(radius.top), w, h)
            &&& val(tr) == fitting(val(radius.right), w, h)
            &&& val(br) == fitting(val(radius.bottom), w, h)
            &&& val(bl) == fitting(val(radius.left), w, h)
        }),
{
    lemma_whole::<N>(val, 0);
    lemma_whole::<N>(val, 2);
}

/// An outline starts somewhere, closes, runs along the edges of its rectangle, and
/// rounds each corner by that corner's radius.
pub proof fn law_outline_follows_the_rect<N: Num>(
    val: spec_fn(N) -> real,
    r: Rect<N>,
    tl: N,
    tr: N,
    br: N,
    bl: N,
)
    requires
        exact(val),
        0 as real <= val(tl) && val(tl) <= val(r.w) && val(tl) <= val(r.h),
        0 as real <= val(tr) && val(tr) <= val(r.w) && val(tr) <= val(r.h),
        0 as real <= val(br) && val(br) <= val(r.w) && val(br) <= val(r.h),
        0 as real <= val(bl) && val(bl) <= val(r.w) && val(bl) <= val(r.h),
    ensures
        ({
            let s = around(r, tl, tr, br, bl);
            let (l, t) = (val(r.x), val(r.y));
            let (rt, b) = (l + val(r.w), t + val(r.h));
            &&& s.len() >= 6
            &&& s[0] is MoveTo
            &&& s.last() is Close
            &&& forall|k: int|
                0 <= k < s.len() - 1 ==> (end_point(#[trigger] s[k]) matches Some(p) && on_edge(
                    val,
                    r,
                    p,
                ))
            &&& val(tl) > 0 as real ==> rounds_corner(val, s, l, t, val(tl))
            &&& val(tr) > 0 as real ==> rounds_corner(val, s, rt, t, val(tr))
            &&& val(br) > 0 as real ==> rounds_corner(val, s, rt, b, val(br))
            &&& val(bl) > 0 as real ==> rounds_corner(val, s, l, b, val(bl))
        }),
{
    lemma_whole::<N>(val, 0);
    let s = around(r, tl, tr, br, bl);
    let (l, t) = (val(r.x), val(r.y));
    let (rt, b) = (l + val(r.w), t + val(r.h));
    let zero = crate::toolkit::num::whole::<N>(0);
    let k1 = 2int;
    let k2 = k1 + 1 + if N::lt_of(zero, tr) {
        1int
    } else {
        0
    };
    let k3 = k2 + 1 + if N::lt_of(zero, br) {
        1int
    } else {
        0
    };
    let k4 = k3 + 1 + if N::lt_of(zero, bl) {
        1int
    } else {
        0
    };
    if val(tr) > 0 as real {
        assert(s[k1] is QuadTo);
        assert(s[k1 - 1] is LineTo);
    }
    if val(br) > 0 as real {
        assert(s[k2] is QuadTo);
        assert(s[k2 - 1] is LineTo);
    }
    if val(bl) > 0 as real {
        assert(s[k3] is QuadTo);
        assert(s[k3 - 1] is LineTo);
    }
    if val(tl) > 0 as real {
        assert(s[k4] is QuadTo);
        assert(s[k4 - 1] is LineTo);
    }
}

/// Outside of every group nothing is faded; inside one, its opacity counts, and a group
/// within a group fades what the outer one left.
pub proof fn law_opacities_multiply<N: Num>(val: spec_fn(N) -> real, stack: Seq<N>, opacity: N)
    requires
        exact(val),
    ensures
        val(top_opacity(Seq::<N>::empty())) == 1 as real,
        top_opacity(stack.push(opacity)) == opacity,
        val(top_opacity(stack.push(N::mul_of(top_opacity(stack), opacity)))) == val(
            top_opacity(stack),
        ) * val(opacity),
{
    lemma_whole(val, 1);
}

} // verus!
