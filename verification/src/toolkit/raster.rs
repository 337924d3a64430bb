//! Putting pixels on a surface: blending, stretching pictures, outlines of rounded
//! rectangles, and packing for the window.

use vstd::prelude::*;
use crate::assets::decode::Frame;
use crate::toolkit::geometry::{Color, Edges, Point, Rect};
use crate::toolkit::num::{whole, Num};

verus! {

/// A picture in memory: premultiplied colors, row by row.
#[derive(Debug)]
pub struct Surface {
    pub width: u32,
    pub height: u32,
    pub pixels: Vec<Color>,
}

pub open spec fn clear_color() -> Color {
    Color { r: 0, g: 0, b: 0, a: 0 }
}

impl Surface {
    /// There is a pixel for every place.
    pub open spec fn wf(&self) -> bool {
        self.pixels@.len() == self.width * self.height
    }

    /// A transparent surface.
    pub fn new(width: u32, height: u32) -> (r: Surface)
        requires
            width * height <= usize::MAX,
        ensures
            r.wf(),
            r.width == width,
            r.height == height,
            forall|i: int| 0 <= i < r.pixels@.len() ==> #[trigger] r.pixels@[i] == clear_color(),
    {
        let n: usize = width as usize * height as usize;
        let mut pixels: Vec<Color> = Vec::new();
        let mut i: usize = 0;
        while i < n
            invariant
                0 <= i <= n,
                pixels@.len() == i,
                forall|k: int| 0 <= k < i ==> #[trigger] pixels@[k] == clear_color(),
            decreases n - i,
        {
            pixels.push(Color { r: 0, g: 0, b: 0, a: 0 });
            i = i + 1;
        }
        Surface { width, height, pixels }
    }
}

// ---- opacity and coverage ----

/// A color's alpha under an opacity.
pub open spec fn faded<N: Num>(alpha: u8, opacity: N) -> u8 {
    N::byte_of(N::mul_of(N::count_of(alpha as nat), opacity))
}

fn fade<N: Num>(alpha: u8, opacity: N) -> (r: u8)
    ensures
        r == faded(alpha, opacity),
{
    N::count(alpha as usize).times(opacity).to_byte()
}

/// A color under an opacity.
pub fn with_opacity<N: Num>(color: Color, opacity: N) -> (r: Color)
    ensures
        r == (Color { a: faded(color.a, opacity), ..color }),
{
    Color { r: color.r, g: color.g, b: color.b, a: fade(color.a, opacity) }
}

/// Nested opacities, the innermost last; each is what it amounts to with those
/// around it.
pub struct Opacities<N> {
    pub stack: Vec<N>,
}

pub open spec fn top_opacity<N: Num>(stack: Seq<N>) -> N {
    if stack.len() == 0 {
        whole(1)
    } else {
        stack.last()
    }
}

impl<N: Num> Opacities<N> {
    pub fn new() -> (r: Self)
        ensures
            r.stack@ == Seq::<N>::empty(),
    {
        Opacities { stack: Vec::new() }
    }

    /// What is drawn now is drawn with this opacity.
    pub fn active_opacity(&self) -> (r: N)
        ensures
            r == top_opacity(self.stack@),
    {
        let n: usize = self.stack.len();
        if n == 0 {
            N::ratio(1, 1)
        } else {
            self.stack[n - 1]
        }
    }

    pub fn push_opacity(&mut self, opacity: N)
        ensures
            final(self).stack@ == old(self).stack@.push(
                N::mul_of(top_opacity(old(self).stack@), opacity),
            ),
    {
        let top: N = self.active_opacity();
        self.stack.push(top.times(opacity));
    }

    pub fn pop_opacity(&mut self)
        ensures
            final(self).stack@ == if old(self).stack@.len() == 0 {
                old(self).stack@
            } else {
                old(self).stack@.drop_last()
            },
    {
        let _ = self.stack.pop();
    }
}

/// An alpha under a clip's coverage.
pub open spec fn covered(alpha: u8, coverage: u8) -> u8 {
    ((alpha * coverage) / 255) as u8
}

fn cover(alpha: u8, coverage: u8) -> (r: u8)
    ensures
        r == covered(alpha, coverage),
{
    assert(0 <= alpha * coverage <= 255 * 255) by (nonlinear_arith)
        requires
            0 <= alpha <= 255,
            0 <= coverage <= 255,
    ;
    ((alpha as u16 * coverage as u16) / 255) as u8
}

// ---- blending ----

/// One channel of a sample over what is there.
pub open spec fn mixed<N: Num>(sample: N, weight: N, under: u8) -> u8 {
    N::byte_of(N::add_of(sample, N::mul_of(N::count_of(under as nat), N::sub_of(whole(1), weight))))
}

fn mix_channel<N: Num>(sample: N, inv: N, under: u8) -> (r: u8)
    ensures
        r == N::byte_of(N::add_of(sample, N::mul_of(N::count_of(under as nat), inv))),
{
    sample.plus(N::count(under as usize).times(inv)).to_byte()
}

pub open spec fn lesser(a: u8, b: u8) -> u8 {
    if a < b {
        a
    } else {
        b
    }
}

fn lesser_byte(a: u8, b: u8) -> (r: u8)
    ensures
        r == lesser(a, b),
{
    if a < b {
        a
    } else {
        b
    }
}

/// A sample with straight alpha over a premultiplied pixel.
pub open spec fn blended<N: Num>(dst: Color, r: u8, g: u8, b: u8, a: u8) -> Color {
    let weight = N::div_of(N::count_of(a as nat), whole::<N>(255));
    let out_a = mixed(N::count_of(a as nat), weight, dst.a);
    Color {
        r: lesser(mixed(N::mul_of(N::count_of(r as nat), weight), weight, dst.r), out_a),
        g: lesser(mixed(N::mul_of(N::count_of(g as nat), weight), weight, dst.g), out_a),
        b: lesser(mixed(N::mul_of(N::count_of(b as nat), weight), weight, dst.b), out_a),
        a: out_a,
    }
}

/// A sample with straight alpha over a premultiplied pixel.
pub fn blend_pixel<N: Num>(dst: Color, r: u8, g: u8, b: u8, a: u8) -> (p: Color)
    ensures
        p == blended::<N>(dst, r, g, b, a),
{
    let weight: N = N::count(a as usize).over(N::ratio(255, 1));
    let inv: N = N::ratio(1, 1).minus(weight);
    let out_a: u8 = mix_channel(N::count(a as usize), inv, dst.a);
    let out_r: u8 = mix_channel(N::count(r as usize).times(weight), inv, dst.r);
    let out_g: u8 = mix_channel(N::count(g as usize).times(weight), inv, dst.g);
    let out_b: u8 = mix_channel(N::count(b as usize).times(weight), inv, dst.b);
    Color {
        r: lesser_byte(out_r, out_a),
        g: lesser_byte(out_g, out_a),
        b: lesser_byte(out_b, out_a),
        a: out_a,
    }
}

/// No color of a blended pixel exceeds its alpha: it is premultiplied.
pub proof fn law_blended_is_premultiplied<N: Num>(dst: Color, r: u8, g: u8, b: u8, a: u8)
    ensures
        ({
            let p = blended::<N>(dst, r, g, b, a);
            p.r <= p.a && p.g <= p.a && p.b <= p.a
        }),
{
}

/// How much of a sample with alpha `a` gets through the clip at place `at`.
pub open spec fn clipped(clip: Option<Seq<u8>>, at: int, a: u8) -> u8 {
    match clip {
        Some(mask) => covered(a, mask[at]),
        None => a,
    }
}

pub open spec fn mask_of(clip: Option<&Vec<u8>>) -> Option<Seq<u8>> {
    match clip {
        Some(m) => Some(m@),
        None => None,
    }
}

/// The pixel at `at` once a sample was put there.
pub open spec fn sampled<N: Num>(
    dst: Color,
    clip: Option<Seq<u8>>,
    at: int,
    r: u8,
    g: u8,
    b: u8,
    a: u8,
) -> Color {
    if a == 0 || clipped(clip, at, a) == 0 {
        dst
    } else {
        blended::<N>(dst, r, g, b, clipped(clip, at, a))
    }
}

fn put_sample<N: Num>(
    surface: &mut Surface,
    clip: Option<&Vec<u8>>,
    at: usize,
    r: u8,
    g: u8,
    b: u8,
    a: u8,
)
    requires
        at < old(surface).pixels@.len(),
        mask_of(clip) matches Some(m) ==> at < m.len(),
    ensures
        final(surface).pixels@ == old(surface).pixels@.update(
            at as int,
            sampled::<N>(old(surface).pixels@[at as int], mask_of(clip), at as int, r, g, b, a),
        ),
        final(surface).width == old(surface).width,
        final(surface).height == old(surface).height,
{
    let ghost before = surface.pixels@;
    if a == 0 {
        assert(before.update(at as int, before[at as int]) =~= before);
        return ;
    }
    let alpha: u8 = match clip {
        Some(mask) => cover(a, mask[at]),
        None => a,
    };
    if alpha == 0 {
        assert(before.update(at as int, before[at as int]) =~= before);
        return ;
    }
    let p: Color = blend_pixel::<N>(surface.pixels[at], r, g, b, alpha);
    surface.pixels[at] = p;
}

/// Where the pixel at column `x` and row `y` stands.
pub open spec fn place(width: u32, x: int, y: int) -> int {
    y * width + x
}

proof fn lemma_place(width: u32, height: u32, x: int, y: int)
    requires
        0 <= x < width,
        0 <= y < height,
    ensures
        0 <= place(width, x, y) < width * height,
        y * width <= place(width, x, y),
{
    assert(y * width + width <= height * width) by (nonlinear_arith)
        requires
            y + 1 <= height,
            width >= 0,
    ;
    assert(y * width >= 0) by (nonlinear_arith)
        requires
            y >= 0,
            width >= 0,
    ;
    assert(width * height == height * width) by (nonlinear_arith);
}

/// A sample of a glyph at `(x, y)`, which may lie off the surface.
pub fn draw_sample<N: Num>(
    surface: &mut Surface,
    clip: Option<&Vec<u8>>,
    x: i64,
    y: i64,
    color: Color,
)
    requires
        old(surface).wf(),
        mask_of(clip) matches Some(m) ==> m.len() == old(surface).pixels@.len(),
    ensures
        final(surface).wf(),
        final(surface).width == old(surface).width,
        final(surface).height == old(surface).height,
        final(surface).pixels@ == if 0 <= x < old(surface).width && 0 <= y < old(surface).height {
            let at = place(old(surface).width, x as int, y as int);
            old(surface).pixels@.update(
                at,
                sampled::<N>(
                    old(surface).pixels@[at],
                    mask_of(clip),
                    at,
                    color.r,
                    color.g,
                    color.b,
                    color.a,
                ),
            )
        } else {
            old(surface).pixels@
        },
{
    if x < 0 || y < 0 || x >= surface.width as i64 || y >= surface.height as i64 {
        return ;
    }
    proof {
        lemma_place(surface.width, surface.height, x as int, y as int);
    }
    let _ = surface.pixels.len();
    let at: usize = y as usize * surface.width as usize + x as usize;
    put_sample::<N>(surface, clip, at, color.r, color.g, color.b, color.a);
}

// ---- pictures ----

/// Which of `count` source pixels shows at `p`, for a picture that is `extent` long
/// and starts at `start`: the nearest one.
pub open spec fn source_at<N: Num>(p: nat, start: N, extent: N, count: u32) -> int {
    let i = N::index_of(
        N::mul_of(
            N::div_of(N::sub_of(N::count_of(p), start), extent),
            N::count_of(count as nat),
        ),
    );
    if i < count {
        i as int
    } else {
        count - 1
    }
}

fn source_index<N: Num>(p: usize, start: N, extent: N, count: u32) -> (r: usize)
    requires
        count > 0,
    ensures
        r as int == source_at(p as nat, start, extent, count),
        r < count,
{
    let i: usize = N::count(p).minus(start).over(extent).times(N::count(count as usize)).to_index();
    if i < count as usize {
        i
    } else {
        count as usize - 1
    }
}

/// The pixels of a surface that a picture covers along one axis: from, and up to,
/// and none beyond its edge.
pub open spec fn span_of<N: Num>(start: N, extent: N, limit: u32) -> (int, int) {
    let end = N::index_of(N::min_of(N::add_of(start, extent), N::count_of(limit as nat)));
    (
        N::index_of(N::max_of(start, whole(0))) as int,
        if end < limit {
            end as int
        } else {
            limit as int
        },
    )
}

fn span_end<N: Num>(start: N, extent: N, limit: u32) -> (r: usize)
    ensures
        r as int == span_of(start, extent, limit).1,
        r <= limit,
{
    let end: usize = start.plus(extent).lesser_of(N::count(limit as usize)).to_index();
    if end < limit as usize {
        end
    } else {
        limit as usize
    }
}

/// A picture is drawn at all.
pub open spec fn shows_picture<N: Num>(frame: Frame, bounds: Rect<N>) -> bool {
    &&& frame.width > 0 && frame.height > 0
    &&& !N::le_of(bounds.w, whole(0)) && !N::le_of(bounds.h, whole(0))
}

/// The picture's pixel that shows at `(x, y)`.
pub open spec fn frame_sample<N: Num>(frame: Frame, bounds: Rect<N>, x: nat, y: nat) -> int {
    let v = source_at(y, bounds.y, bounds.h, frame.height);
    let u = source_at(x, bounds.x, bounds.w, frame.width);
    (v * frame.width + u) * 4
}

/// The pixel at `(x, y)` once a picture was stretched onto `bounds`.
pub open spec fn pictured<N: Num>(
    before: Surface,
    clip: Option<Seq<u8>>,
    frame: Frame,
    bounds: Rect<N>,
    opacity: N,
    x: int,
    y: int,
) -> Color {
    let at = place(before.width, x, y);
    let (x0, x1) = span_of(bounds.x, bounds.w, before.width);
    let (y0, y1) = span_of(bounds.y, bounds.h, before.height);
    if shows_picture(frame, bounds) && x0 <= x < x1 && y0 <= y < y1 {
        let i = frame_sample(frame, bounds, x as nat, y as nat);
        sampled::<N>(
            before.pixels@[at],
            clip,
            at,
            frame.rgba@[i],
            frame.rgba@[i + 1],
            frame.rgba@[i + 2],
            faded(frame.rgba@[i + 3], opacity),
        )
    } else {
        before.pixels@[at]
    }
}

proof fn lemma_sample_in_frame<N: Num>(frame: Frame, bounds: Rect<N>, x: nat, y: nat)
    requires
        frame.width > 0,
        frame.height > 0,
        frame.rgba@.len() == frame.width * frame.height * 4,
    ensures
        0 <= frame_sample(frame, bounds, x, y) <= frame.rgba@.len() - 4,
{
    let v = source_at(y, bounds.y, bounds.h, frame.height);
    let u = source_at(x, bounds.x, bounds.w, frame.width);
    lemma_place(frame.width, frame.height, u, v);
}

/// Two places are the same only if column and row are.
proof fn lemma_place_injective(width: u32, x: int, y: int, a: int, b: int)
    requires
        0 <= x < width,
        0 <= a < width,
        place(width, x, y) == place(width, a, b),
    ensures
        x == a && y == b,
{
    if y < b {
        assert(y * width + width <= b * width) by (nonlinear_arith)
            requires
                y + 1 <= b,
                width >= 0,
        ;
    }
    if b < y {
        assert(b * width + width <= y * width) by (nonlinear_arith)
            requires
                b + 1 <= y,
                width >= 0,
        ;
    }
}

/// Pixel `(x, y)` was drawn before pixel `(px, py)`, row by row.
pub open spec fn drawn_before(x: int, y: int, px: int, py: int) -> bool {
    y < py || (y == py && x < px)
}

/// Stretches a picture onto `bounds`, the nearest of its pixels for each pixel.
pub fn draw_image<N: Num>(
    surface: &mut Surface,
    clip: Option<&Vec<u8>>,
    frame: &Frame,
    bounds: Rect<N>,
    opacity: N,
)
    requires
        old(surface).wf(),
        mask_of(clip) matches Some(m) ==> m.len() == old(surface).pixels@.len(),
        frame.rgba@.len() == frame.width * frame.height * 4,
    ensures
        final(surface).wf(),
        final(surface).width == old(surface).width,
        final(surface).height == old(surface).height,
        forall|x: int, y: int|
            0 <= x < old(surface).width && 0 <= y < old(surface).height
                ==> #[trigger] final(surface).pixels@[place(old(surface).width, x, y)] == pictured(
                *old(surface),
                mask_of(clip),
                *frame,
                bounds,
                opacity,
                x,
                y,
            ),
{
    let zero: N = N::ratio(0, 1);
    if frame.width == 0 || frame.height == 0 || bounds.w.at_most(zero) || bounds.h.at_most(zero) {
        return ;
    }
    let ghost before = *surface;
    let ghost mask = mask_of(clip);
    let width: u32 = surface.width;
    let height: u32 = surface.height;
    let x0: usize = bounds.x.greater_of(zero).to_index();
    let y0: usize = bounds.y.greater_of(zero).to_index();
    let x1: usize = span_end(bounds.x, bounds.w, width);
    let y1: usize = span_end(bounds.y, bounds.h, height);
    let _ = surface.pixels.len();
    let _ = frame.rgba.len();
    let mut py: usize = y0;
    while py < y1
        invariant
            y0 <= py,
            before == *old(surface),
            before.wf(),
            mask == mask_of(clip),
            mask matches Some(m) ==> m.len() == before.pixels@.len(),
            frame.width > 0,
            frame.height > 0,
            shows_picture(*frame, bounds),
            frame.rgba@.len() == frame.width * frame.height * 4,
            frame.rgba@.len() <= usize::MAX,
            before.pixels@.len() <= usize::MAX,
            (x0 as int, x1 as int) == span_of(bounds.x, bounds.w, before.width),
            (y0 as int, y1 as int) == span_of(bounds.y, bounds.h, before.height),
            x1 <= before.width,
            y1 <= before.height,
            width == before.width,
            surface.wf(),
            surface.width == before.width,
            surface.height == before.height,
            surface.pixels@.len() == before.pixels@.len(),
            forall|x: int, y: int|
                0 <= x < before.width && 0 <= y < before.height && y < py
                    ==> #[trigger] surface.pixels@[place(before.width, x, y)] == pictured(
                    before,
                    mask,
                    *frame,
                    bounds,
                    opacity,
                    x,
                    y,
                ),
            forall|x: int, y: int|
                0 <= x < before.width && 0 <= y < before.height && y >= py
                    ==> #[trigger] surface.pixels@[place(before.width, x, y)]
                    == before.pixels@[place(before.width, x, y)],
        decreases y1 - py,
    {
        let v: usize = source_index(py, bounds.y, bounds.h, frame.height);
        let mut px: usize = x0;
        while px < x1
            invariant
                x0 <= px,
                y0 <= py < y1,
                v as int == source_at(py as nat, bounds.y, bounds.h, frame.height),
                v < frame.height,
                before == *old(surface),
                before.wf(),
                mask == mask_of(clip),
                mask matches Some(m) ==> m.len() == before.pixels@.len(),
                frame.width > 0,
                frame.height > 0,
                shows_picture(*frame, bounds),
                frame.rgba@.len() == frame.width * frame.height * 4,
                frame.rgba@.len() <= usize::MAX,
                before.pixels@.len() <= usize::MAX,
                (x0 as int, x1 as int) == span_of(bounds.x, bounds.w, before.width),
                (y0 as int, y1 as int) == span_of(bounds.y, bounds.h, before.height),
                x1 <= before.width,
                y1 <= before.height,
                width == before.width,
                surface.wf(),
                surface.width == before.width,
                surface.height == before.height,
                surface.pixels@.len() == before.pixels@.len(),
                forall|x: int, y: int|
                    0 <= x < before.width && 0 <= y < before.height && drawn_before(
                        x,
                        y,
                        px as int,
                        py as int,
                    ) ==> #[trigger] surface.pixels@[place(before.width, x, y)] == pictured(
                        before,
                        mask,
                        *frame,
                        bounds,
                        opacity,
                        x,
                        y,
                    ),
                forall|x: int, y: int|
                    0 <= x < before.width && 0 <= y < before.height && !drawn_before(
                        x,
                        y,
                        px as int,
                        py as int,
                    ) ==> #[trigger] surface.pixels@[place(before.width, x, y)]
                        == before.pixels@[place(before.width, x, y)],
            decreases x1 - px,
        {
            let u: usize = source_index(px, bounds.x, bounds.w, frame.width);
            let ghost now = surface.pixels@;
            proof {
                lemma_sample_in_frame(*frame, bounds, px as nat, py as nat);
                lemma_place(frame.width, frame.height, u as int, v as int);
                lemma_place(before.width, before.height, px as int, py as int);
            }
            let idx: usize = (v * frame.width as usize + u) * 4;
            let r: u8 = frame.rgba[idx];
            let g: u8 = frame.rgba[idx + 1];
            let b: u8 = frame.rgba[idx + 2];
            let alpha: u8 = fade(frame.rgba[idx + 3], opacity);
            let at: usize = py * width as usize + px;
            put_sample::<N>(surface, clip, at, r, g, b, alpha);
            proof {
                assert(at as int == place(before.width, px as int, py as int));
                assert(now[at as int] == before.pixels@[at as int]);
                assert forall|x: int, y: int|
                    0 <= x < before.width && 0 <= y < before.height && drawn_before(
                        x,
                        y,
                        px + 1,
                        py as int,
                    ) implies #[trigger] surface.pixels@[place(before.width, x, y)] == pictured(
                    before,
                    mask,
                    *frame,
                    bounds,
                    opacity,
                    x,
                    y,
                ) by {
                    lemma_place(before.width, before.height, x, y);
                    if place(before.width, x, y) == at as int {
                        lemma_place_injective(before.width, x, y, px as int, py as int);
                    } else {
                        assert(surface.pixels@[place(before.width, x, y)] == now[place(
                            before.width,
                            x,
                            y,
                        )]);
                    }
                }
                assert forall|x: int, y: int|
                    0 <= x < before.width && 0 <= y < before.height && !drawn_before(
                        x,
                        y,
                        px + 1,
                        py as int,
                    ) implies #[trigger] surface.pixels@[place(before.width, x, y)]
                    == before.pixels@[place(before.width, x, y)] by {
                    lemma_place(before.width, before.height, x, y);
                    if place(before.width, x, y) == at as int {
                        lemma_place_injective(before.width, x, y, px as int, py as int);
                    } else {
                        assert(surface.pixels@[place(before.width, x, y)] == now[place(
                            before.width,
                            x,
                            y,
                        )]);
                    }
                }
            }
            px = px + 1;
        }
        proof {
            assert forall|x: int, y: int|
                0 <= x < before.width && 0 <= y < before.height && y < py + 1
                    implies #[trigger] surface.pixels@[place(before.width, x, y)] == pictured(
                before,
                mask,
                *frame,
                bounds,
                opacity,
                x,
                y,
            ) by {
                if !drawn_before(x, y, px as int, py as int) {
                    assert(y == py && x >= x1);
                }
            }
        }
        py = py + 1;
    }
}

// ---- packing ----

/// A pixel as the window takes it: the colors in the low three bytes.
pub open spec fn packed(p: Color) -> u32 {
    (p.r as u32 * 0x1_0000 + p.g as u32 * 0x100 + p.b as u32) as u32
}

/// Packs the surface into `out`, as far as both go.
pub fn present_to_softbuffer(surface: &Surface, out: &mut Vec<u32>)
    ensures
        final(out)@.len() == old(out)@.len(),
        forall|i: int|
            0 <= i < old(out)@.len() ==> #[trigger] final(out)@[i] == if i < surface.pixels@.len() {
                packed(surface.pixels@[i])
            } else {
                old(out)@[i]
            },
{
    let mut i: usize = 0;
    while i < surface.pixels.len() && i < out.len()
        invariant
            0 <= i <= surface.pixels@.len(),
            out@.len() == old(out)@.len(),
            i <= out@.len(),
            forall|k: int| 0 <= k < i ==> #[trigger] out@[k] == packed(surface.pixels@[k]),
            forall|k: int| i <= k < out@.len() ==> #[trigger] out@[k] == old(out)@[k],
        decreases surface.pixels@.len() - i,
    {
        let p: Color = surface.pixels[i];
        let v: u32 = p.r as u32 * 0x1_0000 + p.g as u32 * 0x100 + p.b as u32;
        out[i] = v;
        i = i + 1;
    }
}

// ---- outlines ----

/// A part of an outline.
#[derive(Debug, Clone, Copy)]
pub enum Segment<N> {
    MoveTo(Point<N>),
    LineTo(Point<N>),
    /// A curve: its control point, and its end.
    QuadTo(Point<N>, Point<N>),
    Close,
}

/// The outline of a rectangle.
pub enum Outline<N> {
    /// There is nothing to outline.
    Empty,
    /// The corners are as good as square.
    Square(Rect<N>),
    Rounded(Vec<Segment<N>>),
}

pub open spec fn at<N>(x: N, y: N) -> Point<N> {
    Point { x, y }
}

/// A corner's radius: none below zero, and no more than half a side.
pub open spec fn corner<N: Num>(radius: N, max: N) -> N {
    N::min_of(N::max_of(radius, whole(0)), max)
}

/// A curve, if the corner is round.
pub open spec fn curve<N: Num>(radius: N, control: Point<N>, end: Point<N>) -> Seq<Segment<N>> {
    if N::lt_of(whole(0), radius) {
        seq![Segment::QuadTo(control, end)]
    } else {
        Seq::empty()
    }
}

pub open spec fn small<N: Num>(radius: N) -> bool {
    N::le_of(radius, N::ratio_of(1, 2))
}

/// The corners' radii: top left, top right, bottom right, bottom left.
pub open spec fn corners<N: Num>(r: Rect<N>, radius: Edges<N>) -> (N, N, N, N) {
    let max = N::min_of(N::div_of(r.w, whole(2)), N::div_of(r.h, whole(2)));
    (
        corner(radius.top, max),
        corner(radius.right, max),
        corner(radius.bottom, max),
        corner(radius.left, max),
    )
}

/// Around a rectangle with rounded corners, clockwise from the top left.
pub open spec fn around<N: Num>(r: Rect<N>, tl: N, tr: N, br: N, bl: N) -> Seq<Segment<N>> {
    let (l, t) = (r.x, r.y);
    let rt = N::add_of(r.x, r.w);
    let b = N::add_of(r.y, r.h);
    seq![
        Segment::MoveTo(at(N::add_of(l, tl), t)),
        Segment::LineTo(at(N::sub_of(rt, tr), t)),
    ] + curve(tr, at(rt, t), at(rt, N::add_of(t, tr))) + seq![
        Segment::LineTo(at(rt, N::sub_of(b, br))),
    ] + curve(br, at(rt, b), at(N::sub_of(rt, br), b)) + seq![
        Segment::LineTo(at(N::add_of(l, bl), b)),
    ] + curve(bl, at(l, b), at(l, N::sub_of(b, bl))) + seq![
        Segment::LineTo(at(l, N::add_of(t, tl))),
    ] + curve(tl, at(l, t), at(N::add_of(l, tl), t)) + seq![Segment::Close]
}

fn push_curve<N: Num>(out: &mut Vec<Segment<N>>, radius: N, control: Point<N>, end: Point<N>)
    ensures
        final(out)@ == old(out)@ + curve(radius, control, end),
{
    let ghost before = out@;
    if N::ratio(0, 1).less(radius) {
        out.push(Segment::QuadTo(control, end));
    }
    assert(out@ =~= before + curve(radius, control, end));
}

/// The outline of `r` with the given corner radii (`top` is the top left one,
/// `right` top right, `bottom` bottom right, `left` bottom left).
pub fn rounded_path<N: Num>(r: Rect<N>, radius: Edges<N>) -> (o: Outline<N>)
    ensures
        ({
            let (tl, tr, br, bl) = corners(r, radius);
            if N::le_of(r.w, whole(0)) || N::le_of(r.h, whole(0)) {
                o is Empty
            } else if small(tl) && small(tr) && small(br) && small(bl) {
                o == Outline::Square(r)
            } else {
                o matches Outline::Rounded(s) && s@ == around(r, tl, tr, br, bl)
            }
        }),
{
    let zero: N = N::ratio(0, 1);
    if r.w.at_most(zero) || r.h.at_most(zero) {
        return Outline::Empty;
    }
    let two: N = N::ratio(2, 1);
    let max: N = r.w.over(two).lesser_of(r.h.over(two));
    let tl: N = radius.top.greater_of(zero).lesser_of(max);
    let tr: N = radius.right.greater_of(zero).lesser_of(max);
    let br: N = radius.bottom.greater_of(zero).lesser_of(max);
    let bl: N = radius.left.greater_of(zero).lesser_of(max);
    let least: N = N::ratio(1, 2);
    if tl.at_most(least) && tr.at_most(least) && br.at_most(least) && bl.at_most(least) {
        return Outline::Square(r);
    }
    let l: N = r.x;
    let t: N = r.y;
    let rt: N = r.x.plus(r.w);
    let b: N = r.y.plus(r.h);
    let mut s: Vec<Segment<N>> = Vec::new();
    s.push(Segment::MoveTo(Point { x: l.plus(tl), y: t }));
    s.push(Segment::LineTo(Point { x: rt.minus(tr), y: t }));
    push_curve(&mut s, tr, Point { x: rt, y: t }, Point { x: rt, y: t.plus(tr) });
    s.push(Segment::LineTo(Point { x: rt, y: b.minus(br) }));
    push_curve(&mut s, br, Point { x: rt, y: b }, Point { x: rt.minus(br), y: b });
    s.push(Segment::LineTo(Point { x: l.plus(bl), y: b }));
    push_curve(&mut s, bl, Point { x: l, y: b }, Point { x: l, y: b.minus(bl) });
    s.push(Segment::LineTo(Point { x: l, y: t.plus(tl) }));
    push_curve(&mut s, tl, Point { x: l, y: t }, Point { x: l.plus(tl), y: t });
    s.push(Segment::Close);
    assert(s@ =~= around(r, tl, tr, br, bl));
    Outline::Rounded(s)
}

} // verus!
