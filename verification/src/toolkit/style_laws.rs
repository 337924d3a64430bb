//! What holds of effective styles and of transitions.

use vstd::prelude::*;
use crate::toolkit::geometry::{Color, Edges};
use crate::toolkit::num::{exact, lemma_whole, mix_of, Num};
use crate::toolkit::style::{
    byte_mix, color_mix, edges_mix, effective, opt_color_mix, overlaid, responsive_pick, tracks_eq,
    transform_mix, GridTrack, Style, StyleVariants, Transform2D,
};

verus! {

/// Two numbers compare as equal only if they are one.
pub open spec fn compares_by_identity<N: Num>() -> bool {
    forall|x: N, y: N| #[trigger] N::eq_of(x, y) <==> x == y
}

/// What a variant changed of its base has the variant's value afterwards; what it did
/// not change stays as it is.
pub open spec fn changed_or_kept<T>(working: T, base: T, variant: T, after: T) -> bool {
    &&& variant != base ==> after == variant
    &&& variant == base ==> after == working
}

/// That, of every field.
pub open spec fn lays_over<N>(
    working: Style<N>,
    base: Style<N>,
    variant: Style<N>,
    after: Style<N>,
) -> bool {
    &&& changed_or_kept(working.direction, base.direction, variant.direction, after.direction)
    &&& changed_or_kept(working.display, base.display, variant.display, after.display)
    &&& changed_or_kept(working.position, base.position, variant.position, after.position)
    &&& changed_or_kept(working.left, base.left, variant.left, after.left)
    &&& changed_or_kept(working.right, base.right, variant.right, after.right)
    &&& changed_or_kept(working.top, base.top, variant.top, after.top)
    &&& changed_or_kept(working.bottom, base.bottom, variant.bottom, after.bottom)
    &&& changed_or_kept(working.width, base.width, variant.width, after.width)
    &&& changed_or_kept(working.height, base.height, variant.height, after.height)
    &&& changed_or_kept(working.padding, base.padding, variant.padding, after.padding)
    &&& changed_or_kept(working.margin, base.margin, variant.margin, after.margin)
    &&& changed_or_kept(working.scroll_x, base.scroll_x, variant.scroll_x, after.scroll_x)
    &&& changed_or_kept(working.scroll_y, base.scroll_y, variant.scroll_y, after.scroll_y)
    &&& changed_or_kept(working.bg, base.bg, variant.bg, after.bg)
    &&& changed_or_kept(working.text_color, base.text_color, variant.text_color, after.text_color)
    &&& changed_or_kept(working.text_align, base.text_align, variant.text_align, after.text_align)
    &&& changed_or_kept(working.align_main, base.align_main, variant.align_main, after.align_main)
    &&& changed_or_kept(working.align_cross, base.align_cross, variant.align_cross, after.align_cross)
    &&& changed_or_kept(working.radius, base.radius, variant.radius, after.radius)
    &&& changed_or_kept(working.font_size, base.font_size, variant.font_size, after.font_size)
    &&& changed_or_kept(working.font_weight, base.font_weight, variant.font_weight, after.font_weight)
    &&& changed_or_kept(working.line_height, base.line_height, variant.line_height, after.line_height)
    &&& changed_or_kept(working.letter_spacing, base.letter_spacing, variant.letter_spacing, after.letter_spacing)
    &&& changed_or_kept(working.gap, base.gap, variant.gap, after.gap)
    &&& changed_or_kept(working.gap_x, base.gap_x, variant.gap_x, after.gap_x)
    &&& changed_or_kept(working.gap_y, base.gap_y, variant.gap_y, after.gap_y)
    &&& changed_or_kept(working.border_width, base.border_width, variant.border_width, after.border_width)
    &&& changed_or_kept(working.border_color, base.border_color, variant.border_color, after.border_color)
    &&& changed_or_kept(working.opacity, base.opacity, variant.opacity, after.opacity)
    &&& changed_or_kept(working.z_index, base.z_index, variant.z_index, after.z_index)
    &&& changed_or_kept(working.transform, base.transform, variant.transform, after.transform)
    &&& changed_or_kept(working.transition, base.transition, variant.transition, after.transition)
    &&& changed_or_kept(working.grid_column_span, base.grid_column_span, variant.grid_column_span, after.grid_column_span)
    &&& changed_or_kept(working.grid_row_span, base.grid_row_span, variant.grid_row_span, after.grid_row_span)
    &&& changed_or_kept(working.multiline, base.multiline, variant.multiline, after.multiline)
    &&& changed_or_kept(working.with_seconds, base.with_seconds, variant.with_seconds, after.with_seconds)
    &&& changed_or_kept(working.grid_template_columns@, base.grid_template_columns@, variant.grid_template_columns@, after.grid_template_columns@)
    &&& changed_or_kept(working.grid_template_rows@, base.grid_template_rows@, variant.grid_template_rows@, after.grid_template_rows@)
    &&& changed_or_kept(working.tree_icon@, base.tree_icon@, variant.tree_icon@, after.tree_icon@)
}

/// The values are the same in every field.
pub open spec fn all_fields_agree<N>(a: Style<N>, b: Style<N>) -> bool {
    &&& a.direction == b.direction
    &&& a.display == b.display
    &&& a.position == b.position
    &&& a.left == b.left
    &&& a.right == b.right
    &&& a.top == b.top
    &&& a.bottom == b.bottom
    &&& a.width == b.width
    &&& a.height == b.height
    &&& a.padding == b.padding
    &&& a.margin == b.margin
    &&& a.scroll_x == b.scroll_x
    &&& a.scroll_y == b.scroll_y
    &&& a.bg == b.bg
    &&& a.text_color == b.text_color
    &&& a.text_align == b.text_align
    &&& a.align_main == b.align_main
    &&& a.align_cross == b.align_cross
    &&& a.radius == b.radius
    &&& a.font_size == b.font_size
    &&& a.font_weight == b.font_weight
    &&& a.line_height == b.line_height
    &&& a.letter_spacing == b.letter_spacing
    &&& a.gap == b.gap
    &&& a.gap_x == b.gap_x
    &&& a.gap_y == b.gap_y
    &&& a.border_width == b.border_width
    &&& a.border_color == b.border_color
    &&& a.opacity == b.opacity
    &&& a.z_index == b.z_index
    &&& a.transform == b.transform
    &&& a.transition == b.transition
    &&& a.grid_column_span == b.grid_column_span
    &&& a.grid_row_span == b.grid_row_span
    &&& a.multiline == b.multiline
    &&& a.with_seconds == b.with_seconds
    &&& a.grid_template_columns@ == b.grid_template_columns@
    &&& a.grid_template_rows@ == b.grid_template_rows@
    &&& a.tree_icon@ == b.tree_icon@
}

proof fn lemma_tracks_by_identity<N: Num>(a: Seq<GridTrack<N>>, b: Seq<GridTrack<N>>)
    requires
        compares_by_identity::<N>(),
    ensures
        tracks_eq(a, b) <==> a == b,
{
    if tracks_eq(a, b) {
        assert forall|i: int| 0 <= i < a.len() implies a[i] == b[i] by {
            assert(crate::toolkit::style::track_eq(a[i], b[i]));
        }
        assert(a =~= b);
    }
    if a == b {
        assert forall|i: int| 0 <= i < a.len() implies crate::toolkit::style::track_eq(
            #[trigger] a[i],
            b[i],
        ) by {}
    }
}

/// Every field that a variant changes of the base it was resolved against has the
/// variant's value, whatever was there; every other field stays as it was.
pub proof fn law_variant_changes_what_it_declares<N: Num>(
    working: Style<N>,
    base: Style<N>,
    variant: Style<N>,
    after: Style<N>,
)
    requires
        compares_by_identity::<N>(),
        overlaid(working, base, variant, after),
    ensures
        lays_over(working, base, variant, after),
{
    lemma_tracks_by_identity(variant.grid_template_columns@, base.grid_template_columns@);
    lemma_tracks_by_identity(variant.grid_template_rows@, base.grid_template_rows@);
}

/// A variant over the very base it was resolved against is that variant.
pub proof fn law_variant_over_its_base_is_itself<N: Num>(
    base: Style<N>,
    variant: Style<N>,
    after: Style<N>,
)
    requires
        compares_by_identity::<N>(),
        overlaid(base, base, variant, after),
    ensures
        all_fields_agree(after, variant),
{
    law_variant_changes_what_it_declares(base, base, variant, after);
}

/// `chosen` is the style for a window of width `width`: of the breakpoints that the
/// window reaches the last one's, and the base's own if it reaches none.
pub open spec fn is_width_style<N>(
    base: Style<N>,
    variants: StyleVariants<N>,
    width: int,
    chosen: Style<N>,
) -> bool {
    let steps = variants.responsive@;
    if exists|k: int| 0 <= k < steps.len() && (#[trigger] steps[k]).0 <= width {
        exists|k: int|
            0 <= k < steps.len() && (#[trigger] steps[k]).0 <= width && chosen == steps[k].1
                && forall|j: int| k < j < steps.len() ==> (#[trigger] steps[j]).0 > width
    } else {
        chosen == base
    }
}

proof fn lemma_responsive_pick<N>(steps: Seq<(u32, Style<N>)>, width: int, n: nat)
    requires
        n <= steps.len(),
    ensures
        match responsive_pick(steps, width, n) {
            Some(k) => 0 <= k < n && steps[k].0 <= width && forall|j: int|
                k < j < n ==> (#[trigger] steps[j]).0 > width,
            None => forall|j: int| 0 <= j < n ==> (#[trigger] steps[j]).0 > width,
        },
    decreases n,
{
    if n > 0 {
        lemma_responsive_pick(steps, width, (n - 1) as nat);
    }
}

/// The effective style starts from the style of the widest breakpoint that the window
/// reaches. On it comes the variant of the strongest state that the node is in: pressed
/// before focused before hovered. What that variant changes of the base wins over the
/// breakpoint's; nothing else is touched.
pub proof fn law_effective_style<N: Num>(
    base: Style<N>,
    variants: StyleVariants<N>,
    width: int,
    hovered: bool,
    focused: bool,
    pressed: bool,
    r: Style<N>,
)
    requires
        compares_by_identity::<N>(),
        effective(base, variants, width, hovered, focused, pressed, r),
    ensures
        exists|chosen: Style<N>|
            #![trigger is_width_style(base, variants, width, chosen)]
            {
                &&& is_width_style(base, variants, width, chosen)
                &&& pressed ==> match variants.active {
                    Some(v) => lays_over(chosen, base, v, r),
                    None => all_fields_agree(r, chosen),
                }
                &&& !pressed && focused ==> match variants.focus {
                    Some(v) => lays_over(chosen, base, v, r),
                    None => all_fields_agree(r, chosen),
                }
                &&& !pressed && !focused && hovered ==> match variants.hover {
                    Some(v) => lays_over(chosen, base, v, r),
                    None => all_fields_agree(r, chosen),
                }
                &&& !pressed && !focused && !hovered ==> all_fields_agree(r, chosen)
            },
{
    let steps = variants.responsive@;
    lemma_responsive_pick(steps, width, steps.len());
    let chosen = match responsive_pick(steps, width, steps.len()) {
        Some(k) => steps[k].1,
        None => base,
    };
    assert(is_width_style(base, variants, width, chosen));
    let v = if pressed {
        variants.active
    } else if focused {
        variants.focus
    } else if hovered {
        variants.hover
    } else {
        None
    };
    if let Some(v) = v {
        law_variant_changes_what_it_declares(chosen, base, v, r);
    }
}

// ---- transitions ----

/// A value on its way starts where it was, ends where it goes, and is half way between
/// at half of it.
pub proof fn law_mix_goes_from_a_to_b<N: Num>(val: spec_fn(N) -> real, a: N, b: N, t: N)
    requires
        exact(val),
    ensures
        val(t) == 0 as real ==> val(mix_of(a, b, t)) == val(a),
        val(t) == 1 as real ==> val(mix_of(a, b, t)) == val(b),
        val(mix_of(a, b, t)) - val(a) == (val(b) - val(a)) * val(t),
{
    let d = val(b) - val(a);
    assert(d * (0 as real) == 0 as real) by (nonlinear_arith);
    assert(d * (1 as real) == d) by (nonlinear_arith);
}

proof fn lemma_byte_mix<N: Num>(val: spec_fn(N) -> real, a: u8, b: u8, t: N)
    requires
        exact(val),
        val(t) == 0 as real || val(t) == 1 as real,
    ensures
        byte_mix(a, b, t) == if val(t) == 0 as real {
            a
        } else {
            b
        },
{
    let d = b as real - a as real;
    assert(d * (0 as real) == 0 as real) by (nonlinear_arith);
    assert(d * (1 as real) == d) by (nonlinear_arith);
    let x = N::add_of(
        N::count_of(a as nat),
        N::mul_of(N::sub_of(N::count_of(b as nat), N::count_of(a as nat)), t),
    );
    let y = N::byte_of(x);
    assert(val(x) == if val(t) == 0 as real {
        a as real
    } else {
        b as real
    });
    assert(0 as real <= val(x) && val(x) <= 255 as real);
}

/// Every color, radius and transform on its way is the first one at the start and the
/// second at the end; a color that only one of the two styles has comes or goes at the
/// end.
pub proof fn law_transition_ends<N: Num>(
    val: spec_fn(N) -> real,
    a: Color,
    b: Color,
    x: Option<Color>,
    y: Option<Color>,
    e: Edges<N>,
    f: Edges<N>,
    s: Transform2D<N>,
    u: Transform2D<N>,
    t: N,
)
    requires
        exact(val),
        val(t) == 0 as real || val(t) == 1 as real,
    ensures
        ({
            let start = val(t) == 0 as real;
            &&& color_mix(a, b, t) == if start {
                a
            } else {
                b
            }
            &&& opt_color_mix(x, y, t) == if start {
                x
            } else {
                y
            }
            &&& same_edges(val, edges_mix(e, f, t), if start {
                e
            } else {
                f
            })
            &&& same_transform(val, transform_mix(s, u, t), if start {
                s
            } else {
                u
            })
        }),
{
    lemma_whole::<N>(val, 1);
    lemma_byte_mix(val, a.r, b.r, t);
    lemma_byte_mix(val, a.g, b.g, t);
    lemma_byte_mix(val, a.b, b.b, t);
    lemma_byte_mix(val, a.a, b.a, t);
    if let (Some(p), Some(q)) = (x, y) {
        lemma_byte_mix(val, p.r, q.r, t);
        lemma_byte_mix(val, p.g, q.g, t);
        lemma_byte_mix(val, p.b, q.b, t);
        lemma_byte_mix(val, p.a, q.a, t);
    }
    law_mix_goes_from_a_to_b(val, e.top, f.top, t);
    law_mix_goes_from_a_to_b(val, e.right, f.right, t);
    law_mix_goes_from_a_to_b(val, e.bottom, f.bottom, t);
    law_mix_goes_from_a_to_b(val, e.left, f.left, t);
    law_mix_goes_from_a_to_b(val, s.translate_x, u.translate_x, t);
    law_mix_goes_from_a_to_b(val, s.translate_y, u.translate_y, t);
    law_mix_goes_from_a_to_b(val, s.scale_x, u.scale_x, t);
    law_mix_goes_from_a_to_b(val, s.scale_y, u.scale_y, t);
    law_mix_goes_from_a_to_b(val, s.rotate_deg, u.rotate_deg, t);
    law_mix_goes_from_a_to_b(val, s.skew_x_deg, u.skew_x_deg, t);
    law_mix_goes_from_a_to_b(val, s.skew_y_deg, u.skew_y_deg, t);
}

pub open spec fn same_edges<N>(val: spec_fn(N) -> real, a: Edges<N>, b: Edges<N>) -> bool {
    &&& val(a.top) == val(b.top)
    &&& val(a.right) == val(b.right)
    &&& val(a.bottom) == val(b.bottom)
    &&& val(a.left) == val(b.left)
}

pub open spec fn same_transform<N>(
    val: spec_fn(N) -> real,
    a: Transform2D<N>,
    b: Transform2D<N>,
) -> bool {
    &&& val(a.translate_x) == val(b.translate_x)
    &&& val(a.translate_y) == val(b.translate_y)
    &&& val(a.scale_x) == val(b.scale_x)
    &&& val(a.scale_y) == val(b.scale_y)
    &&& val(a.rotate_deg) == val(b.rotate_deg)
    &&& val(a.skew_x_deg) == val(b.skew_x_deg)
    &&& val(a.skew_y_deg) == val(b.skew_y_deg)
}

} // verus!
