//! What holds of bundles, decoded images, icons and their SVG text.

use vstd::prelude::*;
use vstd::string::*;
use crate::assets::bundle::{file_ranks, holders, named, pack_order};
use crate::assets::decode::{
    animation, decoded, gif_pictures, guessed_kind, still_pixels, ImageKind, RawPicture,
};
use crate::assets::icons::{fitted, hex_color, pixel_bytes, recolored, Rgba8};
use crate::assets::icons_gen::{
    attrs_text, children_of, escaped, exported_name, icon_text, icons_upto, opening, rendered, rendered_upto, tag_of, Attr,
};
use crate::assets::json::JsonTree;
use crate::order::{law_order_of_is_stable, order_of, str_rank};
use crate::order_laws::{dictionary_le, law_sorting_orders_the_keys};
use crate::text::{lemma_next_sep, matches_at, next_sep, replaced_from};
use crate::text_laws::stands_from;
use crate::toolkit::geometry::{color_of_hex, Color};
use crate::toolkit::num::{exact, lemma_whole, Num};
use crate::toolkit::theme_laws::{hex_digit, law_hex_digits_name_the_color};

verus! {

// ---- bundles ----

/// The files that have a name, in their order.
pub proof fn law_named_files(names: Seq<Option<Seq<char>>>, n: nat, i: int)
    requires
        n <= names.len(),
    ensures
        named(names, n).contains(i) <==> 0 <= i < n && names[i] is Some,
        named(names, n).no_duplicates(),
        forall|k: int| 0 <= k < named(names, n).len() ==> 0 <= #[trigger] named(names, n)[k] < n
            && names[named(names, n)[k]] is Some,
    decreases n,
{
    let all = named(names, n);
    if n > 0 {
        let rest = named(names, (n - 1) as nat);
        law_named_files(names, (n - 1) as nat, i);
        if rest.contains(i) {
            assert(all[rest.index_of(i)] == i);
        }
        if all.contains(i) && i < n - 1 {
            let k = all.index_of(i);
            assert(rest[k] == i);
        }
        if i == n - 1 && names[i] is Some {
            assert(all[all.len() - 1] == i);
        }
    }
}

/// A bundle holds every file that has a name, once, in the order of the names.
pub proof fn law_files_are_packed_by_name(names: Seq<Option<Seq<char>>>, a: int, b: int)
    requires
        0 <= a < b < pack_order(names).len(),
    ensures
        ({
            let files = pack_order(names);
            let (f, g) = (files[a], files[b]);
            &&& 0 <= f < names.len() && names[f] is Some
            &&& 0 <= g < names.len() && names[g] is Some
            &&& f != g
            &&& dictionary_le(str_rank(names[f]->0), str_rank(names[g]->0))
        }),
        forall|i: int|
            0 <= i < names.len() && (#[trigger] names[i]) is Some ==> pack_order(names).contains(i),
{
    let files = named(names, names.len());
    law_named_files(names, names.len(), 0);
    let keys = Seq::new(files.len(), |k: int| str_rank(names[files[k]]->0));
    assert(keys =~= file_ranks(names, files));
    law_sorting_orders_the_keys(keys, a, b);
    let ord = order_of(keys, files.len());
    law_order_of_is_stable(keys, files.len());
    assert forall|i: int| 0 <= i < names.len() && (#[trigger] names[i]) is Some implies pack_order(
        names,
    ).contains(i) by {
        law_named_files(names, names.len(), i);
        let k = files.index_of(i);
        assert(ord.contains(k));
        let j = ord.index_of(k);
        assert(pack_order(names)[j] == i);
    }
}

/// The files that share a name are all the files of that name.
pub proof fn law_files_of_one_name(
    names: Seq<Option<Seq<char>>>,
    key: Seq<char>,
    n: nat,
    i: int,
)
    requires
        n <= names.len(),
    ensures
        holders(names, key, n).contains(i) <==> 0 <= i < n && names[i] == Some(key),
    decreases n,
{
    let all = holders(names, key, n);
    if n > 0 {
        let rest = holders(names, key, (n - 1) as nat);
        law_files_of_one_name(names, key, (n - 1) as nat, i);
        if rest.contains(i) {
            assert(all[rest.index_of(i)] == i);
        }
        if all.contains(i) && i < n - 1 {
            assert(rest[all.index_of(i)] == i);
        }
        if i == n - 1 && names[i] == Some(key) {
            assert(all[all.len() - 1] == i);
        }
    }
}

// ---- images ----

/// An animation shows its frames in their order, each for its delay in whole milliseconds;
/// a frame that is alone stands still.
pub proof fn law_animation_keeps_its_frames(frames: Seq<RawPicture>, i: int)
    requires
        0 <= i < frames.len(),
    ensures
        animation(frames) is Ok,
        ({
            let img = animation(frames)->Ok_0;
            let (f, g) = (frames[i], img.frames[i]);
            &&& img.frames.len() == frames.len()
            &&& img.width == frames.last().width && img.height == frames.last().height
            &&& g.width == f.width && g.height == f.height && g.rgba == f.rgba
            &&& frames.len() == 1 ==> g.delay_ms == 0
            &&& frames.len() > 1 && f.delay_denom > 0 ==> g.delay_ms * f.delay_denom
                <= f.delay_numer < (g.delay_ms + 1) * f.delay_denom
        }),
{
    let f = frames[i];
    if f.delay_denom > 0 {
        let (n, d) = (f.delay_numer as int, f.delay_denom as int);
        let q = n / d;
        assert(q * d <= n && n < (q + 1) * d && 0 <= q <= n) by (nonlinear_arith)
            requires
                d > 0,
                n >= 0,
                q == n / d,
        ;
    }
}

/// What bytes hold goes by their format: a GIF is an animation, and anything else one
/// picture; what cannot be read is an error.
pub proof fn law_format_decides_how_bytes_are_read(bytes: Seq<u8>)
    ensures
        guessed_kind(bytes) == Ok::<ImageKind, Seq<char>>(ImageKind::Other) && still_pixels(
            bytes,
        ) is Ok ==> {
            let (w, h, px) = still_pixels(bytes)->Ok_0;
            &&& decoded(bytes) is Ok
            &&& decoded(bytes)->Ok_0.width == w && decoded(bytes)->Ok_0.height == h
            &&& decoded(bytes)->Ok_0.frames.len() == 1
            &&& decoded(bytes)->Ok_0.frames[0].rgba == px
            &&& decoded(bytes)->Ok_0.frames[0].delay_ms == 0
        },
        guessed_kind(bytes) == Ok::<ImageKind, Seq<char>>(ImageKind::Gif) && gif_pictures(
            bytes,
        ) is Ok ==> decoded(bytes) == animation(gif_pictures(bytes)->Ok_0),
        guessed_kind(bytes) is Err ==> decoded(bytes) is Err,
        guessed_kind(bytes) == Ok::<ImageKind, Seq<char>>(ImageKind::Gif) && gif_pictures(
            bytes,
        ) is Err ==> decoded(bytes) is Err,
        guessed_kind(bytes) == Ok::<ImageKind, Seq<char>>(ImageKind::Other) && still_pixels(
            bytes,
        ) is Err ==> decoded(bytes) is Err,
{
}

// ---- icons ----

/// A color is written as it is read: red, green and blue in two digits each.
pub proof fn law_written_color_reads_back(color: Rgba8)
    ensures
        color_of_hex(hex_color(color)) == Some(
            Color { r: color@[0], g: color@[1], b: color@[2], a: 255 },
        ),
{
    let c = Color { r: color@[0], g: color@[1], b: color@[2], a: 255 };
    law_hex_digits_name_the_color(c);
    let six = seq![
        hex_digit(c.r as int / 16),
        hex_digit(c.r as int % 16),
        hex_digit(c.g as int / 16),
        hex_digit(c.g as int % 16),
        hex_digit(c.b as int / 16),
        hex_digit(c.b as int % 16),
    ];
    assert(hex_color(color) =~= seq!['#'] + six);
}

/// Recoloring puts the color in place of each mark and leaves the rest: text without the
/// mark stays, and what stands before the first mark stays before the color.
pub proof fn law_recoloring_replaces_the_mark(
    before: Seq<char>,
    after: Seq<char>,
    color: Rgba8,
)
    requires
        forall|i: int|
            0 <= i < before.len() ==> !#[trigger] matches_at(
                before + "currentColor"@ + after,
                i,
                "currentColor"@,
            ),
    ensures
        recolored(before + "currentColor"@ + after, color) == before + hex_color(color)
            + recolored(after, color),
{
    reveal_strlit("currentColor");
    let pat = "currentColor"@;
    let all = before + pat + after;
    let with = hex_color(color);
    lemma_kept_until(all, 0, before.len() as int, pat, with);
    assert(all.subrange(0, before.len() as int) =~= before);
    let at = before.len() as int;
    assert(all.subrange(at, at + pat.len()) =~= pat);
    lemma_replaced_shift(before + pat, after, 0, pat, with);
    assert(replaced_from(all, at, pat, with) == with + replaced_from(all, at + pat.len(), pat, with));
    assert(before + (with + recolored(after, color)) =~= before + with + recolored(after, color));
}

proof fn lemma_kept_until(cs: Seq<char>, i: int, to: int, pat: Seq<char>, with: Seq<char>)
    requires
        0 <= i <= to <= cs.len(),
        forall|k: int| i <= k < to ==> !#[trigger] matches_at(cs, k, pat),
    ensures
        replaced_from(cs, i, pat, with) == cs.subrange(i, to) + replaced_from(cs, to, pat, with),
    decreases to - i,
{
    if i < to {
        lemma_kept_until(cs, i + 1, to, pat, with);
        assert(!matches_at(cs, i, pat));
        assert(cs.subrange(i, to) =~= seq![cs[i]] + cs.subrange(i + 1, to));
        assert(seq![cs[i]] + (cs.subrange(i + 1, to) + replaced_from(cs, to, pat, with)) =~= (
        seq![cs[i]] + cs.subrange(i + 1, to)) + replaced_from(cs, to, pat, with));
    } else {
        assert(cs.subrange(i, to) =~= Seq::<char>::empty());
        assert(Seq::<char>::empty() + replaced_from(cs, to, pat, with) =~= replaced_from(
            cs,
            to,
            pat,
            with,
        ));
    }
}

proof fn lemma_replaced_shift(
    a: Seq<char>,
    b: Seq<char>,
    i: int,
    pat: Seq<char>,
    with: Seq<char>,
)
    requires
        0 <= i,
        pat.len() > 0,
    ensures
        replaced_from(a + b, a.len() + i, pat, with) == replaced_from(b, i, pat, with),
    decreases b.len() - i,
{
    if i < b.len() {
        if i + pat.len() <= b.len() {
            assert((a + b).subrange(a.len() + i, a.len() + i + pat.len()) =~= b.subrange(
                i,
                i + pat.len(),
            ));
            lemma_replaced_shift(a, b, i + pat.len(), pat, with);
        }
        lemma_replaced_shift(a, b, i + 1, pat, with);
        assert((a + b)[a.len() + i] == b[i]);
        assert(a.len() + i + pat.len() == a.len() + (i + pat.len()));
        assert(a.len() + i + 1 == a.len() + (i + 1));
    }
}

/// An icon is scaled to fit its square exactly along its longer side, and lies in the middle
/// of it.
pub proof fn law_icon_fits_its_square<N: Num>(val: spec_fn(N) -> real, size: u32, w: N, h: N)
    requires
        exact(val),
        val(w) > 0 as real,
        val(h) > 0 as real,
    ensures
        ({
            let p = fitted(size, w, h);
            let side = size as real;
            let (a, b) = (val(w) * val(p.scale), val(h) * val(p.scale));
            &&& a <= side && b <= side
            &&& a == side || b == side
            &&& val(p.offset_x) + a + val(p.offset_x) == side
            &&& val(p.offset_y) + b + val(p.offset_y) == side
        }),
{
    lemma_whole::<N>(val, 2);
    let side = size as real;
    assert(val(N::count_of(size as nat)) == side);
    let (x, y) = (val(w), val(h));
    let m = val(N::max_of(w, h));
    let s = side / m;
    assert(m * s == side) by (nonlinear_arith)
        requires
            m > 0 as real,
            s == side / m,
    ;
    assert(x * s <= side && y * s <= side) by (nonlinear_arith)
        requires
            m * s == side,
            x <= m,
            y <= m,
            m > 0 as real,
            side >= 0 as real,
    ;
}

/// The bytes of pixels stand one pixel after the other, four for each.
pub proof fn law_pixels_keep_their_bytes(pixels: Seq<Rgba8>, n: nat, k: int, j: int)
    requires
        0 <= k < n <= pixels.len(),
        0 <= j < 4,
    ensures
        pixel_bytes(pixels, n).len() == 4 * n,
        pixel_bytes(pixels, n)[4 * k + j] == pixels[k]@[j],
    decreases n,
{
    if n > 1 {
        law_pixels_keep_their_bytes(pixels, (n - 1) as nat, if k < n - 1 {
            k
        } else {
            0
        }, j);
    } else {
        assert(pixel_bytes(pixels, 0).len() == 0);
    }
}

// ---- SVG text ----

/// Escaping goes character by character; only the four that XML reserves are written as
/// their entities.
pub proof fn law_escaping_goes_by_characters(a: Seq<char>, c: char)
    ensures
        escaped(Seq::<char>::empty()) == Seq::<char>::empty(),
        escaped(a.push(c)) == escaped(a) + if c == '&' {
            "&amp;"@
        } else if c == '<' {
            "&lt;"@
        } else if c == '>' {
            "&gt;"@
        } else if c == '"' {
            "&quot;"@
        } else {
            seq![c]
        },
{
    assert(a.push(c).drop_last() =~= a);
}

/// A node with a tag is written as an element: its children in their order between its
/// opening and its closing tag, or an empty element without any. A node without a tag is
/// nothing.
pub proof fn law_node_is_written_as_an_element(t: JsonTree)
    ensures
        tag_of(t) is None ==> rendered(t).len() == 0,
        tag_of(t) matches Some(tag) ==> {
            let open = opening(t, tag);
            &&& open.len() > tag.len() && open[0] == '<' && open.subrange(1, tag.len() as int + 1) == tag
            &&& children_of(t).len() == 0 ==> rendered(t) == open + "/>"@
            &&& children_of(t).len() > 0 ==> exists|inner: Seq<char>|
                #![trigger open + seq!['>'] + inner]
                rendered(t) == open + seq!['>'] + inner + "</"@ + tag + seq!['>'] && inner
                    == rendered_upto(children_of(t), children_of(t).len())
        },
{
    if let Some(tag) = tag_of(t) {
        let open = opening(t, tag);
        assert(open.subrange(1, tag.len() as int + 1) =~= tag);
        if children_of(t).len() > 0 {
            let inner = rendered_upto(children_of(t), children_of(t).len());
            assert(rendered(t) == open + seq!['>'] + inner + "</"@ + tag + seq!['>']);
        }
    }
}

/// Children are written one after the other.
pub proof fn law_children_are_written_in_order(items: Seq<JsonTree>, n: nat)
    requires
        n < items.len(),
    ensures
        rendered_upto(items, 0) == Seq::<char>::empty(),
        rendered_upto(items, n + 1) == rendered_upto(items, n) + rendered(items[n as int]),
{
}

/// Attributes are written one after the other, each as a name and its value in quotes.
pub proof fn law_attributes_are_written_in_order(written: Seq<Attr>, n: nat)
    requires
        n < written.len(),
    ensures
        attrs_text(written, 0) == Seq::<char>::empty(),
        attrs_text(written, n + 1) == attrs_text(written, n) + seq![' '] + written[n as int].0
            + "=\""@ + escaped(written[n as int].1) + seq!['"'],
{
    let (a, b) = (written[n as int].0, escaped(written[n as int].1));
    assert(attrs_text(written, n) + (seq![' '] + a + "=\""@ + b + seq!['"']) =~= attrs_text(
        written,
        n,
    ) + seq![' '] + a + "=\""@ + b + seq!['"']);
}

// ---- icon sets ----

/// An export line names the icon that stands up to the next space; a line without
/// that space names none, and neither does one that exports nothing.
pub proof fn law_export_line_names_the_icon(name: Seq<char>, rest: Seq<char>, line: Seq<char>)
    requires
        !name.contains(' '),
    ensures
        exported_name("module.exports."@ + name + seq![' '] + rest) == Some(name),
        exported_name("module.exports."@ + name) is None,
        !stands_from(line, 0, "module.exports."@) ==> exported_name(line) is None,
{
    let p = "module.exports."@;
    let full = p + name + seq![' '] + rest;
    let bare = p + name;
    assert(full.subrange(0, p.len() as int) =~= p);
    assert(bare.subrange(0, p.len() as int) =~= p);
    let r = full.skip(p.len() as int);
    assert(r =~= name + seq![' '] + rest);
    assert(bare.skip(p.len() as int) =~= name);
    assert forall|k: int| 0 <= k < name.len() implies #[trigger] name[k] != ' ' by {
        assert(name.contains(name[k]));
    }
    lemma_next_sep(r, 0, ' ');
    lemma_next_sep(name, 0, ' ');
    let e = next_sep(r, 0, ' ');
    assert(e == name.len()) by {
        if e < name.len() {
            assert(r[e] == name[e]);
        } else {
            assert(r[name.len() as int] == ' ');
        }
    }
    assert(r.take(e) =~= name);
    if matches_at(line, 0, p) {
        let s = line.subrange(0, p.len() as int);
        assert forall|k: int| 0 <= k < p.len() implies line[0 + k] == #[trigger] p[k] by {
            assert(s[k] == line[k]);
        }
    }
}

/// The icons of a set are those of its lines, in their order: an export line with the
/// picture on the line after it gives one, any other line none.
pub proof fn law_icons_are_listed_in_order(lines: Seq<Seq<char>>, n: nat)
    requires
        n < lines.len(),
    ensures
        icons_upto(lines, 0).len() == 0,
        ({
            let before = icons_upto(lines, n);
            let after = icons_upto(lines, n + 1);
            let name = exported_name(lines[n as int]);
            let svg = icon_text(lines[n as int + 1]);
            &&& name is Some && n + 1 < lines.len() && svg is Some ==> after == before.push(
                (name->0, svg->0),
            )
            &&& name is None || n + 1 == lines.len() || svg is None ==> after == before
        }),
{
}

} // verus!
