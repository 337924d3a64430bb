//! Icons: looking an SVG up in the icon archive, coloring it, and caching what
//! it was rasterized to.
//!
//! Rasterizing itself is floating-point work outside this module: [`icon_frame`]
//! hands out the colored SVG source, and [`store_frame`] takes the pixels back.

use vstd::prelude::*;
use vstd::string::*;
use vstd::utf8::{decode_utf8, valid_utf8};
use crate::assets::decode::{Frame, Picture};
use crate::assets::nowdat::NowdatArchive;
use crate::assoc::AssocMap;
use crate::toolkit::num::{whole, Num};
use crate::text::{replace_all, replaced_from, string_from_utf8, utf8_error_text};

verus! {

/// The pixel size an icon is rasterized at before it is scaled to its node's
/// actual size.
pub const DEFAULT_RASTER_SIZE: u32 = 128;

/// `[r, g, b, a]`, straight (non-premultiplied).
pub type Rgba8 = [u8; 4];

/// A hexadecimal digit, in lower case.
pub open spec fn hex_digit(d: int) -> char {
    if d < 10 {
        (48 + d) as char
    } else {
        (87 + d) as char
    }
}

/// A byte as two hexadecimal digits.
pub open spec fn hex_byte(b: u8) -> Seq<char> {
    seq![hex_digit(b as int / 16), hex_digit(b as int % 16)]
}

/// A color as `#rrggbb`.
pub open spec fn hex_color(color: Rgba8) -> Seq<char> {
    seq!['#'] + hex_byte(color@[0]) + hex_byte(color@[1]) + hex_byte(color@[2])
}

fn push_hex(out: &mut String, b: u8)
    ensures
        final(out)@ == old(out)@ + hex_byte(b),
{
    let ghost before = out@;
    let hi: u8 = b / 16;
    let lo: u8 = b % 16;
    out.push(
        (if hi < 10 {
            48 + hi
        } else {
            87 + hi
        }) as char,
    );
    out.push(
        (if lo < 10 {
            48 + lo
        } else {
            87 + lo
        }) as char,
    );
    assert(out@ =~= before + hex_byte(b));
}

/// An SVG text with `color` in place of every `currentColor`.
pub open spec fn recolored(svg: Seq<char>, color: Rgba8) -> Seq<char> {
    replaced_from(svg, 0, "currentColor"@, hex_color(color))
}

/// Substitutes every `currentColor` with `color` as a `#rrggbb` hex string.
pub fn recolor(svg: &str, color: Rgba8) -> (r: String)
    ensures
        r@ == recolored(svg@, color),
{
    let mut hex: String = String::new();
    hex.push('#');
    push_hex(&mut hex, color[0]);
    push_hex(&mut hex, color[1]);
    push_hex(&mut hex, color[2]);
    assert(hex@ =~= hex_color(color));
    proof {
        reveal_strlit("currentColor");
    }
    replace_all(svg, "currentColor", hex.as_str())
}

/// Raw SVG source bytes for `name`, if it exists in the archive.
pub fn icon_svg<'a>(archive: &'a NowdatArchive, name: &str) -> (r: Option<&'a [u8]>)
    ensures
        r is Some <==> archive.view().dom().contains(name@),
        r matches Some(data) ==> data@ == archive.view()[name@],
{
    archive.get(name)
}

/// The colored SVG source of an icon, or why there is none.
pub open spec fn colored_source(
    archive: Map<Seq<char>, Seq<u8>>,
    name: Seq<char>,
    color: Rgba8,
) -> Result<Seq<char>, Seq<char>> {
    if !archive.dom().contains(name) {
        Err("unknown icon `"@ + name + "` (not in the embedded react-icons library)"@)
    } else if !valid_utf8(archive[name]) {
        Err("icon `"@ + name + "` has invalid utf-8 svg source: "@ + utf8_error_text(archive[name]))
    } else {
        Ok(recolored(decode_utf8(archive[name]), color))
    }
}

/// Looks `name` up and colors it.
pub fn icon_source(archive: &NowdatArchive, name: &str, color: Rgba8) -> (r: Result<
    String,
    String,
>)
    ensures
        match r {
            Ok(svg) => colored_source(archive.view(), name@, color) == Ok::<Seq<char>, Seq<char>>(
                svg@,
            ),
            Err(e) => colored_source(archive.view(), name@, color) == Err::<Seq<char>, Seq<char>>(
                e@,
            ),
        },
{
    match icon_svg(archive, name) {
        None => {
            let mut e: String = "unknown icon `".to_owned();
            e.append(name);
            e.append("` (not in the embedded react-icons library)");
            Err(e)
        },
        Some(bytes) => match string_from_utf8(bytes) {
            Ok(svg) => Ok(recolor(svg.as_str(), color)),
            Err(why) => {
                let mut e: String = "icon `".to_owned();
                e.append(name);
                e.append("` has invalid utf-8 svg source: ");
                e.append(why.as_str());
                Err(e)
            },
        },
    }
}

// ---- the cache ----

/// What an icon came to: a frame, or what went wrong.
pub open spec fn outcome(r: Result<Frame, String>) -> Result<Picture, Seq<char>> {
    match r {
        Ok(f) => Ok(f@),
        Err(e) => Err(e@),
    }
}

/// The cache's key: eight hexadecimal digits for the color, then the name.
pub open spec fn cache_key(name: Seq<char>, color: Rgba8) -> Seq<char> {
    hex_byte(color@[0]) + hex_byte(color@[1]) + hex_byte(color@[2]) + hex_byte(color@[3]) + name
}

proof fn lemma_hex_byte_injective(a: u8, b: u8)
    requires
        hex_byte(a) == hex_byte(b),
    ensures
        a == b,
{
    assert(hex_byte(a)[0] == hex_byte(b)[0]);
    assert(hex_byte(a)[1] == hex_byte(b)[1]);
    assert(a as int / 16 == b as int / 16);
    assert(a as int % 16 == b as int % 16);
}

/// No two icons share a cache key.
pub proof fn law_cache_keys_are_distinct(n1: Seq<char>, c1: Rgba8, n2: Seq<char>, c2: Rgba8)
    requires
        cache_key(n1, c1) == cache_key(n2, c2),
    ensures
        n1 == n2,
        c1@ == c2@,
{
    let k1 = cache_key(n1, c1);
    let k2 = cache_key(n2, c2);
    assert(k1.skip(8) =~= n1);
    assert(k2.skip(8) =~= n2);
    assert(k1.subrange(0, 2) =~= hex_byte(c1@[0]));
    assert(k2.subrange(0, 2) =~= hex_byte(c2@[0]));
    assert(k1.subrange(2, 4) =~= hex_byte(c1@[1]));
    assert(k2.subrange(2, 4) =~= hex_byte(c2@[1]));
    assert(k1.subrange(4, 6) =~= hex_byte(c1@[2]));
    assert(k2.subrange(4, 6) =~= hex_byte(c2@[2]));
    assert(k1.subrange(6, 8) =~= hex_byte(c1@[3]));
    assert(k2.subrange(6, 8) =~= hex_byte(c2@[3]));
    lemma_hex_byte_injective(c1@[0], c2@[0]);
    lemma_hex_byte_injective(c1@[1], c2@[1]);
    lemma_hex_byte_injective(c1@[2], c2@[2]);
    lemma_hex_byte_injective(c1@[3], c2@[3]);
    assert(c1@ =~= c2@);
}

/// A picture as every icon has it: a square of [`DEFAULT_RASTER_SIZE`] that stands
/// still.
pub open spec fn is_icon_frame(p: Picture) -> bool {
    &&& p.width == DEFAULT_RASTER_SIZE
    &&& p.height == DEFAULT_RASTER_SIZE
    &&& p.rgba.len() == DEFAULT_RASTER_SIZE * DEFAULT_RASTER_SIZE * 4
    &&& p.delay_ms == 0
}

/// Icons that are settled, by cache key.
pub type Settled = Map<Seq<char>, Result<Picture, Seq<char>>>;

/// What every icon asked for so far came to.
pub struct IconCache {
    results: AssocMap<Result<Frame, String>>,
}

/// What to do for an icon.
pub enum IconStep {
    /// It is settled.
    Ready(Result<Frame, String>),
    /// Rasterize this SVG source at [`DEFAULT_RASTER_SIZE`], and hand the pixels
    /// to [`store_frame`].
    Rasterize(String),
}

/// What looking an icon up gives.
pub enum Looked {
    Ready(Result<Picture, Seq<char>>),
    Rasterize(Seq<char>),
}

impl View for IconStep {
    type V = Looked;

    open spec fn view(&self) -> Looked {
        match self {
            IconStep::Ready(x) => Looked::Ready(outcome(*x)),
            IconStep::Rasterize(svg) => Looked::Rasterize(svg@),
        }
    }
}

/// An icon from the cache if it is there; else its SVG source, or the reason why
/// there is none.
pub open spec fn looked_up(
    settled: Settled,
    archive: Map<Seq<char>, Seq<u8>>,
    name: Seq<char>,
    color: Rgba8,
) -> Looked {
    let key = cache_key(name, color);
    if settled.dom().contains(key) {
        Looked::Ready(settled[key])
    } else {
        match colored_source(archive, name, color) {
            Ok(svg) => Looked::Rasterize(svg),
            Err(e) => Looked::Ready(Err(e)),
        }
    }
}

/// What is settled after looking an icon up: an icon without a source is.
pub open spec fn after_lookup(
    settled: Settled,
    archive: Map<Seq<char>, Seq<u8>>,
    name: Seq<char>,
    color: Rgba8,
) -> Settled {
    match looked_up(settled, archive, name, color) {
        Looked::Ready(x) => settled.insert(cache_key(name, color), x),
        Looked::Rasterize(_) => settled,
    }
}

/// What rasterizing an icon came to, given its pixels or what went wrong.
pub open spec fn rastered(raster: Result<Vec<Rgba8>, String>) -> Result<Picture, Seq<char>> {
    match raster {
        Ok(pixels) => Ok(
            Picture {
                width: DEFAULT_RASTER_SIZE,
                height: DEFAULT_RASTER_SIZE,
                rgba: pixel_bytes(pixels@, pixels@.len()),
                delay_ms: 0,
            },
        ),
        Err(e) => Err(e@),
    }
}

/// What is settled after an icon has come to `x`: what was settled before stays.
pub open spec fn after_store(
    settled: Settled,
    name: Seq<char>,
    color: Rgba8,
    x: Result<Picture, Seq<char>>,
) -> Settled {
    let key = cache_key(name, color);
    if settled.dom().contains(key) {
        settled
    } else {
        settled.insert(key, x)
    }
}

fn key_of(name: &str, color: Rgba8) -> (r: String)
    ensures
        r@ == cache_key(name@, color),
{
    let mut key: String = String::new();
    push_hex(&mut key, color[0]);
    push_hex(&mut key, color[1]);
    push_hex(&mut key, color[2]);
    push_hex(&mut key, color[3]);
    key.append(name);
    assert(key@ =~= cache_key(name@, color));
    key
}

fn copy_result(x: &Result<Frame, String>) -> (r: Result<Frame, String>)
    ensures
        outcome(r) == outcome(*x),
{
    match x {
        Ok(f) => Ok(f.clone()),
        Err(e) => Err(e.clone()),
    }
}

impl IconCache {
    /// What is settled, by cache key.
    pub closed spec fn view(&self) -> Settled {
        self.results.view().map_values(|x: Result<Frame, String>| outcome(x))
    }

    /// Every frame is one as icons have it.
    #[verifier::type_invariant]
    spec fn inv(&self) -> bool {
        forall|k: Seq<char>| #[trigger]
            self.results.view().dom().contains(k) ==> (outcome(self.results.view()[k]) matches Ok(
                p,
            ) ==> is_icon_frame(p))
    }

    /// Nothing is settled.
    pub fn new() -> (r: Self)
        ensures
            r.view() == Settled::empty(),
    {
        let r = IconCache { results: AssocMap::new() };
        assert(r.view() =~= Settled::empty());
        r
    }

    /// What is settled for `key`.
    fn find(&self, key: &str) -> (r: Option<Result<Frame, String>>)
        ensures
            match r {
                Some(x) => {
                    &&& self.view().dom().contains(key@)
                    &&& outcome(x) == self.view()[key@]
                    &&& outcome(x) matches Ok(p) ==> is_icon_frame(p)
                },
                None => !self.view().dom().contains(key@),
            },
    {
        proof {
            use_type_invariant(self);
        }
        match self.results.get(key) {
            Some(x) => {
                assert(self.results.view().dom().contains(key@));
                Some(copy_result(x))
            },
            None => None,
        }
    }

    fn put(&mut self, key: &str, result: Result<Frame, String>)
        requires
            outcome(result) matches Ok(p) ==> is_icon_frame(p),
        ensures
            final(self).view() == old(self).view().insert(key@, outcome(result)),
    {
        proof {
            use_type_invariant(&*self);
        }
        let ghost m = self.results.view();
        let mut taken: IconCache = IconCache::new();
        std::mem::swap(&mut taken, self);
        let IconCache { mut results } = taken;
        results.insert(key, result);
        assert(results.view() == m.insert(key@, result));
        *self = IconCache { results };
        assert(self.view() =~= m.map_values(|x: Result<Frame, String>| outcome(x)).insert(
            key@,
            outcome(result),
        ));
    }
}

/// The frame of icon `name` in `color`: from the cache if it is there; else the
/// SVG source to rasterize, or the reason why there is none, which is settled
/// then. Every frame is a square of [`DEFAULT_RASTER_SIZE`].
pub fn icon_frame(
    cache: &mut IconCache,
    archive: &NowdatArchive,
    name: &str,
    color: Rgba8,
) -> (r: IconStep)
    ensures
        r@ == looked_up(old(cache).view(), archive.view(), name@, color),
        final(cache).view() == after_lookup(old(cache).view(), archive.view(), name@, color),
        r@ matches Looked::Ready(Ok(p)) ==> is_icon_frame(p),
{
    let key: String = key_of(name, color);
    let ghost before = cache.view();
    if let Some(x) = cache.find(key.as_str()) {
        assert(before =~= before.insert(key@, before[key@]));
        return IconStep::Ready(x);
    }
    match icon_source(archive, name, color) {
        Ok(svg) => IconStep::Rasterize(svg),
        Err(e) => {
            let again: String = e.clone();
            cache.put(key.as_str(), Err(again));
            IconStep::Ready(Err(e))
        },
    }
}

/// Settles what icon `name` in `color` was rasterized to, and returns it. An icon
/// that is settled already stays as it is.
pub fn store_frame(
    cache: &mut IconCache,
    name: &str,
    color: Rgba8,
    raster: &Result<Vec<Rgba8>, String>,
) -> (r: Result<Frame, String>)
    requires
        raster matches Ok(pixels) ==> pixels@.len() == DEFAULT_RASTER_SIZE * DEFAULT_RASTER_SIZE,
    ensures
        final(cache).view() == after_store(old(cache).view(), name@, color, rastered(*raster)),
        outcome(r) == final(cache).view()[cache_key(name@, color)],
        outcome(r) matches Ok(p) ==> is_icon_frame(p),
{
    let key: String = key_of(name, color);
    if let Some(x) = cache.find(key.as_str()) {
        return x;
    }
    let result: Result<Frame, String> = match raster {
        Ok(pixels) => {
            proof {
                lemma_pixel_bytes_len(pixels@, pixels@.len());
            }
            Ok(raster_frame(DEFAULT_RASTER_SIZE, pixels))
        },
        Err(e) => Err(e.clone()),
    };
    cache.put(key.as_str(), copy_result(&result));
    result
}

// ---- laws of the cache ----

/// What is settled stays as it is, whatever is looked up or stored later.
pub proof fn law_settled_icons_stay(
    settled: Settled,
    archive: Map<Seq<char>, Seq<u8>>,
    name: Seq<char>,
    color: Rgba8,
    x: Result<Picture, Seq<char>>,
)
    ensures
        settled.submap_of(after_lookup(settled, archive, name, color)),
        settled.submap_of(after_store(settled, name, color, x)),
{
}

/// A later lookup of the same name and color gives an equal result, whatever was
/// settled in between: once the lookup itself, or storing what it asked to
/// rasterize, gave one.
pub proof fn law_later_lookup_gives_the_same(
    settled: Settled,
    archive: Map<Seq<char>, Seq<u8>>,
    name: Seq<char>,
    color: Rgba8,
    x: Result<Picture, Seq<char>>,
    later: Settled,
)
    ensures
        looked_up(settled, archive, name, color) is Ready && after_lookup(
            settled,
            archive,
            name,
            color,
        ).submap_of(later) ==> looked_up(later, archive, name, color) == looked_up(
            settled,
            archive,
            name,
            color,
        ),
        after_store(settled, name, color, x).submap_of(later) ==> looked_up(
            later,
            archive,
            name,
            color,
        ) == Looked::Ready(after_store(settled, name, color, x)[cache_key(name, color)]),
{
    let key = cache_key(name, color);
    if looked_up(settled, archive, name, color) is Ready {
        assert(after_lookup(settled, archive, name, color).dom().contains(key));
    }
    assert(after_store(settled, name, color, x).dom().contains(key));
}

/// What is settled keeps to an archive: an icon without a source there came to
/// the reason why.
pub open spec fn keeps_to(settled: Settled, archive: Map<Seq<char>, Seq<u8>>) -> bool {
    forall|name: Seq<char>, color: Rgba8| #[trigger]
        settled.dom().contains(cache_key(name, color)) ==> (colored_source(archive, name, color)
            matches Err(e) ==> settled[cache_key(name, color)] == Err::<Picture, Seq<char>>(e))
}

/// A cache keeps to its archive: an empty one does, looking up keeps it so, and so
/// does storing what an icon with a source came to.
pub proof fn law_cache_keeps_to_its_archive(
    settled: Settled,
    archive: Map<Seq<char>, Seq<u8>>,
    name: Seq<char>,
    color: Rgba8,
    x: Result<Picture, Seq<char>>,
)
    requires
        keeps_to(settled, archive),
    ensures
        keeps_to(Settled::empty(), archive),
        keeps_to(after_lookup(settled, archive, name, color), archive),
        colored_source(archive, name, color) is Ok ==> keeps_to(
            after_store(settled, name, color, x),
            archive,
        ),
{
    let looked = after_lookup(settled, archive, name, color);
    let stored = after_store(settled, name, color, x);
    let key = cache_key(name, color);
    assert forall|n: Seq<char>, c: Rgba8| #[trigger]
        looked.dom().contains(cache_key(n, c)) implies (colored_source(archive, n, c) matches Err(
        e,
    ) ==> looked[cache_key(n, c)] == Err::<Picture, Seq<char>>(e)) by {
        if cache_key(n, c) == key {
            law_cache_keys_are_distinct(n, c, name, color);
            assert(colored_source(archive, n, c) == colored_source(archive, name, color));
        }
        if settled.dom().contains(cache_key(n, c)) {
            assert(looked[cache_key(n, c)] == settled[cache_key(n, c)]);
        }
    }
    if colored_source(archive, name, color) is Ok {
        assert forall|n: Seq<char>, c: Rgba8| #[trigger]
            stored.dom().contains(cache_key(n, c)) implies (colored_source(archive, n, c)
            matches Err(e) ==> stored[cache_key(n, c)] == Err::<Picture, Seq<char>>(e)) by {
            if cache_key(n, c) == key {
                law_cache_keys_are_distinct(n, c, name, color);
                assert(colored_source(archive, n, c) == colored_source(archive, name, color));
            } else {
                assert(settled.dom().contains(cache_key(n, c)));
            }
        }
    }
}

/// An icon that the archive does not hold comes to an error that says so, the
/// first time and every later time.
pub proof fn law_unknown_icon_is_an_error(
    settled: Settled,
    archive: Map<Seq<char>, Seq<u8>>,
    name: Seq<char>,
    color: Rgba8,
)
    requires
        keeps_to(settled, archive),
        !archive.dom().contains(name),
    ensures
        looked_up(settled, archive, name, color) is Ready,
        looked_up(settled, archive, name, color)->Ready_0 is Err,
        looked_up(settled, archive, name, color)->Ready_0->Err_0.len() >= 12,
        looked_up(settled, archive, name, color)->Ready_0->Err_0.take(12) == "unknown icon"@,
{
    reveal_strlit("unknown icon `");
    reveal_strlit("unknown icon");
    let e = colored_source(archive, name, color)->Err_0;
    assert(e.take(12) =~= "unknown icon"@);
    if settled.dom().contains(cache_key(name, color)) {
        assert(settled[cache_key(name, color)] == Err::<Picture, Seq<char>>(e));
    }
}

/// How an icon is put onto its raster: scaled by `scale`, then shifted.
#[derive(Debug, Clone, Copy)]
pub struct Placement<N> {
    pub scale: N,
    pub offset_x: N,
    pub offset_y: N,
}

/// An icon of size `w` by `h` in a square: as large as fits, and centered.
pub open spec fn fitted<N: Num>(size: u32, w: N, h: N) -> Placement<N> {
    let side = N::count_of(size as nat);
    let scale = N::div_of(side, N::max_of(w, h));
    Placement {
        scale,
        offset_x: N::div_of(N::sub_of(side, N::mul_of(w, scale)), whole(2)),
        offset_y: N::div_of(N::sub_of(side, N::mul_of(h, scale)), whole(2)),
    }
}

/// Fits an icon of size `w` by `h` into a square of `size` pixels; one without an
/// area fits nowhere.
pub fn place_icon<N: Num>(size: u32, w: N, h: N) -> (r: Result<Placement<N>, String>)
    ensures
        if N::le_of(w, whole(0)) || N::le_of(h, whole(0)) {
            r is Err && r->Err_0@ == "icon svg has a zero-area viewBox"@
        } else {
            r is Ok && r->Ok_0 == fitted(size, w, h)
        },
{
    let zero: N = N::ratio(0, 1);
    if w.at_most(zero) || h.at_most(zero) {
        return Err("icon svg has a zero-area viewBox".to_owned());
    }
    let side: N = N::count(size as usize);
    let two: N = N::ratio(2, 1);
    let scale: N = side.over(w.greater_of(h));
    Ok(
        Placement {
            scale,
            offset_x: side.minus(w.times(scale)).over(two),
            offset_y: side.minus(h.times(scale)).over(two),
        },
    )
}

/// The bytes of the first `n` pixels, one after the other.
pub open spec fn pixel_bytes(pixels: Seq<Rgba8>, n: nat) -> Seq<u8>
    decreases n,
{
    if n == 0 {
        Seq::empty()
    } else {
        pixel_bytes(pixels, (n - 1) as nat) + pixels[n - 1]@
    }
}

proof fn lemma_pixel_bytes_len(pixels: Seq<Rgba8>, n: nat)
    ensures
        pixel_bytes(pixels, n).len() == 4 * n,
    decreases n,
{
    if n > 0 {
        lemma_pixel_bytes_len(pixels, (n - 1) as nat);
    }
}

/// The frame that a square raster of straight pixels makes.
pub fn raster_frame(size: u32, pixels: &Vec<Rgba8>) -> (r: Frame)
    ensures
        r@ == (Picture {
            width: size,
            height: size,
            rgba: pixel_bytes(pixels@, pixels@.len()),
            delay_ms: 0,
        }),
{
    let mut rgba: Vec<u8> = Vec::new();
    let mut i: usize = 0;
    while i < pixels.len()
        invariant
            0 <= i <= pixels@.len(),
            rgba@ == pixel_bytes(pixels@, i as nat),
        decreases pixels@.len() - i,
    {
        let p: Rgba8 = pixels[i];
        let ghost before = rgba@;
        rgba.push(p[0]);
        rgba.push(p[1]);
        rgba.push(p[2]);
        rgba.push(p[3]);
        i = i + 1;
        assert(rgba@ =~= before + pixels@[i - 1]@);
    }
    Frame { width: size, height: size, rgba, delay_ms: 0 }
}

} // verus!
