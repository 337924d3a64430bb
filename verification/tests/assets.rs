use image::codecs::gif::GifEncoder;
use image::{Delay, Rgba, RgbaImage};
use nowui::assets::bundle::{plan_bundle, BundlePlan};
use nowui::assets::decode::{assemble_animation, assemble_still, decode_bytes, decode_gif, Frame};
use nowui::assets::icons::{
    icon_frame, icon_svg, place_icon, recolor, store_frame, IconCache, IconStep, Rgba8,
    DEFAULT_RASTER_SIZE,
};
use nowui::assets::icons_gen::{escape_xml_attr, extract_json_arg, map_attr_name, parse_set, render_svg, written_attrs};
use nowui::assets::json::{get, parse_json, Json};
use nowui::assets::nowdat::{build, read_slice, read_u32, read_u64, NowdatArchive};
use nowui::toolkit::num::Num;
use std::io::Cursor;

/// Machine floats.
#[derive(Clone, Copy, Debug, PartialEq, PartialOrd)]
struct F(f32);

impl Num for F {
    fn plus(self, other: F) -> F {
        F(self.0 + other.0)
    }
    fn minus(self, other: F) -> F {
        F(self.0 - other.0)
    }
    fn times(self, other: F) -> F {
        F(self.0 * other.0)
    }
    fn over(self, other: F) -> F {
        F(self.0 / other.0)
    }
    fn negated(self) -> F {
        F(-self.0)
    }
    fn greater_of(self, other: F) -> F {
        F(self.0.max(other.0))
    }
    fn lesser_of(self, other: F) -> F {
        F(self.0.min(other.0))
    }
    fn less(self, other: F) -> bool {
        self.0 < other.0
    }
    fn at_most(self, other: F) -> bool {
        self.0 <= other.0
    }
    fn same(self, other: F) -> bool {
        self.0 == other.0
    }
    fn ratio(n: i32, d: i32) -> F {
        F((n as f64 / d as f64) as f32)
    }
    fn count(n: usize) -> F {
        F(n as f32)
    }
    fn parse(s: &str) -> Option<F> {
        s.parse().ok().map(F)
    }
    fn to_byte(self) -> u8 {
        self.0.round().clamp(0.0, 255.0) as u8
    }
    fn to_index(self) -> usize {
        self.0 as usize
    }
    fn to_text(self) -> String {
        format!("{}", self.0)
    }
}

fn open_archive(bytes: Vec<u8>) -> NowdatArchive {
    match NowdatArchive::open(bytes) {
        Ok(a) => a,
        Err(e) => panic!("valid archive: {e}"),
    }
}

fn open_error(bytes: Vec<u8>) -> String {
    match NowdatArchive::open(bytes) {
        Ok(_) => panic!("must not open"),
        Err(e) => e,
    }
}

/// An archive with one icon in it.
fn icons() -> NowdatArchive {
    let svg = r#"<svg xmlns="http://www.w3.org/2000/svg" fill="currentColor" viewBox="0 0 448 512"><path d="M0 0h448v512H0z"/></svg>"#;
    open_archive(build(&vec![("FaUser".to_string(), svg.as_bytes().to_vec())]))
}

/// Rasterizes a colored icon.
fn rasterize(svg: &str, size: u32) -> Result<Vec<Rgba8>, String> {
    let opt = usvg::Options::default();
    let tree = usvg::Tree::from_str(svg, &opt).map_err(|e| format!("parsing icon svg: {e}"))?;
    let p = place_icon(size, F(tree.size().width()), F(tree.size().height()))?;
    let mut pixmap = resvg::tiny_skia::Pixmap::new(size, size).ok_or_else(|| "failed to allocate icon pixmap".to_string())?;
    let transform = resvg::tiny_skia::Transform::from_translate(p.offset_x.0, p.offset_y.0).pre_scale(p.scale.0, p.scale.0);
    resvg::render(&tree, transform, &mut pixmap.as_mut());
    let pixels: Vec<Rgba8> = pixmap
        .pixels()
        .iter()
        .map(|px| {
            let c = px.demultiply();
            [c.red(), c.green(), c.blue(), c.alpha()]
        })
        .collect();
    Ok(pixels)
}

fn rasterized(name: &str, color: Rgba8) -> Result<Frame, String> {
    let archive = icons();
    let mut cache = IconCache::new();
    match icon_frame(&mut cache, &archive, name, color) {
        IconStep::Ready(r) => r,
        IconStep::Rasterize(svg) => {
            let raster = rasterize(&svg, DEFAULT_RASTER_SIZE);
            let stored = store_frame(&mut cache, name, color, &raster);
            assert!(stored.is_ok());
            match icon_frame(&mut cache, &archive, name, color) {
                IconStep::Ready(r) => r,
                IconStep::Rasterize(_) => panic!("must come from the cache now"),
            }
        }
    }
}

#[test]
fn round_trips_multiple_entries() {
    let entries = vec![
        ("logo.png".to_string(), vec![1, 2, 3, 4]),
        ("spinner.gif".to_string(), vec![9, 9, 9]),
        ("empty.bmp".to_string(), vec![]),
    ];
    let bytes = build(&entries);
    let archive = open_archive(bytes);

    assert_eq!(archive.len(), 3);
    assert_eq!(archive.get("logo.png"), Some(&[1, 2, 3, 4][..]));
    assert_eq!(archive.get("spinner.gif"), Some(&[9, 9, 9][..]));
    assert_eq!(archive.get("empty.bmp"), Some(&[][..]));
    assert_eq!(archive.get("missing.png"), None);
}

#[test]
fn open_rejects_bad_magic() {
    let err = open_error(vec![0u8; 20]);
    assert!(err.contains("magic"));
}

#[test]
fn open_rejects_a_truncated_header() {
    let bytes = build(&vec![("a.png".to_string(), vec![1, 2, 3])]);
    let truncated = bytes[..bytes.len() - 10].to_vec();
    assert!(NowdatArchive::open(truncated).is_err());
}

#[test]
fn open_rejects_an_empty_buffer() {
    assert!(NowdatArchive::open(Vec::new()).is_err());
}

fn tiny_png_bytes() -> Vec<u8> {
    let mut img = image::RgbaImage::new(2, 2);
    for p in img.pixels_mut() {
        *p = image::Rgba([255, 0, 0, 255]);
    }
    let mut bytes = Vec::new();
    image::DynamicImage::ImageRgba8(img).write_to(&mut Cursor::new(&mut bytes), image::ImageFormat::Png).unwrap();
    bytes
}

#[test]
fn decode_bytes_reads_a_static_png_as_one_frame() {
    let decoded = decode_bytes(&tiny_png_bytes()).expect("should decode");
    assert_eq!((decoded.width, decoded.height), (2, 2));
    assert_eq!(decoded.frames.len(), 1);
    assert!(!decoded.is_animated());
    assert_eq!(decoded.frames[0].rgba.len(), 2 * 2 * 4);
    assert_eq!(&decoded.frames[0].rgba[0..4], &[255, 0, 0, 255]);
}

/// A 2-frame animated GIF (red, then blue), each held 100ms.
fn tiny_animated_gif_bytes() -> Vec<u8> {
    let mut red = RgbaImage::new(2, 2);
    for p in red.pixels_mut() {
        *p = Rgba([255, 0, 0, 255]);
    }
    let mut blue = RgbaImage::new(2, 2);
    for p in blue.pixels_mut() {
        *p = Rgba([0, 0, 255, 255]);
    }

    let mut bytes = Vec::new();
    {
        let mut encoder = GifEncoder::new(&mut bytes);
        let delay = Delay::from_numer_denom_ms(100, 1);
        encoder.encode_frame(image::Frame::from_parts(red, 0, 0, delay)).unwrap();
        encoder.encode_frame(image::Frame::from_parts(blue, 0, 0, delay)).unwrap();
    }
    bytes
}

#[test]
fn decode_bytes_reads_every_frame_of_an_animated_gif_with_its_own_delay() {
    let decoded = decode_bytes(&tiny_animated_gif_bytes()).expect("should decode");
    assert!(decoded.is_animated());
    assert_eq!(decoded.frames.len(), 2);
    assert_eq!(&decoded.frames[0].rgba[0..4], &[255, 0, 0, 255], "first frame is red");
    assert_eq!(&decoded.frames[1].rgba[0..4], &[0, 0, 255, 255], "second frame is blue");
    assert_eq!(decoded.frames[0].delay_ms, 100);
    assert_eq!(decoded.frames[1].delay_ms, 100);
}

#[test]
fn decode_bytes_rejects_garbage_input() {
    assert!(decode_bytes(b"not an image").is_err());
}


#[test]
fn extract_json_arg_finds_the_balanced_object() {
    let src = r#"return GenIcon({"tag":"svg","attr":{"viewBox":"0 0 1 1"},"child":[]})(props);"#;
    let start = src.find('{').unwrap();
    let json = extract_json_arg(src, start).unwrap();
    assert_eq!(json, r#"{"tag":"svg","attr":{"viewBox":"0 0 1 1"},"child":[]}"#);
}

#[test]
fn render_svg_reconstructs_a_simple_icon() {
    let tree = parse_json(r#"{"tag":"svg","attr":{"viewBox":"0 0 512 512"},"child":[{"tag":"path","attr":{"d":"M1 2"},"child":[]}]}"#).unwrap();
    let svg = render_svg(&tree);
    assert!(svg.starts_with(r#"<svg xmlns="http://www.w3.org/2000/svg" fill="currentColor" stroke="currentColor" stroke-width="0""#));
    assert!(svg.contains(r#"viewBox="0 0 512 512""#));
    assert!(svg.contains(r#"<path d="M1 2"/>"#));
    assert!(svg.ends_with("</svg>"));
}

#[test]
fn render_svg_lets_the_icons_own_attr_override_the_injected_defaults() {
    let tree = parse_json(r#"{"tag":"svg","attr":{"viewBox":"0 0 1 1","fill":"none"},"child":[]}"#).unwrap();
    let svg = render_svg(&tree);
    assert_eq!(svg.matches("fill=").count(), 1, "must not emit a duplicate `fill` attribute: {svg}");
    assert!(svg.contains(r#"fill="none""#));
    assert!(svg.contains(r#"stroke="currentColor""#));
}

#[test]
fn render_svg_converts_camel_case_presentation_attributes() {
    let tree = parse_json(r#"{"tag":"path","attr":{"fillRule":"evenodd","clipRule":"evenodd","d":"M0 0"},"child":[]}"#).unwrap();
    let svg = render_svg(&tree);
    assert!(svg.contains(r#"fill-rule="evenodd""#));
    assert!(svg.contains(r#"clip-rule="evenodd""#));
}

#[test]
fn parse_set_extracts_every_icon_in_a_tiny_fixture_module() {
    let js = "// THIS FILE IS AUTO GENERATED\nvar GenIcon = require('../lib').GenIcon\nmodule.exports.FaTest = function FaTest (props) {\n  return GenIcon({\"tag\":\"svg\",\"attr\":{\"viewBox\":\"0 0 1 1\"},\"child\":[{\"tag\":\"path\",\"attr\":{\"d\":\"M0 0\"},\"child\":[]}]})(props);\n};\nmodule.exports.FaTest2 = function FaTest2 (props) {\n  return GenIcon({\"tag\":\"svg\",\"attr\":{\"viewBox\":\"0 0 2 2\"},\"child\":[]})(props);\n};\n";
    let icons = parse_set(js);
    assert_eq!(icons.len(), 2);
    assert_eq!(icons[0].0, "FaTest");
    assert!(icons[0].1.contains(r#"viewBox="0 0 1 1""#));
    assert_eq!(icons[1].0, "FaTest2");
}

#[test]
fn icon_svg_finds_a_known_icon() {
    assert!(icon_svg(&icons(), "FaUser").is_some(), "expected `FaUser` in the icon archive");
}

#[test]
fn icon_svg_returns_none_for_an_unknown_name() {
    assert!(icon_svg(&icons(), "NotARealIconName12345").is_none());
}

#[test]
fn recolor_replaces_every_current_color_occurrence() {
    let svg = r#"<svg fill="currentColor" stroke="currentColor"><path d="M0 0"/></svg>"#;
    let out = recolor(svg, [255, 0, 0, 255]);
    assert!(!out.contains("currentColor"));
    assert_eq!(out.matches("#ff0000").count(), 2);
}

#[test]
fn icon_frame_rasterizes_a_known_icon_to_the_default_size() {
    let frame = rasterized("FaUser", [0, 0, 0, 255]).expect("FaUser should rasterize");
    assert_eq!(frame.width, DEFAULT_RASTER_SIZE);
    assert_eq!(frame.height, DEFAULT_RASTER_SIZE);
    assert_eq!(frame.rgba.len(), (DEFAULT_RASTER_SIZE * DEFAULT_RASTER_SIZE * 4) as usize);
    // At least one non-transparent pixel — the glyph actually painted
    // something, not just a blank canvas.
    assert!(frame.rgba.chunks_exact(4).any(|p| p[3] > 0));
}

#[test]
fn icon_frame_reports_an_unknown_icon_as_an_error() {
    let err = rasterized("TotallyMadeUpIcon", [0, 0, 0, 255]).unwrap_err();
    assert!(err.contains("unknown icon"));
}


#[test]
fn open_reports_each_fault_of_an_archive() {
    let good = build(&vec![("a".to_string(), vec![7, 8])]);
    let mut version = good.clone();
    version[8] = 9;
    let faulty: Vec<Vec<u8>> = vec![vec![], good[..6].to_vec(), version, good[..good.len() - 1].to_vec()];
    for bytes in faulty {
        assert!(NowdatArchive::open(bytes).is_err());
    }
    let a = open_archive(good);
    assert!(!a.is_empty());
    assert_eq!(a.keys(), vec!["a"]);
}

#[test]
fn little_endian_numbers_are_read_in_place() {
    let bytes = [1u8, 2, 0, 0, 5, 0, 0, 0, 0, 0, 0, 1, 9];
    let mut pos = 0usize;
    assert_eq!(read_u32(&bytes, &mut pos), Ok(0x201));
    assert_eq!(read_u64(&bytes, &mut pos), Ok(0x100_0000_0000_0005));
    assert_eq!(read_slice(&bytes, &mut pos, 1).unwrap(), &[9]);
    assert_eq!(pos, 13);
    assert!(read_u32(&bytes, &mut pos).is_err());
    assert!(read_slice(&bytes, &mut pos, 1).is_err());
}

#[test]
fn a_later_entry_of_the_same_key_wins() {
    let a = open_archive(build(&vec![("k".to_string(), vec![1]), ("k".to_string(), vec![2, 3])]));
    assert_eq!(a.len(), 1);
    assert_eq!(a.get("k"), Some(&[2, 3][..]));
}

#[test]
fn stills_and_animations_are_assembled_from_raw_frames() {
    let still = assemble_still(1, 1, vec![1, 2, 3, 4]);
    assert_eq!((still.width, still.height, still.frames.len()), (1, 1, 1));
    assert_eq!(still.frames[0].rgba, vec![1, 2, 3, 4]);
    assert_eq!(still.frames[0].delay_ms, 0);
    match assemble_animation(vec![]) {
        Err(e) => assert_eq!(e, "GIF has no frames"),
        Ok(_) => panic!("an animation without frames must not assemble"),
    }
    assert!(decode_gif(b"GIF89a").is_err());
}

#[test]
fn json_is_read_as_plain_values() {
    let j = parse_json(r#"{"a":[1,2.5,true,null],"b":"x\ny"}"#).unwrap();
    match get(&j, "b") {
        Some(Json::Str(s)) => assert_eq!(s, "x\ny"),
        _ => panic!("a string"),
    }
    match get(&j, "a") {
        Some(Json::Array(v)) => {
            assert_eq!(v.len(), 4);
            assert!(matches!(&v[0], Json::Number(n) if n == "1"));
            assert!(matches!(&v[1], Json::Number(n) if n == "2.5"));
            assert!(matches!(v[2], Json::Bool(true)));
            assert!(matches!(v[3], Json::Null));
        }
        _ => panic!("an array"),
    }
    assert!(get(&j, "c").is_none());
    assert!(parse_json("{").is_none());
}

#[test]
fn attribute_values_are_escaped_and_names_are_mapped() {
    assert_eq!(escape_xml_attr(r#"a<b>&"c""#), "a&lt;b&gt;&amp;&quot;c&quot;");
    assert_eq!(map_attr_name("strokeWidth"), "stroke-width");
    assert_eq!(map_attr_name("viewBox"), "viewBox");
}

#[test]
fn braces_in_strings_do_not_end_a_json_argument() {
    assert_eq!(extract_json_arg(r#"{"a":"}\"}"}x"#, 0), Some(r#"{"a":"}\"}"}"#));
    assert_eq!(extract_json_arg("{{}", 0), None);
}

#[test]
fn an_icon_is_fitted_and_centered() {
    let p = place_icon(128, F(64.0), F(32.0)).unwrap();
    assert_eq!((p.scale, p.offset_x, p.offset_y), (F(2.0), F(0.0), F(32.0)));
    assert_eq!(place_icon(128, F(0.0), F(32.0)).unwrap_err(), "icon svg has a zero-area viewBox");
}

#[test]
fn files_with_the_same_name_are_refused() {
    let some = |s: &str| Some(s.to_string());
    match plan_bundle(&vec![some("b.png"), some("a.gif"), None, some("notes.txt")]) {
        BundlePlan::Pack(order) => assert_eq!(order, vec![1, 0, 3]),
        BundlePlan::Refuse(_) => panic!("no name is shared"),
    }
    match plan_bundle(&vec![some("a.png"), some("b.png"), some("a.png")]) {
        BundlePlan::Refuse(groups) => assert_eq!(groups, vec![vec![0, 2]]),
        BundlePlan::Pack(_) => panic!("a.png is there twice"),
    }
}

#[test]
fn a_key_must_be_text() {
    let mut bytes = build(&vec![("ab".to_string(), vec![1])]);
    assert_eq!(&bytes[16..18], b"ab");
    bytes[16] = 0xff;
    let e = open_error(bytes);
    assert!(e.starts_with("invalid utf-8 key: ") && e.contains("index 0"), "{e}");
}

#[test]
fn an_icon_must_be_text() {
    let archive = open_archive(build(&vec![("Bad".to_string(), vec![0xff])]));
    let mut cache = IconCache::new();
    match icon_frame(&mut cache, &archive, "Bad", [0, 0, 0, 255]) {
        IconStep::Ready(Err(e)) => assert!(!e.is_empty()),
        _ => panic!("no text, no icon"),
    }
}

#[test]
fn what_is_wrong_with_a_picture_is_said() {
    let e = decode_bytes(b"not an image").unwrap_err();
    assert!(e.starts_with("could not detect image format: "), "{e}");
    let e = decode_bytes(b"GIF89a").unwrap_err();
    assert!(e.starts_with("could not open GIF: ") || e.starts_with("could not decode GIF frames: "), "{e}");
    let mut cut = tiny_png_bytes();
    cut.truncate(20);
    let e = decode_bytes(&cut).unwrap_err();
    assert!(e.starts_with("could not decode image: "), "{e}");
}

#[test]
fn no_strict_prefix_of_an_archive_opens() {
    for entries in [vec![], vec![("a.png".to_string(), vec![1, 2, 3]), ("é".to_string(), vec![])]] {
        let bytes = build(&entries);
        for n in 0..bytes.len() {
            assert!(NowdatArchive::open(bytes[..n].to_vec()).is_err());
        }
        assert_eq!(open_archive(bytes).len(), entries.len());
    }
}

#[test]
fn no_attribute_is_written_twice() {
    let svg = |attrs: &str| render_svg(&parse_json(&format!(r#"{{"tag":"svg","attr":{{{attrs}}},"child":[]}}"#)).unwrap());
    assert_eq!(
        svg(r#""stroke-width":"2""#),
        r#"<svg xmlns="http://www.w3.org/2000/svg" fill="currentColor" stroke="currentColor" stroke-width="2"/>"#
    );
    assert_eq!(
        svg(r#""xmlns":"urn:x","strokeWidth":"3","fill":"none""#),
        r#"<svg stroke="currentColor" fill="none" stroke-width="3" xmlns="urn:x"/>"#
    );
    assert_eq!(
        svg(r#""strokeWidth":"3","stroke-width":"2""#),
        r#"<svg xmlns="http://www.w3.org/2000/svg" fill="currentColor" stroke="currentColor" stroke-width="2"/>"#
    );
    let members = vec![("fillRule".to_string(), Json::Str("evenodd".to_string())), ("d".to_string(), Json::Null)];
    assert_eq!(written_attrs(&members, "path"), vec![("fill-rule".to_string(), "evenodd".to_string())]);
}

#[test]
fn a_settled_icon_stays_as_it_is() {
    let archive = icons();
    let mut cache = IconCache::new();
    let black = [0, 0, 0, 255];
    let pixels = DEFAULT_RASTER_SIZE as usize * DEFAULT_RASTER_SIZE as usize;
    let first = store_frame(&mut cache, "FaUser", black, &Ok(vec![[1, 2, 3, 4]; pixels])).unwrap();
    assert_eq!((first.width, first.height, first.rgba.len(), first.delay_ms), (128, 128, 128 * 128 * 4, 0));
    let again = store_frame(&mut cache, "FaUser", black, &Err("too late".to_string())).unwrap();
    assert_eq!(again.rgba[..4], [1, 2, 3, 4]);
    assert!(matches!(icon_frame(&mut cache, &archive, "FaUser", black), IconStep::Ready(Ok(f)) if f.rgba == first.rgba));
    assert!(matches!(icon_frame(&mut cache, &archive, "FaUser", [1, 0, 0, 255]), IconStep::Rasterize(_)));
    for _ in 0..2 {
        match icon_frame(&mut cache, &archive, "Nope", black) {
            IconStep::Ready(Err(e)) => assert!(e.starts_with("unknown icon")),
            _ => panic!("there is no such icon"),
        }
    }
    let failed = store_frame(&mut cache, "FaUser", [2, 0, 0, 255], &Err("no pixels".to_string()));
    assert_eq!(failed.unwrap_err(), "no pixels");
}

#[test]
fn a_shared_name_is_listed_once() {
    let some = |s: &str| Some(s.to_string());
    match plan_bundle(&vec![some("b"), some("a"), some("a"), some("b"), some("a"), some("c")]) {
        BundlePlan::Refuse(groups) => assert_eq!(groups, vec![vec![0, 3], vec![1, 2, 4]]),
        BundlePlan::Pack(_) => panic!("two names are shared"),
    }
}

#[test]
fn a_gif_of_one_frame_has_no_delay() {
    let mut bytes = Vec::new();
    let frame = image::Frame::from_parts(RgbaImage::new(1, 1), 0, 0, Delay::from_numer_denom_ms(100, 1));
    GifEncoder::new(&mut bytes).encode_frame(frame).unwrap();
    let decoded = decode_bytes(&bytes).expect("should decode");
    assert!(!decoded.is_animated());
    assert_eq!(decoded.frames[0].delay_ms, 0);
}
