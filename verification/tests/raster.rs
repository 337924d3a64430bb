use nowui::assets::decode::Frame;
use nowui::toolkit::geometry::{Color, Edges, Rect};
use nowui::toolkit::num::Num;
use nowui::toolkit::raster::{
    blend_pixel, draw_image, draw_sample, present_to_softbuffer, rounded_path, with_opacity, Opacities, Outline, Segment,
    Surface,
};

/// Machine floats.
#[derive(Clone, Copy, Debug, PartialEq, PartialOrd)]
struct F(f32);

impl Num for F {
    fn plus(self, other: F) -> F {
        F(self.0 + other.0)
    }
    fn minus(self, other: F) -> F {
        F(self.0 - other.0)
    }
    fn times(self, other: F) -> F {
        F(self.0 * other.0)
    }
    fn over(self, other: F) -> F {
        F(self.0 / other.0)
    }
    fn negated(self) -> F {
        F(-self.0)
    }
    fn greater_of(self, other: F) -> F {
        F(self.0.max(other.0))
    }
    fn lesser_of(self, other: F) -> F {
        F(self.0.min(other.0))
    }
    fn less(self, other: F) -> bool {
        self.0 < other.0
    }
    fn at_most(self, other: F) -> bool {
        self.0 <= other.0
    }
    fn same(self, other: F) -> bool {
        self.0 == other.0
    }
    fn ratio(n: i32, d: i32) -> F {
        F((n as f64 / d as f64) as f32)
    }
    fn count(n: usize) -> F {
        F(n as f32)
    }
    fn parse(s: &str) -> Option<F> {
        s.parse().ok().map(F)
    }
    fn to_byte(self) -> u8 {
        self.0.round().clamp(0.0, 255.0) as u8
    }
    fn to_index(self) -> usize {
        self.0 as usize
    }
    fn to_text(self) -> String {
        format!("{}", self.0)
    }
}

fn black(width: u32, height: u32) -> Surface {
    let mut s = Surface::new(width, height);
    for p in &mut s.pixels {
        *p = Color::rgb(0, 0, 0);
    }
    s
}

fn pixel(s: &Surface, x: u32, y: u32) -> (u8, u8, u8, u8) {
    let p = s.pixels[(y * s.width + x) as usize];
    (p.r, p.g, p.b, p.a)
}

fn rect(x: f32, y: f32, w: f32, h: f32) -> Rect<F> {
    Rect::new(F(x), F(y), F(w), F(h))
}

#[test]
fn draw_image_stretches_a_solid_frame_onto_the_pixmap() {
    let mut surface = black(20, 20);

    // A 2x2 solid-red source frame, stretched to a 10x10 destination rect.
    let frame = Frame { width: 2, height: 2, rgba: vec![255, 0, 0, 255].repeat(4), delay_ms: 0 };
    draw_image(&mut surface, None, &frame, rect(5.0, 5.0, 10.0, 10.0), F(1.0));

    // Center of the stretched rect should be solid red.
    assert_eq!(pixel(&surface, 10, 10), (255, 0, 0, 255));
    // Outside the rect stays the original black background.
    assert_eq!(pixel(&surface, 2, 2), (0, 0, 0, 255));
}

#[test]
fn draw_image_respects_the_active_clip() {
    let mut surface = black(20, 20);
    let frame = Frame { width: 1, height: 1, rgba: vec![255, 0, 0, 255], delay_ms: 0 };
    let mask: Vec<u8> = (0..400).map(|i| if i % 20 < 5 && i / 20 < 5 { 255 } else { 0 }).collect();
    draw_image(&mut surface, Some(&mask), &frame, rect(0.0, 0.0, 20.0, 20.0), F(1.0));

    // Inside the clip: painted red.
    assert_eq!(pixel(&surface, 2, 2), (255, 0, 0, 255));
    // Outside the clip: still the untouched black background.
    assert_eq!(pixel(&surface, 15, 15), (0, 0, 0, 255));
}

#[test]
fn a_picture_off_the_surface_is_cut_off() {
    let mut surface = black(4, 2);
    let frame = Frame { width: 2, height: 1, rgba: vec![255, 0, 0, 255, 0, 255, 0, 255], delay_ms: 0 };
    draw_image(&mut surface, None, &frame, rect(-2.0, -1.0, 4.0, 2.0), F(1.0));
    assert_eq!(pixel(&surface, 0, 0), (0, 255, 0, 255));
    assert_eq!(pixel(&surface, 1, 0), (0, 255, 0, 255));
    assert_eq!(pixel(&surface, 2, 0), (0, 0, 0, 255));
    assert_eq!(pixel(&surface, 0, 1), (0, 0, 0, 255));
    draw_image(&mut surface, None, &frame, rect(0.0, 0.0, 0.0, 2.0), F(1.0));
    assert_eq!(pixel(&surface, 0, 1), (0, 0, 0, 255));
}

#[test]
fn opacities_multiply() {
    let mut o: Opacities<F> = Opacities::new();
    assert_eq!(o.active_opacity(), F(1.0));
    o.push_opacity(F(0.5));
    o.push_opacity(F(0.5));
    assert_eq!(with_opacity(Color::rgb(1, 2, 3), o.active_opacity()).a, 64);
    o.pop_opacity();
    assert_eq!(o.active_opacity(), F(0.5));
    o.pop_opacity();
    o.pop_opacity();
    assert_eq!(o.active_opacity(), F(1.0));
}

#[test]
fn a_sample_is_blended_over_what_is_there() {
    let half = blend_pixel::<F>(Color::rgb(0, 0, 0), 255, 0, 0, 128);
    assert_eq!((half.r, half.g, half.b, half.a), (128, 0, 0, 255));
    let clear = blend_pixel::<F>(Color { r: 0, g: 0, b: 0, a: 0 }, 255, 255, 255, 100);
    assert_eq!((clear.r, clear.a), (100, 100));
    let mut surface = black(2, 1);
    draw_sample::<F>(&mut surface, None, 1, 0, Color::rgb(9, 8, 7));
    draw_sample::<F>(&mut surface, None, -1, 0, Color::rgb(255, 255, 255));
    draw_sample::<F>(&mut surface, None, 0, 1, Color::rgb(255, 255, 255));
    draw_sample::<F>(&mut surface, Some(&vec![0, 255]), 0, 0, Color::rgb(255, 255, 255));
    assert_eq!((pixel(&surface, 0, 0), pixel(&surface, 1, 0)), ((0, 0, 0, 255), (9, 8, 7, 255)));
    let mut out = vec![7u32; 3];
    present_to_softbuffer(&surface, &mut out);
    assert_eq!(out, vec![0, 0x090807, 7]);
}

#[test]
fn outlines_round_the_corners_that_are_round() {
    assert!(matches!(rounded_path(rect(0.0, 0.0, 0.0, 5.0), Edges::all(F(2.0))), Outline::Empty));
    assert!(matches!(rounded_path(rect(0.0, 0.0, 5.0, 5.0), Edges::all(F(0.5))), Outline::Square(_)));
    let Outline::Rounded(all) = rounded_path(rect(0.0, 0.0, 20.0, 10.0), Edges::all(F(99.0))) else { panic!("round") };
    assert_eq!(all.len(), 10);
    assert!(matches!(all[0], Segment::MoveTo(p) if p.x == F(5.0)), "no more than half a side");
    let one = Edges { top: F(2.0), right: F(0.0), bottom: F(-1.0), left: F(0.0) };
    let Outline::Rounded(some) = rounded_path(rect(0.0, 0.0, 20.0, 10.0), one) else { panic!("round") };
    assert_eq!(some.iter().filter(|s| matches!(s, Segment::QuadTo(..))).count(), 1);
    assert!(matches!(some[some.len() - 1], Segment::Close));
}
