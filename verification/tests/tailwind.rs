use nowui::toolkit::geometry::Color;
use nowui::toolkit::num::Num;
use nowui::toolkit::tailwind::{color, spacing, Easing};

/// Machine floats.
#[derive(Clone, Copy, Debug, PartialEq, PartialOrd)]
struct F(f32);

impl Num for F {
    fn plus(self, other: F) -> F {
        F(self.0 + other.0)
    }
    fn minus(self, other: F) -> F {
        F(self.0 - other.0)
    }
    fn times(self, other: F) -> F {
        F(self.0 * other.0)
    }
    fn over(self, other: F) -> F {
        F(self.0 / other.0)
    }
    fn negated(self) -> F {
        F(-self.0)
    }
    fn greater_of(self, other: F) -> F {
        F(self.0.max(other.0))
    }
    fn lesser_of(self, other: F) -> F {
        F(self.0.min(other.0))
    }
    fn less(self, other: F) -> bool {
        self.0 < other.0
    }
    fn at_most(self, other: F) -> bool {
        self.0 <= other.0
    }
    fn same(self, other: F) -> bool {
        self.0 == other.0
    }
    fn ratio(n: i32, d: i32) -> F {
        F((n as f64 / d as f64) as f32)
    }
    fn count(n: usize) -> F {
        F(n as f32)
    }
    fn parse(s: &str) -> Option<F> {
        s.parse().ok().map(F)
    }
    fn to_byte(self) -> u8 {
        self.0.round().clamp(0.0, 255.0) as u8
    }
    fn to_index(self) -> usize {
        self.0 as usize
    }
    fn to_text(self) -> String {
        format!("{}", self.0)
    }
}

#[test]
fn spacing_scale_matches_quarter_rem() {
    assert_eq!(spacing::<F>("4"), Some(F(16.0)));
    assert_eq!(spacing::<F>("0.5"), Some(F(2.0)));
    assert_eq!(spacing::<F>("px"), Some(F(1.0)));
}

#[test]
fn palette_resolves_family_and_shade() {
    assert_eq!(color("blue-600"), Color::from_hex("#2563eb"));
    assert_eq!(color("blue"), Color::from_hex("#3b82f6"));
    assert_eq!(color("white"), Some(Color::rgb(255, 255, 255)));
    assert_eq!(color("nope-500"), None);
}

#[test]
fn easing_curves_stay_in_unit_range() {
    for e in [Easing::Linear, Easing::In, Easing::Out, Easing::InOut] {
        assert!((0.0..=1.0).contains(&e.apply(F(0.25)).0));
        assert_eq!(e.apply(F(0.0)), F(0.0));
        assert!((e.apply(F(1.0)).0 - 1.0).abs() < 1e-4);
    }
}

#[test]
fn every_family_has_every_shade() {
    let families = [
        "slate", "gray", "zinc", "neutral", "stone", "red", "orange", "amber", "yellow", "lime", "green", "emerald", "teal",
        "cyan", "sky", "blue", "indigo", "violet", "purple", "fuchsia", "pink", "rose",
    ];
    let shades = ["50", "100", "200", "300", "400", "500", "600", "700", "800", "900", "950"];
    for family in families {
        for shade in shades {
            assert_eq!(color(&format!("{family}-{shade}")).map(|c| c.a), Some(255));
        }
        assert_eq!(color(family), color(&format!("{family}-500")));
        assert_eq!(color(&format!("{family}-550")), None);
        assert_eq!(color(&format!("{family}-")), None);
    }
    assert_eq!(color("nope-500"), None);
}
