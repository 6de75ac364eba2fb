//! Colour spaces, hex fallbacks and colours.

use pub_design_system_tokens::{Binary64, Color, ColorSpace, Component, Hex};

fn num(x: f64) -> Binary64 {
    Binary64(x.to_bits())
}

fn from_rgb8(r: u8, g: u8, b: u8) -> Color {
    let ch = |x: u8| Component::Value(num(x as f64 / 255.0));
    Color { color_space: ColorSpace::Srgb, components: [ch(r), ch(g), ch(b)], alpha: None, hex: Some(Hex([r, g, b])) }
}

#[test]
fn every_space_parses_back_from_its_identifier() {
    for space in ColorSpace::ALL {
        assert_eq!(ColorSpace::parse(space.as_str()), Some(space));
        assert_eq!(space.to_string(), space.as_str());
    }
    assert_eq!(ColorSpace::parse("SRGB"), None);
    assert_eq!(ColorSpace::parse(""), None);
}

#[test]
fn hex_reads_six_digits_only() {
    assert_eq!(Hex::parse("#0066CC"), Some(Hex([0, 0x66, 0xcc])));
    assert_eq!(Hex::parse("#0066cc").unwrap().to_string(), "#0066cc");
    for bad in ["#fff", "0066cc", "#0066cc80", "#00 6cc", "#00é6cc", "#gg0000", "#"] {
        assert_eq!(Hex::parse(bad), None, "{bad}");
    }
}

#[test]
fn every_space_has_its_own_identifier() {
    for (i, a) in ColorSpace::ALL.iter().enumerate() {
        for b in &ColorSpace::ALL[i + 1..] {
            assert_ne!(a.as_str(), b.as_str());
        }
    }
    assert_eq!(ColorSpace::ALL.len(), 14);
    assert_eq!(ColorSpace::DisplayP3.as_str(), "display-p3");
    assert_eq!(ColorSpace::parse("xyz-d50"), Some(ColorSpace::XyzD50));
}

#[test]
fn hex_text_is_lower_case_whatever_was_read() {
    let h = Hex::parse("#ABCDEF").unwrap();
    assert_eq!(h, Hex([0xab, 0xcd, 0xef]));
    assert_eq!(h.to_string(), "#abcdef");
    assert_eq!(Hex::parse(&h.to_string()), Some(h));
    assert_eq!(Hex([0, 0, 0]).to_string(), "#000000");
}

#[test]
fn a_colour_is_built_from_its_coordinates() {
    let c = Color::new(ColorSpace::Oklch, [num(0.5), num(0.1), num(30.0)]);
    assert_eq!(c.color_space, ColorSpace::Oklch);
    assert_eq!(c.components, [Component::Value(num(0.5)), Component::Value(num(0.1)), Component::Value(num(30.0))]);
    assert_eq!(c.hex, None);
    assert_eq!(c.alpha, None);
    assert_eq!(c.with_alpha(num(0.5)).alpha, Some(num(0.5)));
    assert_eq!(c.with_hex(Hex([1, 2, 3])).hex, Some(Hex([1, 2, 3])));
}

#[test]
fn rgb8_components_are_channel_over_255() {
    let c = from_rgb8(255, 0, 51);
    assert_eq!(c.components, [Component::Value(num(1.0)), Component::Value(num(0.0)), Component::Value(num(0.2))]);
    assert_eq!(c.hex, Some(Hex([255, 0, 51])));
    assert_eq!(c.with_alpha(num(0.5)).alpha, Some(num(0.5)));
    assert_eq!(Color::new(ColorSpace::Oklch, [num(0.5), num(0.1), num(30.0)]).hex, None);
}

#[test]
fn numbers_compare_as_binary64_does() {
    assert_ne!(num(f64::NAN), num(f64::NAN));
    assert_eq!(num(0.0), num(-0.0));
    assert_ne!(num(0.5), num(0.25));
    assert_eq!(Component::Value(num(-0.0)), Component::Value(num(0.0)));
    let c = Color::new(ColorSpace::Srgb, [num(f64::NAN), num(0.0), num(0.0)]);
    assert_ne!(c, c);
}
