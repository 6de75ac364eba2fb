//! The suite's palette, roles and scale.

use pub_design_system_tokens::suite::{color, space, tokens_from};
use pub_design_system_tokens::{Binary64, Color, ColorSpace, Component, Dimension, Hex, Path, Value};

fn rgb8(c: [u8; 3]) -> Color {
    let ch = |x: u8| Component::Value(Binary64((x as f64 / 255.0).to_bits()));
    Color { color_space: ColorSpace::Srgb, components: [ch(c[0]), ch(c[1]), ch(c[2])], alpha: None, hex: Some(Hex(c)) }
}

fn scale_value(steps: u32) -> Dimension {
    Dimension::rem(Binary64((steps as f64 * 0.25).to_bits()))
}

fn components() -> Vec<[Binary64; 3]> {
    color::PALETTE.iter().map(|(_, c)| c.map(|x| Binary64((x as f64 / 255.0).to_bits()))).collect()
}

fn rems() -> Vec<Binary64> {
    space::SCALE.iter().map(|(_, n)| Binary64((*n as f64 * 0.25).to_bits())).collect()
}

#[test]
fn every_role_points_at_a_palette_entry() {
    let palette: Vec<&str> = color::PALETTE.iter().map(|(p, _)| *p).collect();
    for (role, target) in color::ROLES {
        assert!(palette.contains(&target), "{role} -> {target}");
    }
}

#[test]
fn the_set_has_the_palette_the_roles_and_the_scale() {
    let set = tokens_from(&components(), &rems()).unwrap();
    assert_eq!(set.tokens().len(), color::PALETTE.len() + color::ROLES.len() + space::SCALE.len());
    for (name, steps) in space::SCALE {
        let path = Path::parse(&format!("space.{name}")).unwrap();
        assert_eq!(set.get(&path).unwrap().value, Value::Dimension(scale_value(steps)));
    }
    for (p, channels) in color::PALETTE {
        let path = Path::parse(&format!("color.{p}")).unwrap();
        assert_eq!(set.get(&path).unwrap().value, Value::Color(rgb8(channels)));
    }
    for (role, target) in color::ROLES {
        let path = Path::parse(&format!("color.{role}")).unwrap();
        let want = Path::parse(&format!("color.{target}")).unwrap();
        assert_eq!(set.get(&path).unwrap().value, Value::Alias(want));
    }
}

#[test]
fn the_suite_groups_carry_their_type_and_description() {
    let set = tokens_from(&components(), &rems()).unwrap();
    let names: Vec<&str> = set.root().children().iter().map(|(n, _)| *n).collect();
    assert_eq!(names, ["color", "space"]);
    let Some(pub_design_system_tokens::Node::Group(c)) = set.root().child("color") else { panic!() };
    assert_eq!(c.ty, Some(pub_design_system_tokens::TokenType::Color));
    assert_eq!(c.description.as_deref(), Some(pub_design_system_tokens::suite::COLOR_DESCRIPTION));
    assert_eq!(color::ACCENT_500, [0x1f, 0x6a, 0xeb]);
    assert_eq!(space::SCALE[4], ("4", 4));
}
