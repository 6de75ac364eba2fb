//! Units and dimensions.

use pub_design_system_tokens::{Binary64, Dimension, Unit};

#[test]
fn the_two_units_parse_and_print() {
    assert_eq!(Unit::parse("px"), Some(Unit::Px));
    assert_eq!(Unit::parse("rem"), Some(Unit::Rem));
    for bad in ["em", "%", "pt", "PX", ""] {
        assert_eq!(Unit::parse(bad), None, "{bad}");
    }
    assert_eq!(Unit::Rem.to_string(), "rem");
    assert_eq!(Unit::Px.as_str(), "px");
}

#[test]
fn a_dimension_carries_its_amount_and_unit() {
    let d = Dimension::rem(Binary64(0.25f64.to_bits()));
    assert_eq!(d.unit, Unit::Rem);
    assert_eq!(f64::from_bits(d.value.0), 0.25);
    assert_eq!(Dimension::px(Binary64(4.0f64.to_bits())).unit, Unit::Px);
}
