//! The `color` type of the Design Tokens Color Module 2025.10.

use vstd::prelude::*;

use crate::number::Binary64;
use crate::text::{chars_of, str_eq, string_of};

verus! {

/// A colour space of the Color Module: the coordinate system `components` are read in.
///
/// The identifiers are the module's ([`ColorSpace::as_str`]), which are CSS Color 4's.
#[derive(Debug, Clone, Copy, PartialEq, Eq, Hash, PartialOrd, Ord, Structural)]
#[non_exhaustive]
pub enum ColorSpace {
    /// `srgb`: red, green, blue in `[0, 1]`.
    Srgb,
    /// `srgb-linear`: red, green, blue in `[0, 1]`, linear light.
    SrgbLinear,
    /// `hsl`: hue in `[0, 360)`, saturation and lightness in `[0, 100]`.
    Hsl,
    /// `hwb`: hue in `[0, 360)`, whiteness and blackness in `[0, 100]`.
    Hwb,
    /// `lab`: CIE lightness in `[0, 100]`, `a` and `b` unbounded.
    Lab,
    /// `lch`: CIE lightness in `[0, 100]`, chroma `>= 0`, hue in `[0, 360)`.
    Lch,
    /// `oklab`: lightness in `[0, 1]`, `a` and `b` unbounded.
    Oklab,
    /// `oklch`: lightness in `[0, 1]`, chroma `>= 0`, hue in `[0, 360)`.
    Oklch,
    /// `display-p3`: red, green, blue in `[0, 1]`.
    DisplayP3,
    /// `a98-rgb`: red, green, blue in `[0, 1]`.
    A98Rgb,
    /// `prophoto-rgb`: red, green, blue in `[0, 1]`.
    ProphotoRgb,
    /// `rec2020`: red, green, blue in `[0, 1]`.
    Rec2020,
    /// `xyz-d65`: X, Y, Z in `[0, 1]`.
    XyzD65,
    /// `xyz-d50`: X, Y, Z in `[0, 1]`.
    XyzD50,
}

impl ColorSpace {
    /// Every colour space the module defines, in the module's order.
    pub const ALL: [ColorSpace; 14] = [
        ColorSpace::Srgb,
        ColorSpace::SrgbLinear,
        ColorSpace::Hsl,
        ColorSpace::Hwb,
        ColorSpace::Lab,
        ColorSpace::Lch,
        ColorSpace::Oklab,
        ColorSpace::Oklch,
        ColorSpace::DisplayP3,
        ColorSpace::A98Rgb,
        ColorSpace::ProphotoRgb,
        ColorSpace::Rec2020,
        ColorSpace::XyzD65,
        ColorSpace::XyzD50,
    ];

    /// The identifier the JSON carries in `colorSpace`.
    pub open spec fn spec_id(self) -> Seq<char> {
        match self {
            ColorSpace::Srgb => "srgb"@,
            ColorSpace::SrgbLinear => "srgb-linear"@,
            ColorSpace::Hsl => "hsl"@,
            ColorSpace::Hwb => "hwb"@,
            ColorSpace::Lab => "lab"@,
            ColorSpace::Lch => "lch"@,
            ColorSpace::Oklab => "oklab"@,
            ColorSpace::Oklch => "oklch"@,
            ColorSpace::DisplayP3 => "display-p3"@,
            ColorSpace::A98Rgb => "a98-rgb"@,
            ColorSpace::ProphotoRgb => "prophoto-rgb"@,
            ColorSpace::Rec2020 => "rec2020"@,
            ColorSpace::XyzD65 => "xyz-d65"@,
            ColorSpace::XyzD50 => "xyz-d50"@,
        }
    }

    /// The colour space whose identifier is `s`, if any.
    pub open spec fn spec_parse(s: Seq<char>) -> Option<ColorSpace> {
        if s == "srgb"@ {
            Some(ColorSpace::Srgb)
        } else if s == "srgb-linear"@ {
            Some(ColorSpace::SrgbLinear)
        } else if s == "hsl"@ {
            Some(ColorSpace::Hsl)
        } else if s == "hwb"@ {
            Some(ColorSpace::Hwb)
        } else if s == "lab"@ {
            Some(ColorSpace::Lab)
        } else if s == "lch"@ {
            Some(ColorSpace::Lch)
        } else if s == "oklab"@ {
            Some(ColorSpace::Oklab)
        } else if s == "oklch"@ {
            Some(ColorSpace::Oklch)
        } else if s == "display-p3"@ {
            Some(ColorSpace::DisplayP3)
        } else if s == "a98-rgb"@ {
            Some(ColorSpace::A98Rgb)
        } else if s == "prophoto-rgb"@ {
            Some(ColorSpace::ProphotoRgb)
        } else if s == "rec2020"@ {
            Some(ColorSpace::Rec2020)
        } else if s == "xyz-d65"@ {
            Some(ColorSpace::XyzD65)
        } else if s == "xyz-d50"@ {
            Some(ColorSpace::XyzD50)
        } else {
            None
        }
    }

    /// The identifier the JSON carries in `colorSpace`.
    pub fn as_str(self) -> (r: &'static str)
        ensures
            r@ == self.spec_id(),
    {
        match self {
            ColorSpace::Srgb => "srgb",
            ColorSpace::SrgbLinear => "srgb-linear",
            ColorSpace::Hsl => "hsl",
            ColorSpace::Hwb => "hwb",
            ColorSpace::Lab => "lab",
            ColorSpace::Lch => "lch",
            ColorSpace::Oklab => "oklab",
            ColorSpace::Oklch => "oklch",
            ColorSpace::DisplayP3 => "display-p3",
            ColorSpace::A98Rgb => "a98-rgb",
            ColorSpace::ProphotoRgb => "prophoto-rgb",
            ColorSpace::Rec2020 => "rec2020",
            ColorSpace::XyzD65 => "xyz-d65",
            ColorSpace::XyzD50 => "xyz-d50",
        }
    }

    /// The colour space for a `colorSpace` identifier, `None` for anything else.
    pub fn parse(s: &str) -> (r: Option<Self>)
        ensures
            r == Self::spec_parse(s@),
    {
        if str_eq(s, "srgb") {
            Some(ColorSpace::Srgb)
        } else if str_eq(s, "srgb-linear") {
            Some(ColorSpace::SrgbLinear)
        } else if str_eq(s, "hsl") {
            Some(ColorSpace::Hsl)
        } else if str_eq(s, "hwb") {
            Some(ColorSpace::Hwb)
        } else if str_eq(s, "lab") {
            Some(ColorSpace::Lab)
        } else if str_eq(s, "lch") {
            Some(ColorSpace::Lch)
        } else if str_eq(s, "oklab") {
            Some(ColorSpace::Oklab)
        } else if str_eq(s, "oklch") {
            Some(ColorSpace::Oklch)
        } else if str_eq(s, "display-p3") {
            Some(ColorSpace::DisplayP3)
        } else if str_eq(s, "a98-rgb") {
            Some(ColorSpace::A98Rgb)
        } else if str_eq(s, "prophoto-rgb") {
            Some(ColorSpace::ProphotoRgb)
        } else if str_eq(s, "rec2020") {
            Some(ColorSpace::Rec2020)
        } else if str_eq(s, "xyz-d65") {
            Some(ColorSpace::XyzD65)
        } else if str_eq(s, "xyz-d50") {
            Some(ColorSpace::XyzD50)
        } else {
            None
        }
    }

    /// The identifier, as text (what `Display` prints).
    pub fn to_string(self) -> (r: String)
        ensures
            r@ == self.spec_id(),
    {
        let cs = chars_of(self.as_str());
        string_of(cs.as_slice())
    }
}


/// One coordinate of a colour: a number, or the module's `none` keyword for a component
/// that is not applicable or not specified (a hue at zero chroma, say).
#[derive(Debug, Clone, Copy, PartialEq)]
pub enum Component {
    /// A coordinate in the colour space's range.
    Value(Binary64),
    /// The `none` keyword.
    Absent,
}

/// The value of a hexadecimal digit, either case.
pub open spec fn hex_digit(c: char) -> Option<u8> {
    if '0' <= c && c <= '9' {
        Some((c as int - '0' as int) as u8)
    } else if 'a' <= c && c <= 'f' {
        Some((c as int - 'a' as int + 10) as u8)
    } else if 'A' <= c && c <= 'F' {
        Some((c as int - 'A' as int + 10) as u8)
    } else {
        None
    }
}

/// The byte written by the two hexadecimal digits `hi` and `lo`.
pub open spec fn hex_byte(hi: char, lo: char) -> u8 {
    (hex_digit(hi)->0 * 16 + hex_digit(lo)->0) as u8
}

/// What `#rrggbb` reads as: the three bytes, when `s` is `#` followed by exactly six
/// hexadecimal digits of either case, and nothing otherwise.
pub open spec fn spec_parse_hex(s: Seq<char>) -> Option<Seq<u8>> {
    if s.len() == 7 && s[0] == '#' && (forall|i: int| 1 <= i < 7 ==> hex_digit(#[trigger] s[i]) is Some) {
        Some(seq![hex_byte(s[1], s[2]), hex_byte(s[3], s[4]), hex_byte(s[5], s[6])])
    } else {
        None
    }
}

/// The lower-case hexadecimal digit for `n < 16`.
pub open spec fn lower_hex_digit(n: u8) -> char {
    if n < 10 {
        (n + 48) as char
    } else {
        (n + 87) as char
    }
}

/// `#rrggbb` in lower case for the three bytes `b`.
pub open spec fn hex_text(b: Seq<u8>) -> Seq<char> {
    seq![
        '#',
        lower_hex_digit(b[0] / 16),
        lower_hex_digit(b[0] % 16),
        lower_hex_digit(b[1] / 16),
        lower_hex_digit(b[1] % 16),
        lower_hex_digit(b[2] / 16),
        lower_hex_digit(b[2] % 16),
    ]
}

/// The value of the hexadecimal digit `c`, if it is one.
fn hex_digit_value(c: char) -> (r: Option<u8>)
    ensures
        r == hex_digit(c),
{
    if '0' <= c && c <= '9' {
        Some((c as u32 - '0' as u32) as u8)
    } else if 'a' <= c && c <= 'f' {
        Some((c as u32 - 'a' as u32 + 10) as u8)
    } else if 'A' <= c && c <= 'F' {
        Some((c as u32 - 'A' as u32 + 10) as u8)
    } else {
        None
    }
}

/// The lower-case hexadecimal digit for `n < 16`.
fn lower_hex_char(n: u8) -> (r: char)
    requires
        n < 16,
    ensures
        r == lower_hex_digit(n),
{
    if n < 10 {
        (n + 48) as char
    } else {
        (n + 87) as char
    }
}

/// A six-digit CSS hex colour, the module's sRGB fallback (`#rrggbb`).
///
/// It is stored as three bytes and always written in lower case, so `#FF0000` reads back
/// as `#ff0000`: equal as a colour, normalized as text.
#[derive(Debug, Clone, Copy, PartialEq, Eq, Hash, PartialOrd, Ord)]
pub struct Hex(pub [u8; 3]);

impl Hex {
    /// Reads `#rrggbb` in either case; anything else (three digits, no `#`, a non-hex
    /// digit, an alpha byte) is `None`.
    pub fn parse(s: &str) -> (r: Option<Self>)
        ensures
            match r {
                Some(h) => spec_parse_hex(s@) == Some(h.0@),
                None => spec_parse_hex(s@) is None,
            },
    {
        let cs = chars_of(s);
        if cs.len() != 7 || cs[0] != '#' {
            return None;
        }
        let mut digits: Vec<u8> = Vec::new();
        let mut i: usize = 1;
        while i < 7
            invariant
                cs@ == s@,
                cs.len() == 7,
                1 <= i <= 7,
                digits.len() == i - 1,
                forall|j: int| 1 <= j < i ==> hex_digit(#[trigger] cs@[j]) == Some(digits@[j - 1]),
            decreases 7 - i,
        {
            match hex_digit_value(cs[i]) {
                Some(d) => digits.push(d),
                None => {
                    return None;
                },
            }
            i = i + 1;
        }
        let b0 = digits[0] * 16 + digits[1];
        let b1 = digits[2] * 16 + digits[3];
        let b2 = digits[4] * 16 + digits[5];
        let h = Hex([b0, b1, b2]);
        assert(h.0@ =~= seq![hex_byte(s@[1], s@[2]), hex_byte(s@[3], s@[4]), hex_byte(s@[5], s@[6])]);
        Some(h)
    }

    /// `#rrggbb` in lower case (what `Display` prints).
    pub fn to_string(&self) -> (r: String)
        ensures
            r@ == hex_text(self.0@),
    {
        let mut cs: Vec<char> = Vec::new();
        cs.push('#');
        let mut i: usize = 0;
        while i < 3
            invariant
                0 <= i <= 3,
                cs@.len() == 1 + 2 * i,
                cs@ =~= hex_text(self.0@).take(1 + 2 * i),
            decreases 3 - i,
        {
            let b = self.0[i];
            cs.push(lower_hex_char(b / 16));
            cs.push(lower_hex_char(b % 16));
            i = i + 1;
        }
        string_of(cs.as_slice())
    }
}

/// Reading a hex colour's text gives its three bytes back.
pub proof fn lemma_hex_round_trip(b: Seq<u8>)
    requires
        b.len() == 3,
    ensures
        spec_parse_hex(hex_text(b)) == Some(b),
{
    let t = hex_text(b);
    assert forall|n: u8| n < 16 implies hex_digit(#[trigger] lower_hex_digit(n)) == Some(n) by {
        if n < 10 {
            assert(lower_hex_digit(n) == (n + 48) as char);
        } else {
            assert(lower_hex_digit(n) == (n + 87) as char);
        }
    }
    assert forall|x: u8| #[trigger] hex_byte(lower_hex_digit(x / 16), lower_hex_digit(x % 16)) == x by {
        assert(x / 16 < 16);
        assert(x % 16 < 16);
        assert(hex_digit(lower_hex_digit(x / 16)) == Some(x / 16));
        assert(hex_digit(lower_hex_digit(x % 16)) == Some(x % 16));
    }
    assert forall|i: int| 1 <= i < 7 implies hex_digit(#[trigger] t[i]) is Some by {
        assert(b[0] / 16 < 16 && b[0] % 16 < 16 && b[1] / 16 < 16 && b[1] % 16 < 16);
        assert(b[2] / 16 < 16 && b[2] % 16 < 16);
    }
    assert(hex_byte(t[1], t[2]) == b[0]);
    assert(hex_byte(t[3], t[4]) == b[1]);
    assert(hex_byte(t[5], t[6]) == b[2]);
    assert(seq![hex_byte(t[1], t[2]), hex_byte(t[3], t[4]), hex_byte(t[5], t[6])] =~= b);
}

/// A hex colour is written in lower case: `#` and six digits `0`–`9` or `a`–`f`.
pub proof fn lemma_hex_text_lower_case(b: Seq<u8>)
    requires
        b.len() == 3,
    ensures
        hex_text(b).len() == 7,
        hex_text(b)[0] == '#',
        forall|i: int| 1 <= i < 7 ==> {
            let c = #[trigger] hex_text(b)[i];
            ('0' <= c && c <= '9') || ('a' <= c && c <= 'f')
        },
{
    assert forall|n: u8| n < 16 implies {
        let c = #[trigger] lower_hex_digit(n);
        ('0' <= c && c <= '9') || ('a' <= c && c <= 'f')
    } by {
        if n < 10 {
            assert(lower_hex_digit(n) == (n + 48) as char);
        } else {
            assert(lower_hex_digit(n) == (n + 87) as char);
        }
    }
    assert(b[0] / 16 < 16 && b[0] % 16 < 16 && b[1] / 16 < 16 && b[1] % 16 < 16);
    assert(b[2] / 16 < 16 && b[2] % 16 < 16);
}

/// A colour: the `color` type of the Color Module.
///
/// `alpha` is `None` when the JSON omits it, which the module reads as fully opaque; it is
/// kept as written so that a file round-trips unchanged. `hex` is the optional sRGB
/// fallback; nothing checks that it agrees with `components` (the module does not ask for
/// it).
#[derive(Debug, Clone, Copy, PartialEq)]
pub struct Color {
    /// The coordinate system of `components`.
    pub color_space: ColorSpace,
    /// The three coordinates, in the colour space's order.
    pub components: [Component; 3],
    /// Opacity in `[0, 1]`; `None` when not written (the module's default is `1`).
    pub alpha: Option<Binary64>,
    /// The six-digit sRGB fallback, when written.
    pub hex: Option<Hex>,
}

/// A [`Color`] in specifications: the components as a sequence, the hex fallback as its
/// bytes.
pub struct ColorV {
    pub color_space: ColorSpace,
    pub components: Seq<Component>,
    pub alpha: Option<Binary64>,
    pub hex: Option<Seq<u8>>,
}

impl View for Color {
    type V = ColorV;

    open spec fn view(&self) -> ColorV {
        ColorV {
            color_space: self.color_space,
            components: self.components@,
            alpha: self.alpha,
            hex: match self.hex {
                Some(h) => Some(h.0@),
                None => None,
            },
        }
    }
}

impl Color {
    /// A colour in `color_space` from its three coordinates, opaque, without a fallback.
    pub fn new(color_space: ColorSpace, components: [Binary64; 3]) -> (r: Self)
        ensures
            r.color_space == color_space,
            r.components@ == seq![
                Component::Value(components@[0]),
                Component::Value(components@[1]),
                Component::Value(components@[2]),
            ],
            r.alpha is None,
            r.hex is None,
    {
        let r = Color {
            color_space,
            components: [
                Component::Value(components[0]),
                Component::Value(components[1]),
                Component::Value(components[2]),
            ],
            alpha: None,
            hex: None,
        };
        assert(r.components@ =~= seq![
            Component::Value(components@[0]),
            Component::Value(components@[1]),
            Component::Value(components@[2]),
        ]);
        r
    }

    /// The same colour with an explicit opacity (meant to be in `[0, 1]`).
    pub fn with_alpha(self, alpha: Binary64) -> (r: Self)
        ensures
            r == (Color { alpha: Some(alpha), ..self }),
    {
        Color { alpha: Some(alpha), ..self }
    }

    /// The same colour with a `hex` fallback.
    pub fn with_hex(self, hex: Hex) -> (r: Self)
        ensures
            r == (Color { hex: Some(hex), ..self }),
    {
        Color { hex: Some(hex), ..self }
    }
}

/// Reading a colour space's identifier gives the colour space back.
pub proof fn lemma_color_space_round_trip(c: ColorSpace)
    ensures
        ColorSpace::spec_parse(c.spec_id()) == Some(c),
{
    reveal_strlit("srgb");
    reveal_strlit("srgb-linear");
    reveal_strlit("hsl");
    reveal_strlit("hwb");
    reveal_strlit("lab");
    reveal_strlit("lch");
    reveal_strlit("oklab");
    reveal_strlit("oklch");
    reveal_strlit("display-p3");
    reveal_strlit("a98-rgb");
    reveal_strlit("prophoto-rgb");
    reveal_strlit("rec2020");
    reveal_strlit("xyz-d65");
    reveal_strlit("xyz-d50");
    match c {
        ColorSpace::Srgb => {
        },
        ColorSpace::SrgbLinear => {
            assert("srgb-linear"@.len() != "srgb"@.len());
        },
        ColorSpace::Hsl => {
            assert("hsl"@.len() != "srgb"@.len());
            assert("hsl"@.len() != "srgb-linear"@.len());
        },
        ColorSpace::Hwb => {
            assert("hwb"@.len() != "srgb"@.len());
            assert("hwb"@.len() != "srgb-linear"@.len());
            assert("hwb"@[1] != "hsl"@[1]);
        },
        ColorSpace::Lab => {
            assert("lab"@.len() != "srgb"@.len());
            assert("lab"@.len() != "srgb-linear"@.len());
            assert("lab"@[0] != "hsl"@[0]);
            assert("lab"@[0] != "hwb"@[0]);
        },
        ColorSpace::Lch => {
            assert("lch"@.len() != "srgb"@.len());
            assert("lch"@.len() != "srgb-linear"@.len());
            assert("lch"@[0] != "hsl"@[0]);
            assert("lch"@[0] != "hwb"@[0]);
            assert("lch"@[1] != "lab"@[1]);
        },
        ColorSpace::Oklab => {
            assert("oklab"@.len() != "srgb"@.len());
            assert("oklab"@.len() != "srgb-linear"@.len());
            assert("oklab"@.len() != "hsl"@.len());
            assert("oklab"@.len() != "hwb"@.len());
            assert("oklab"@.len() != "lab"@.len());
            assert("oklab"@.len() != "lch"@.len());
        },
        ColorSpace::Oklch => {
            assert("oklch"@.len() != "srgb"@.len());
            assert("oklch"@.len() != "srgb-linear"@.len());
            assert("oklch"@.len() != "hsl"@.len());
            assert("oklch"@.len() != "hwb"@.len());
            assert("oklch"@.len() != "lab"@.len());
            assert("oklch"@.len() != "lch"@.len());
            assert("oklch"@[3] != "oklab"@[3]);
        },
        ColorSpace::DisplayP3 => {
            assert("display-p3"@.len() != "srgb"@.len());
            assert("display-p3"@.len() != "srgb-linear"@.len());
            assert("display-p3"@.len() != "hsl"@.len());
            assert("display-p3"@.len() != "hwb"@.len());
            assert("display-p3"@.len() != "lab"@.len());
            assert("display-p3"@.len() != "lch"@.len());
            assert("display-p3"@.len() != "oklab"@.len());
            assert("display-p3"@.len() != "oklch"@.len());
        },
        ColorSpace::A98Rgb => {
            assert("a98-rgb"@.len() != "srgb"@.len());
            assert("a98-rgb"@.len() != "srgb-linear"@.len());
            assert("a98-rgb"@.len() != "hsl"@.len());
            assert("a98-rgb"@.len() != "hwb"@.len());
            assert("a98-rgb"@.len() != "lab"@.len());
            assert("a98-rgb"@.len() != "lch"@.len());
            assert("a98-rgb"@.len() != "oklab"@.len());
            assert("a98-rgb"@.len() != "oklch"@.len());
            assert("a98-rgb"@.len() != "display-p3"@.len());
        },
        ColorSpace::ProphotoRgb => {
            assert("prophoto-rgb"@.len() != "srgb"@.len());
            assert("prophoto-rgb"@.len() != "srgb-linear"@.len());
            assert("prophoto-rgb"@.len() != "hsl"@.len());
            assert("prophoto-rgb"@.len() != "hwb"@.len());
            assert("prophoto-rgb"@.len() != "lab"@.len());
            assert("prophoto-rgb"@.len() != "lch"@.len());
            assert("prophoto-rgb"@.len() != "oklab"@.len());
            assert("prophoto-rgb"@.len() != "oklch"@.len());
            assert("prophoto-rgb"@.len() != "display-p3"@.len());
            assert("prophoto-rgb"@.len() != "a98-rgb"@.len());
        },
        ColorSpace::Rec2020 => {
            assert("rec2020"@.len() != "srgb"@.len());
            assert("rec2020"@.len() != "srgb-linear"@.len());
            assert("rec2020"@.len() != "hsl"@.len());
            assert("rec2020"@.len() != "hwb"@.len());
            assert("rec2020"@.len() != "lab"@.len());
            assert("rec2020"@.len() != "lch"@.len());
            assert("rec2020"@.len() != "oklab"@.len());
            assert("rec2020"@.len() != "oklch"@.len());
            assert("rec2020"@.len() != "display-p3"@.len());
            assert("rec2020"@[0] != "a98-rgb"@[0]);
            assert("rec2020"@.len() != "prophoto-rgb"@.len());
        },
        ColorSpace::XyzD65 => {
            assert("xyz-d65"@.len() != "srgb"@.len());
            assert("xyz-d65"@.len() != "srgb-linear"@.len());
            assert("xyz-d65"@.len() != "hsl"@.len());
            assert("xyz-d65"@.len() != "hwb"@.len());
            assert("xyz-d65"@.len() != "lab"@.len());
            assert("xyz-d65"@.len() != "lch"@.len());
            assert("xyz-d65"@.len() != "oklab"@.len());
            assert("xyz-d65"@.len() != "oklch"@.len());
            assert("xyz-d65"@.len() != "display-p3"@.len());
            assert("xyz-d65"@[0] != "a98-rgb"@[0]);
            assert("xyz-d65"@.len() != "prophoto-rgb"@.len());
            assert("xyz-d65"@[0] != "rec2020"@[0]);
        },
        ColorSpace::XyzD50 => {
            assert("xyz-d50"@.len() != "srgb"@.len());
            assert("xyz-d50"@.len() != "srgb-linear"@.len());
            assert("xyz-d50"@.len() != "hsl"@.len());
            assert("xyz-d50"@.len() != "hwb"@.len());
            assert("xyz-d50"@.len() != "lab"@.len());
            assert("xyz-d50"@.len() != "lch"@.len());
            assert("xyz-d50"@.len() != "oklab"@.len());
            assert("xyz-d50"@.len() != "oklch"@.len());
            assert("xyz-d50"@.len() != "display-p3"@.len());
            assert("xyz-d50"@[0] != "a98-rgb"@[0]);
            assert("xyz-d50"@.len() != "prophoto-rgb"@.len());
            assert("xyz-d50"@[0] != "rec2020"@[0]);
            assert("xyz-d50"@[5] != "xyz-d65"@[5]);
        },
    }
}

/// No two colour spaces share an identifier.
pub proof fn lemma_color_space_ids_distinct(a: ColorSpace, b: ColorSpace)
    requires
        a.spec_id() == b.spec_id(),
    ensures
        a == b,
{
    lemma_color_space_round_trip(a);
    lemma_color_space_round_trip(b);
}

/// Every colour space is listed in [`ColorSpace::ALL`].
pub proof fn lemma_color_space_in_all(c: ColorSpace)
    ensures
        exists|j: int| 0 <= j < 14 && ColorSpace::ALL@[j] == c,
{
    match c {
        ColorSpace::Srgb => assert(ColorSpace::ALL@[0] == c),
        ColorSpace::SrgbLinear => assert(ColorSpace::ALL@[1] == c),
        ColorSpace::Hsl => assert(ColorSpace::ALL@[2] == c),
        ColorSpace::Hwb => assert(ColorSpace::ALL@[3] == c),
        ColorSpace::Lab => assert(ColorSpace::ALL@[4] == c),
        ColorSpace::Lch => assert(ColorSpace::ALL@[5] == c),
        ColorSpace::Oklab => assert(ColorSpace::ALL@[6] == c),
        ColorSpace::Oklch => assert(ColorSpace::ALL@[7] == c),
        ColorSpace::DisplayP3 => assert(ColorSpace::ALL@[8] == c),
        ColorSpace::A98Rgb => assert(ColorSpace::ALL@[9] == c),
        ColorSpace::ProphotoRgb => assert(ColorSpace::ALL@[10] == c),
        ColorSpace::Rec2020 => assert(ColorSpace::ALL@[11] == c),
        ColorSpace::XyzD65 => assert(ColorSpace::ALL@[12] == c),
        ColorSpace::XyzD50 => assert(ColorSpace::ALL@[13] == c),
    }
}

} // verus!
