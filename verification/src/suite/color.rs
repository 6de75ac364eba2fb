//! The palette and the roles.
//!
//! The palette is sRGB, each colour given by its 8-bit channels `[r, g, b]`: its
//! components are `channel / 255` and its `hex` fallback the same three bytes, so the two
//! agree. The roles are aliases into the palette; a theme changes the roles, not the
//! palette.

use vstd::prelude::*;

verus! {

/// `color.neutral.0`: white.
pub const NEUTRAL_0: [u8; 3] = [0xff, 0xff, 0xff];

/// `color.neutral.50`.
pub const NEUTRAL_50: [u8; 3] = [0xf7, 0xf8, 0xfa];

/// `color.neutral.100`.
pub const NEUTRAL_100: [u8; 3] = [0xec, 0xee, 0xf2];

/// `color.neutral.200`.
pub const NEUTRAL_200: [u8; 3] = [0xd9, 0xdd, 0xe4];

/// `color.neutral.300`.
pub const NEUTRAL_300: [u8; 3] = [0xb9, 0xc0, 0xcc];

/// `color.neutral.400`.
pub const NEUTRAL_400: [u8; 3] = [0x8d, 0x97, 0xa8];

/// `color.neutral.500`.
pub const NEUTRAL_500: [u8; 3] = [0x6b, 0x75, 0x88];

/// `color.neutral.600`.
pub const NEUTRAL_600: [u8; 3] = [0x52, 0x5b, 0x6c];

/// `color.neutral.700`.
pub const NEUTRAL_700: [u8; 3] = [0x3d, 0x44, 0x52];

/// `color.neutral.800`.
pub const NEUTRAL_800: [u8; 3] = [0x2a, 0x2f, 0x3a];

/// `color.neutral.900`.
pub const NEUTRAL_900: [u8; 3] = [0x1a, 0x1d, 0x25];

/// `color.neutral.1000`: the darkest neutral, not pure black.
pub const NEUTRAL_1000: [u8; 3] = [0x0d, 0x0f, 0x14];

/// `color.accent.100`.
pub const ACCENT_100: [u8; 3] = [0xdb, 0xe9, 0xff];

/// `color.accent.200`.
pub const ACCENT_200: [u8; 3] = [0xb3, 0xd1, 0xff];

/// `color.accent.300`.
pub const ACCENT_300: [u8; 3] = [0x7f, 0xb0, 0xff];

/// `color.accent.400`.
pub const ACCENT_400: [u8; 3] = [0x4a, 0x8d, 0xff];

/// `color.accent.500`: the accent itself.
pub const ACCENT_500: [u8; 3] = [0x1f, 0x6a, 0xeb];

/// `color.accent.600`.
pub const ACCENT_600: [u8; 3] = [0x15, 0x54, 0xc2];

/// `color.accent.700`.
pub const ACCENT_700: [u8; 3] = [0x0f, 0x40, 0x99];

/// `color.accent.800`.
pub const ACCENT_800: [u8; 3] = [0x0b, 0x2f, 0x70];

/// `color.accent.900`.
pub const ACCENT_900: [u8; 3] = [0x07, 0x1f, 0x4a];

/// `color.success.100`.
pub const SUCCESS_100: [u8; 3] = [0xdc, 0xf5, 0xe6];

/// `color.success.500`.
pub const SUCCESS_500: [u8; 3] = [0x1a, 0x8f, 0x4e];

/// `color.success.700`.
pub const SUCCESS_700: [u8; 3] = [0x11, 0x63, 0x36];

/// `color.warning.100`.
pub const WARNING_100: [u8; 3] = [0xfd, 0xf0, 0xd5];

/// `color.warning.500`.
pub const WARNING_500: [u8; 3] = [0xc7, 0x7b, 0x00];

/// `color.warning.700`.
pub const WARNING_700: [u8; 3] = [0x8a, 0x55, 0x00];

/// `color.danger.100`.
pub const DANGER_100: [u8; 3] = [0xfd, 0xe2, 0xe2];

/// `color.danger.500`.
pub const DANGER_500: [u8; 3] = [0xd1, 0x34, 0x38];

/// `color.danger.700`.
pub const DANGER_700: [u8; 3] = [0x94, 0x22, 0x25];

/// Every palette colour with its path below `color`, by its channels.
pub const PALETTE: [(&'static str, [u8; 3]); 30] = [
    ("neutral.0", NEUTRAL_0),
    ("neutral.50", NEUTRAL_50),
    ("neutral.100", NEUTRAL_100),
    ("neutral.200", NEUTRAL_200),
    ("neutral.300", NEUTRAL_300),
    ("neutral.400", NEUTRAL_400),
    ("neutral.500", NEUTRAL_500),
    ("neutral.600", NEUTRAL_600),
    ("neutral.700", NEUTRAL_700),
    ("neutral.800", NEUTRAL_800),
    ("neutral.900", NEUTRAL_900),
    ("neutral.1000", NEUTRAL_1000),
    ("accent.100", ACCENT_100),
    ("accent.200", ACCENT_200),
    ("accent.300", ACCENT_300),
    ("accent.400", ACCENT_400),
    ("accent.500", ACCENT_500),
    ("accent.600", ACCENT_600),
    ("accent.700", ACCENT_700),
    ("accent.800", ACCENT_800),
    ("accent.900", ACCENT_900),
    ("success.100", SUCCESS_100),
    ("success.500", SUCCESS_500),
    ("success.700", SUCCESS_700),
    ("warning.100", WARNING_100),
    ("warning.500", WARNING_500),
    ("warning.700", WARNING_700),
    ("danger.100", DANGER_100),
    ("danger.500", DANGER_500),
    ("danger.700", DANGER_700),
];

/// The roles: each `color.<role>` token and the palette token it aliases, both as paths
/// below `color`.
pub const ROLES: [(&'static str, &'static str); 11] = [
    ("text.primary", "neutral.900"),
    ("text.secondary", "neutral.600"),
    ("text.inverse", "neutral.0"),
    ("surface.default", "neutral.0"),
    ("surface.raised", "neutral.50"),
    ("surface.sunken", "neutral.100"),
    ("border.default", "neutral.200"),
    ("border.strong", "neutral.400"),
    ("action.primary", "accent.500"),
    ("action.primary-hover", "accent.600"),
    ("action.primary-active", "accent.700"),
];

} // verus!
