//! The design tokens of the suite, as a verified model of the Design Tokens Format Module
//! 2025.10 and its Color Module.
//!
//! A [`TokenSet`] is read from the DTCG JSON interchange ([`TokenSet::from_json_str`]),
//! written back canonically ([`TokenSet::to_json_value`]), built in Rust, and queried by
//! [`Path`]: [`TokenSet::get`] gives a token as written, [`TokenSet::resolve`] follows its
//! aliases to a value. Numbers are held as their binary64 bit patterns ([`Binary64`]).
//!
//! Reading what was written gives the set back: [`round_trip::lemma_read_written`].

use vstd::prelude::*;

pub mod color;
pub mod dimension;
pub mod entries;
pub mod error;
pub mod export;
pub mod json;
pub mod json_data;
pub mod listing;
pub mod model;
pub mod number;
pub mod round_trip;
pub mod suite;
pub mod text;

pub use color::{Color, ColorSpace, Component, Hex};
pub use dimension::{Dimension, Unit};
pub use error::Error;
pub use json_data::{Json, JsonNumber, Object};
pub use model::{is_valid_name, Deprecated, Extensions, Group, Node, NodeRef, Path, Token, TokenSet, TokenType, Value};
pub use number::Binary64;

verus! {

/// The crate's name, as `CATALOG.toml` and crates.io know it.
pub const NAME: &'static str = "pub-design-system-tokens";

/// The crate's version.
pub const VERSION: &'static str = "0.1.0";

} // verus!
