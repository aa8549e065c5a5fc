//! Inspection of text for a scripting host.
//!
//! - [`validate`] decides whether raw bytes are well-formed UTF-8 and says
//!   where and how they are not.
//! - [`segment`] splits a text into characters, grapheme clusters or
//!   codepoints.
//! - [`convert`] turns one character into its codepoint and back.
//! - [`width`] computes the width of a text on a terminal, where escape
//!   sequences take no room.
//!
//! Every operation is a pure function of its arguments, and nothing is shared
//! between calls.

pub mod convert;
pub mod decimal;
pub mod segment;
pub mod std_specs;
pub mod validate;
pub mod width;

pub use convert::{char_to_codepoint, codepoint_to_char, TextError};
pub use segment::{get_chars, get_codepoints, get_graphemes};
pub use validate::{check_is_valid, find_malformation, Malformation};
pub use width::{calculate_display_width, try_calculate_display_width};
