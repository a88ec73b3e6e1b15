//! Byte values of the ASCII characters that the analysis looks for.
use vstd::prelude::*;

verus! {

pub const NEWLINE: u8 = 10;
pub const SPACE: u8 = 32;
pub const DOUBLE_QUOTE: u8 = 34;
pub const DOLLAR_SIGN: u8 = 36;
pub const APOSTROPHE: u8 = 39;
pub const LEFT_PARENTHESIS: u8 = 40;
pub const RIGHT_PARENTHESIS: u8 = 41;
pub const ASTERIS: u8 = 42;
pub const COMMA: u8 = 44;
pub const SLASH: u8 = 47;
pub const SEMICOLON: u8 = 59;
pub const EQUAL: u8 = 61;
pub const MORE_THAN: u8 = 62;
pub const LEFT_SQAURE_BRACKET: u8 = 91;
pub const RIGHT_SQAURE_BRACKET: u8 = 93;
pub const GRAVE_ACCENT: u8 = 96;
pub const LEFT_CURLY: u8 = 123;
pub const RIGHT_CURLY: u8 = 125;

} // verus!
