//! A JavaScript/HTML/CSS minifier: it walks the source byte by byte, drops
//! comments and superfluous whitespace, gives declared values short names and
//! counts the characters of the output for a later compression pass.
pub mod characters;
pub mod bitset;
pub mod compression;
pub mod code_analysis;
pub mod analysis_object;
pub mod minify;
pub mod closing;
pub mod quoted;
pub mod declarations;
pub mod compress;
pub mod html;
