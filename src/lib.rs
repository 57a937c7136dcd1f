//! Loads bitmap-font descriptions, in the positional SFL format or the keyword
//! BMFont text format, into one font model.
//!
//! `scanner` holds the character scanner both grammars read with; `sfl_parser` and
//! `bmfont_parser` hold the two grammars, each stated as a function from text to
//! font model that its `load` is proved to compute; `loader` picks the grammar and
//! sets the page images.

pub mod bmfont_parser;
pub mod font;
pub mod loader;
pub mod scanner;
pub mod sfl_parser;

pub use font::{
    BMCharacter, BMFont, Block, CommonDetails, Field, FontModel, Format, InfoDetails, InfoModel,
    LoadError, Page, PageModel,
};
pub use scanner::{Expect, NumberKind, Parser};
