//! A compiler from the eight-instruction tape language to x86 assembly text.

pub mod bstream;
pub mod gen;
pub mod hlist;
pub mod parse;
pub mod syntax;
pub mod x86;

pub use bstream::ByteStream;
pub use gen::{Arch, Format, Plan};
pub use hlist::HeadedList;
pub use parse::{parse, ParseError};
pub use syntax::{AstNode, Location, Node};
pub use x86::X86Mode;
