use vstd::prelude::*;
use crate::syntax::{AstNode, Node};

verus! {

/// What a backend produces: assembly text, or a linked executable.
#[derive(Clone, Copy, Debug, PartialEq, Eq)]
pub enum Format {
    Asm,
    Elf,
}

/// The work that turns generated assembly text into the requested output.
/// Commands hold the program name first, then its arguments.
#[derive(Debug)]
pub enum Plan {
    /// Write `text` to `path`.
    WriteText { path: String, text: Vec<u8> },
    /// Feed `text` to the assembler's standard input, then run the linker;
    /// each must exit successfully.
    AssembleAndLink { text: Vec<u8>, assembler: Vec<String>, linker: Vec<String> },
}

/// The texts of a list of strings.
pub open spec fn texts(v: Seq<String>) -> Seq<Seq<char>> {
    v.map_values(|s: String| s@)
}

/// The plan for output `format` at `out`, for assembly text `code`, with the
/// assembler's word-size flag `word` and the linker's emulation `emulation`.
/// The object file is the output path with `.o` added.
pub open spec fn plan_is(
    r: Plan,
    format: Format,
    out: Seq<char>,
    code: Seq<u8>,
    word: Seq<char>,
    emulation: Seq<char>,
) -> bool {
    let object = out + ".o"@;
    match format {
        Format::Asm => r matches Plan::WriteText { path, text } && path@ == out && text@ == code,
        Format::Elf => r matches Plan::AssembleAndLink { text, assembler, linker } && text@ == code
            && texts(assembler@) == seq!["as"@, "-o"@, object, word]
            && texts(linker@) == seq!["ld"@, object, "-o"@, out, "-m"@, emulation],
    }
}

/// A code generator for one architecture.
pub trait Arch {
    /// The assembly text for a tree.
    spec fn asm_text(&self, ast: Seq<Node<AstNode>>) -> Seq<u8>;

    /// The assembler's flag for the word size.
    spec fn word_flag(&self) -> Seq<char>;

    /// The linker's emulation.
    spec fn emulation(&self) -> Seq<char>;

    /// What to do to turn `ast` into output `format` at path `out`.
    fn generate(&self, ast: Vec<Node<AstNode>>, format: Format, out: String) -> (r: Plan)
        ensures
            plan_is(r, format, out@, self.asm_text(ast@), self.word_flag(), self.emulation()),
    ;
}

} // verus!
