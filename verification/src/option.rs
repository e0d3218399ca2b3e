//! How a run is configured, and what kind of input a path names.

use vstd::prelude::*;
use vstd::string::*;

verus! {

/// The options of a run.
#[derive(Debug, Clone, Copy)]
pub struct AstXmlOption<'a> {
    /// Further flags, handed to the parser as they are.
    pub arguments: &'a [String],
    /// Leave the bodies of functions and methods unparsed. The parser sees
    /// to it; the serialiser writes whatever tree it is given.
    pub skip_function_bodies: bool,
    /// Write no element for a node outside the primary input file.
    pub skip_non_main_file: bool,
}

impl<'a> Default for AstXmlOption<'a> {
    fn default() -> (option: Self)
        ensures
            option.arguments@.len() == 0,
            !option.skip_function_bodies,
            !option.skip_non_main_file,
    {
        AstXmlOption { arguments: &[], skip_function_bodies: false, skip_non_main_file: false }
    }
}

/// What a path names: a precompiled syntax tree or a source file.
#[derive(Debug, Clone, Copy, PartialEq, Eq, Structural)]
pub enum InputKind {
    /// A precompiled syntax tree, to be loaded as it is.
    PrecompiledAst,
    /// A source file, to be parsed.
    Source,
}

/// Whether a path ends in `.ast`.
pub open spec fn names_precompiled_ast(path: Seq<char>) -> bool {
    let n = path.len() as int;
    n >= 4 && path[n - 4] == '.' && path[n - 3] == 'a' && path[n - 2] == 's' && path[n - 1] == 't'
}

/// The kind of input at `path`: a precompiled syntax tree where the path
/// ends in `.ast`, a source file otherwise.
pub fn input_kind(path: &str) -> (kind: InputKind)
    ensures
        kind == if names_precompiled_ast(path@) {
            InputKind::PrecompiledAst
        } else {
            InputKind::Source
        },
{
    let n = path.unicode_len();
    if n >= 4 && path.get_char(n - 4) == '.' && path.get_char(n - 3) == 'a' && path.get_char(n - 2)
        == 's' && path.get_char(n - 1) == 't' {
        InputKind::PrecompiledAst
    } else {
        InputKind::Source
    }
}

} // verus!
