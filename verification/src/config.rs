use vstd::prelude::*;

verus! {

/// Settings that control how a document is rendered: the number of spaces
/// per indentation level, the column budget before a group is broken, and
/// whether the output ends with exactly one trailing newline.
#[derive(Debug, Clone, Copy, PartialEq, Eq, Structural)]
pub struct FormatConfig {
    /// Spaces emitted per indentation level.
    pub indent_size: usize,
    /// Column budget: a group whose flat width exceeds the remaining budget
    /// is rendered broken.
    pub max_width: usize,
    /// When true the rendered output is normalized to end with a newline;
    /// when false all trailing newlines are stripped.
    pub trailing_newline: bool,
}

/// The configuration used when none is given: four spaces per level, a
/// hundred columns, and a trailing newline.
pub open spec fn spec_default_config() -> FormatConfig {
    FormatConfig { indent_size: 4, max_width: 100, trailing_newline: true }
}

impl Default for FormatConfig {
    fn default() -> (c: Self)
        ensures
            c == spec_default_config(),
    {
        FormatConfig { indent_size: 4, max_width: 100, trailing_newline: true }
    }
}

} // verus!
