use vstd::prelude::*;

verus! {

/// Why the formatting entry point refused to format.
#[derive(Debug, Clone, PartialEq, Eq)]
pub enum FormatError {
    /// The source text was empty or contained only whitespace.
    EmptyInput,
    /// The parser reported at least one error; only the first is surfaced.
    Syntax(String),
}

impl FormatError {
    /// A human-readable description of the error.
    pub fn message(&self) -> (m: String)
        ensures
            self is EmptyInput ==> m@ == "empty input"@,
            self matches FormatError::Syntax(d) ==> m@ == "syntax error: "@ + d@,
    {
        match self {
            FormatError::EmptyInput => "empty input".to_owned(),
            FormatError::Syntax(d) => "syntax error: ".to_owned().concat(d.as_str()),
        }
    }
}

} // verus!
