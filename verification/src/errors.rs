use vstd::prelude::*;

verus! {

/// What the parser expected at the offset where it stopped.
#[derive(Debug, Clone, Copy, PartialEq, Eq, Structural)]
pub enum Expected {
    /// A digit starting a number.
    Number,
    /// A separator (a comma or whitespace) or the end of the input.
    SeparatorOrEnd,
    /// A number small enough for the platform's unsigned size.
    RepresentableNumber,
}

/// Why an input failed to parse: the character offset at which parsing
/// stopped, and what the grammar expected there.
#[derive(Debug, Clone, Copy, PartialEq, Eq, Structural)]
pub enum ParseError {
    MalformedInput { offset: usize, expected: Expected },
}

impl ParseError {
    /// The character offset at which parsing stopped.
    pub fn offset(&self) -> (o: usize)
        ensures
            self matches ParseError::MalformedInput { offset, expected } && o == offset,
    {
        match self {
            ParseError::MalformedInput { offset, .. } => *offset,
        }
    }

    /// What the grammar expected at that offset.
    pub fn expected(&self) -> (x: Expected)
        ensures
            self matches ParseError::MalformedInput { offset, expected } && x == expected,
    {
        match self {
            ParseError::MalformedInput { expected, .. } => *expected,
        }
    }
}

} // verus!
