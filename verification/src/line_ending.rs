//! The sequences of characters that end a line.

use vstd::prelude::*;

verus! {

/// The line ending that a store writes.
#[derive(Clone, Copy, Debug, PartialEq, Eq, Structural)]
pub enum LineEnding {
    /// A line feed.
    LF,
    /// A carriage return followed by a line feed.
    CRLF,
    /// A carriage return.
    CR,
}

impl LineEnding {
    /// The characters of the line ending.
    pub open spec fn text(self) -> Seq<char> {
        match self {
            LineEnding::LF => seq!['\n'],
            LineEnding::CRLF => seq!['\r', '\n'],
            LineEnding::CR => seq!['\r'],
        }
    }

    /// The characters of the line ending.
    pub fn chars(self) -> (chars: Vec<char>)
        ensures
            chars@ == self.text(),
    {
        let chars = match self {
            LineEnding::LF => vec!['\n'],
            LineEnding::CRLF => vec!['\r', '\n'],
            LineEnding::CR => vec!['\r'],
        };
        assert(chars@ =~= self.text());
        chars
    }
}

} // verus!
