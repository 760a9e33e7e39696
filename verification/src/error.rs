use vstd::prelude::*;

verus! {

/// Why a program's loops do not nest properly.
#[derive(Debug, PartialEq, Eq, Clone, Copy, Structural)]
pub enum UnbalancedLoopError {
    /// A `]` was met while no loop was open.
    UnmatchedCloser,
    /// The program ended while a `[` was still open.
    UnterminatedOpener,
}

impl UnbalancedLoopError {
    /// The diagnostic text of this error.
    pub open spec fn text(self) -> Seq<char> {
        match self {
            UnbalancedLoopError::UnmatchedCloser => "unbalanced loop: `]` without a matching `[`"@,
            UnbalancedLoopError::UnterminatedOpener => "unbalanced loop: `[` without a matching `]`"@,
        }
    }

    /// A one-line diagnostic for the error.
    pub fn message(&self) -> (s: &'static str)
        ensures
            s@ == self.text(),
    {
        match self {
            UnbalancedLoopError::UnmatchedCloser => "unbalanced loop: `]` without a matching `[`",
            UnbalancedLoopError::UnterminatedOpener => "unbalanced loop: `[` without a matching `]`",
        }
    }
}

} // verus!
