//! What can go wrong inside the store.

use vstd::prelude::*;

verus! {

/// The failures that the store reports to its caller.
#[derive(Clone, Copy, Debug, PartialEq, Eq, Structural)]
pub enum LsmError {
    /// A table or a block holds bytes that do not follow the layout.
    Format,
    /// A table would take more bytes than an offset of 32 bits can address,
    /// or the store has no id left for it.
    TooLarge,
}

impl LsmError {
    /// A line of text for a person.
    pub fn message(&self) -> (s: &'static str)
        ensures
            s@ == match self {
                LsmError::Format => "malformed table or block"@,
                LsmError::TooLarge => "table too large"@,
            },
    {
        match self {
            LsmError::Format => "malformed table or block",
            LsmError::TooLarge => "table too large",
        }
    }
}

} // verus!
