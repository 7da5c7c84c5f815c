//! What every refusal in this crate is reported as.
use vstd::prelude::*;
use vstd::string::*;

verus! {

/// A refusal, saying what was checked and why it did not hold.
#[derive(Debug, Clone, PartialEq, Eq)]
pub enum VindexError {
    Parse(String),
}

impl VindexError {
    /// What the refusal says.
    pub open spec fn text(&self) -> Seq<char> {
        match self {
            VindexError::Parse(s) => s@,
        }
    }

    /// What the refusal says.
    pub fn message(&self) -> (r: &str)
        ensures
            r@ == self.text(),
    {
        match self {
            VindexError::Parse(s) => s.as_str(),
        }
    }
}

} // verus!
