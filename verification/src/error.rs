//! Errors reported by the diagram parser.
use vstd::prelude::*;
use vstd::string::*;

verus! {

/// Why a `.aras` source text was rejected.
#[derive(Debug)]
pub enum ArasError {
    Parse(String),
}

/// The text of an error message, as shown to users.
pub open spec fn error_message(detail: Seq<char>) -> Seq<char> {
    "Parse Error: "@ + detail
}

impl ArasError {
    /// The detail that the parser gave.
    pub open spec fn detail(&self) -> Seq<char> {
        match self {
            ArasError::Parse(m) => m@,
        }
    }

    /// The message shown to users: `Parse Error: ` followed by the detail.
    pub fn message(&self) -> (s: String)
        ensures
            s@ == error_message(self.detail()),
    {
        match self {
            ArasError::Parse(m) => {
                let mut s = String::from_str("Parse Error: ");
                s.append(m.as_str());
                s
            },
        }
    }
}

} // verus!
