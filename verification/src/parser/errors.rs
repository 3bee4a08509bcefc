//! Why a text could not be read as 3DL.
use vstd::prelude::*;

verus! {

#[derive(Debug)]
pub enum ParseError {
    /// The text does not follow the grammar; the message says what was
    /// expected.
    RuleError(String),
    /// The text holds no root package.
    MissingRootPackage(String),
}

/// How a parse error reads.
pub open spec fn error_text(e: ParseError) -> Seq<char> {
    match e {
        ParseError::RuleError(m) => "RuleError: "@ + m@,
        ParseError::MissingRootPackage(m) => "MissingRootPackage: "@ + m@,
    }
}

impl ParseError {
    /// The error as text: the variant's name, a colon and its message.
    pub fn to_string(&self) -> (s: String)
        ensures
            s@ == error_text(*self),
    {
        match self {
            ParseError::RuleError(m) => {
                let mut s = String::from_str("RuleError: ");
                s.append(m.as_str());
                s
            },
            ParseError::MissingRootPackage(m) => {
                let mut s = String::from_str("MissingRootPackage: ");
                s.append(m.as_str());
                s
            },
        }
    }
}

} // verus!
