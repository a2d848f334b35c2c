use vstd::prelude::*;
use vstd::string::StringExecFns;

verus! {

/// The ways in which building a variable store or resolving a text can fail.
#[derive(Debug, Clone, PartialEq, Eq)]
pub enum Error {
    /// A custom placeholder pattern did not compile; holds the pattern text.
    InvalidPattern(String),
    /// The value given as the variable mapping is not a JSON object.
    InvalidInputShape,
    /// A placeholder names a path that no declared variable has; holds the path.
    UndefinedVariable(String),
}

impl Error {
    /// A human-readable description of the error.
    pub fn message(&self) -> (r: String)
        ensures
            match self {
                Error::InvalidPattern(p) => r@ == "Invalid regex pattern "@ + p@,
                Error::InvalidInputShape => r@ == "Invalid json format"@,
                Error::UndefinedVariable(p) => r@ == "Variable called but never defined: "@ + p@,
            },
    {
        match self {
            Error::InvalidPattern(pattern) => {
                let mut m = String::from_str("Invalid regex pattern ");
                m.append(pattern.as_str());
                m
            },
            Error::InvalidInputShape => String::from_str("Invalid json format"),
            Error::UndefinedVariable(path) => {
                let mut m = String::from_str("Variable called but never defined: ");
                m.append(path.as_str());
                m
            },
        }
    }
}

} // verus!
