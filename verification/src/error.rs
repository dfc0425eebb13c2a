//! The errors every fallible operation of the library reports.

use vstd::prelude::*;

verus! {

/// What went wrong in a fit, a transform, a prediction or a score.
#[derive(Debug, Clone)]
pub enum RegressorError {
    /// The model or transformer is used before `fit`.
    NotFitted,
    /// Two inputs that must agree in size do not.
    SizeMismatch,
    /// An input value is not acceptable; the text says which.
    InvalidInput(String),
    /// An input holds no data.
    EmptyInput,
    /// Any other failure, described by its text.
    Exception(String),
}

/// The result of a fallible operation of the library.
pub type RegressorResult<T> = Result<T, RegressorError>;

impl RegressorError {
    /// The text a user is shown for this error.
    pub open spec fn message(&self) -> Seq<char> {
        match self {
            RegressorError::NotFitted => "Model not fitted yet"@,
            RegressorError::SizeMismatch => "Size of Features and Target dont match"@,
            RegressorError::InvalidInput(_) => "Invalid Input"@,
            RegressorError::EmptyInput => "Empty Input"@,
            RegressorError::Exception(m) => "Exception: "@ + m@,
        }
    }

    /// Renders the error as the text a user is shown.
    pub fn to_string(&self) -> (s: String)
        ensures
            s@ == self.message(),
    {
        match self {
            RegressorError::NotFitted => String::from_str("Model not fitted yet"),
            RegressorError::SizeMismatch => String::from_str(
                "Size of Features and Target dont match",
            ),
            RegressorError::InvalidInput(_) => String::from_str("Invalid Input"),
            RegressorError::EmptyInput => String::from_str("Empty Input"),
            RegressorError::Exception(m) => {
                let mut s = String::from_str("Exception: ");
                s.append(m.as_str());
                s
            },
        }
    }
}

} // verus!
