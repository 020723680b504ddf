use vstd::prelude::*;
use crate::text::{list_string, list_text};

verus! {

/// Errors reported by the library's operations.
#[derive(Debug, Clone, PartialEq, Eq)]
pub enum IrisError {
    /// A tensor-level operation could not be performed.
    Tensor(String),
    /// Two shapes that must agree do not.
    DimensionMismatch { expected: Vec<usize>, actual: Vec<usize> },
    /// A parameter lies outside the accepted range.
    InvalidParameter(String),
    /// A model could not be loaded.
    ModelLoad(String),
    /// A model could not be executed.
    Inference(String),
    /// The requested feature is not available.
    FeatureNotImplemented(String),
    /// Any other failure.
    Generic(String),
}

/// The text of an error, as its `Display` writes it.
pub open spec fn error_text(e: IrisError) -> Seq<char> {
    match e {
        IrisError::Tensor(m) => "Tensor operation failed: "@ + m@,
        IrisError::DimensionMismatch { expected, actual } => "Dimension mismatch: expected "@ + list_text(expected@)
            + ", found "@ + list_text(actual@),
        IrisError::InvalidParameter(m) => "Invalid parameter: "@ + m@,
        IrisError::ModelLoad(m) => "Model load failure: "@ + m@,
        IrisError::Inference(m) => "Model execution or inference failure: "@ + m@,
        IrisError::FeatureNotImplemented(m) => "Feature not implemented: "@ + m@,
        IrisError::Generic(m) => "Generic error: "@ + m@,
    }
}

/// `prefix` followed by `m`.
fn prefixed(prefix: &str, m: &String) -> (s: String)
    ensures
        s@ == prefix@ + m@,
{
    let mut s = String::from_str(prefix);
    s.append(m.as_str());
    s
}

impl IrisError {
    /// The text of the error: a phrase naming its kind, then its details.
    pub fn message(&self) -> (s: String)
        ensures
            s@ == error_text(*self),
    {
        match self {
            IrisError::Tensor(m) => prefixed("Tensor operation failed: ", m),
            IrisError::DimensionMismatch { expected, actual } => {
                let mut s = String::from_str("Dimension mismatch: expected ");
                let e = list_string(expected);
                s.append(e.as_str());
                s.append(", found ");
                let a = list_string(actual);
                s.append(a.as_str());
                s
            },
            IrisError::InvalidParameter(m) => prefixed("Invalid parameter: ", m),
            IrisError::ModelLoad(m) => prefixed("Model load failure: ", m),
            IrisError::Inference(m) => prefixed("Model execution or inference failure: ", m),
            IrisError::FeatureNotImplemented(m) => prefixed("Feature not implemented: ", m),
            IrisError::Generic(m) => prefixed("Generic error: ", m),
        }
    }
}

} // verus!
