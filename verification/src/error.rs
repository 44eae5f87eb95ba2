//! The errors of the library.
use vstd::prelude::*;

verus! {

/// Errors returned by the library.
#[derive(Clone, Debug, PartialEq, Eq)]
pub enum NtruError {
    /// A modulus was not usable.
    InvalidModulus,
    /// A group or coefficient vector had the wrong shape.
    Shape,
    /// A modular inverse does not exist.
    NotInvertible,
    /// Parameters are inconsistent.
    InvalidParameters(String),
    /// The FFT backend rejected the input.
    Backend(String),
}

impl NtruError {
    /// The human-readable message of the error.
    pub fn to_string(&self) -> (r: String)
        ensures
            r@ == match self {
                NtruError::InvalidModulus => "invalid modulus"@,
                NtruError::Shape => "shape mismatch"@,
                NtruError::NotInvertible => "element is not invertible"@,
                NtruError::InvalidParameters(m) => "invalid parameters: "@ + m@,
                NtruError::Backend(m) => "backend error: "@ + m@,
            },
    {
        match self {
            NtruError::InvalidModulus => String::from_str("invalid modulus"),
            NtruError::Shape => String::from_str("shape mismatch"),
            NtruError::NotInvertible => String::from_str("element is not invertible"),
            NtruError::InvalidParameters(m) => {
                let mut s = String::from_str("invalid parameters: ");
                s.append(m.as_str());
                s
            },
            NtruError::Backend(m) => {
                let mut s = String::from_str("backend error: ");
                s.append(m.as_str());
                s
            },
        }
    }
}

} // verus!
