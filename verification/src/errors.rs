//! The error taxonomy of the library.
//!
//! Every fallible core operation reports one of these variants; nothing is
//! retried inside the library, a failure is terminal for the one conversion
//! that raised it.

use vstd::prelude::*;

verus! {

/// The ways a decode or an analysis can fail.
#[derive(Clone, Copy, Debug, PartialEq, Eq, Structural)]
pub enum KshError {
    /// The input ended before a read of the announced size could finish.
    TruncatedInput,
    /// A length-prefixed string did not hold valid UTF-8.
    InvalidEncoding,
    /// A scope or type id read from the container is outside the known set.
    InvalidValue,
    /// A GLSL uniform uses a type outside the six supported kinds, or an
    /// assignment expression stands where a plain condition is required.
    UnsupportedType,
    /// A GLSL declaration is malformed (a uniform without a name).
    ParseError,
    /// A stage's reference index points past the end of the uniform table.
    CorruptContainer,
    /// A resolved name is missing from the merged table.  Defensive only:
    /// the reconciler's construction makes this unreachable.
    InternalInconsistency,
}

impl KshError {
    /// A short description, for callers that print errors.
    pub fn describe(&self) -> (r: &'static str)
        ensures
            r@.len() > 0,
    {
        proof {
            reveal_strlit("input ends before the announced data");
            reveal_strlit("length-prefixed string is not valid UTF-8");
            reveal_strlit("unknown scope or type id");
            reveal_strlit("unsupported GLSL construct");
            reveal_strlit("malformed GLSL declaration");
            reveal_strlit("uniform reference index out of range");
            reveal_strlit("resolved name missing from the merged table");
        }
        match self {
            KshError::TruncatedInput => "input ends before the announced data",
            KshError::InvalidEncoding => "length-prefixed string is not valid UTF-8",
            KshError::InvalidValue => "unknown scope or type id",
            KshError::UnsupportedType => "unsupported GLSL construct",
            KshError::ParseError => "malformed GLSL declaration",
            KshError::CorruptContainer => "uniform reference index out of range",
            KshError::InternalInconsistency => "resolved name missing from the merged table",
        }
    }
}

} // verus!
