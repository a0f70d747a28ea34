//! The ways in which a selection can be refused.

use vstd::prelude::*;
use vstd::string::StringExecFns;

verus! {

/// Why no interval was selected. Each variant carries a message for the log.
#[derive(Debug)]
pub enum MarzulloError {
    /// The first bound in sweep order is not a lower bound.
    InvalidSourceBounds(String),
    /// Two neighbouring bounds stand in the wrong order.
    InvalidSourceBoundsOrder(String),
    /// The swept bounds cannot be the endpoints of whole intervals.
    IntervalInvariant(String),
}

/// The variant of a `MarzulloError`, without its message.
#[derive(PartialEq, Eq, Structural, Debug, Clone, Copy)]
pub enum ErrorKind {
    InvalidSourceBounds,
    InvalidSourceBoundsOrder,
    IntervalInvariant,
}

impl MarzulloError {
    /// The variant of this error.
    pub open spec fn spec_kind(&self) -> ErrorKind {
        match self {
            MarzulloError::InvalidSourceBounds(_) => ErrorKind::InvalidSourceBounds,
            MarzulloError::InvalidSourceBoundsOrder(_) => ErrorKind::InvalidSourceBoundsOrder,
            MarzulloError::IntervalInvariant(_) => ErrorKind::IntervalInvariant,
        }
    }

    /// The message that this error carries.
    pub open spec fn spec_message(&self) -> Seq<char> {
        match self {
            MarzulloError::InvalidSourceBounds(msg) => msg@,
            MarzulloError::InvalidSourceBoundsOrder(msg) => msg@,
            MarzulloError::IntervalInvariant(msg) => msg@,
        }
    }

    /// The words that introduce the message of an error of the given kind.
    pub open spec fn heading(kind: ErrorKind) -> Seq<char> {
        match kind {
            ErrorKind::InvalidSourceBounds => "Invalid source bounds order: "@,
            ErrorKind::InvalidSourceBoundsOrder => "Invalid source bounds sorting: "@,
            ErrorKind::IntervalInvariant => "Interval invariant : "@,
        }
    }

    /// The variant of this error.
    #[verifier::when_used_as_spec(spec_kind)]
    pub fn kind(&self) -> (k: ErrorKind)
        ensures
            k == self.spec_kind(),
    {
        match self {
            MarzulloError::InvalidSourceBounds(_) => ErrorKind::InvalidSourceBounds,
            MarzulloError::InvalidSourceBoundsOrder(_) => ErrorKind::InvalidSourceBoundsOrder,
            MarzulloError::IntervalInvariant(_) => ErrorKind::IntervalInvariant,
        }
    }

    /// Renders the error for a reader: the heading of its kind, followed by
    /// its message.
    pub fn to_string(&self) -> (text: String)
        ensures
            text@ == Self::heading(self.spec_kind()) + self.spec_message(),
    {
        match self {
            MarzulloError::InvalidSourceBounds(msg) => {
                String::from_str("Invalid source bounds order: ").concat(msg.as_str())
            },
            MarzulloError::InvalidSourceBoundsOrder(msg) => {
                String::from_str("Invalid source bounds sorting: ").concat(msg.as_str())
            },
            MarzulloError::IntervalInvariant(msg) => {
                String::from_str("Interval invariant : ").concat(msg.as_str())
            },
        }
    }
}

} // verus!
