//! Errors of workspace operations.

use vstd::prelude::*;

verus! {

/// Errors reported by workspace operations.
#[derive(Debug, Clone)]
pub enum CoreError {
    /// The request names something that does not exist or cannot be used.
    InvalidInput(String),
    /// The resulting workspace would break one of its invariants.
    InvariantViolation(String),
    /// Something failed outside the request's control.
    Internal(String),
    /// The operation is not available yet.
    NotImplemented,
}

/// What an error says, over plain values.
pub ghost enum CoreErrorView {
    InvalidInput(Seq<char>),
    InvariantViolation(Seq<char>),
    Internal(Seq<char>),
    NotImplemented,
}

impl View for CoreError {
    type V = CoreErrorView;

    open spec fn view(&self) -> CoreErrorView {
        match self {
            CoreError::InvalidInput(m) => CoreErrorView::InvalidInput(m@),
            CoreError::InvariantViolation(m) => CoreErrorView::InvariantViolation(m@),
            CoreError::Internal(m) => CoreErrorView::Internal(m@),
            CoreError::NotImplemented => CoreErrorView::NotImplemented,
        }
    }
}

/// Result type of workspace operations.
pub type CoreResult<T> = Result<T, CoreError>;

} // verus!
