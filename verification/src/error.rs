//! The ways in which a request or a stream fails.

use vstd::prelude::*;

use crate::text::joined;

verus! {

#[derive(Debug, PartialEq, Eq)]
pub enum ApiError {
    InvalidRequest { message: String },
    ContextWindowExceeded,
    Stream(String),
}

/// The content of an error.
pub enum ErrorView {
    InvalidRequest(Seq<char>),
    ContextWindowExceeded,
    Stream(Seq<char>),
}

impl View for ApiError {
    type V = ErrorView;

    open spec fn view(&self) -> ErrorView {
        match *self {
            ApiError::InvalidRequest { message } => ErrorView::InvalidRequest(message@),
            ApiError::ContextWindowExceeded => ErrorView::ContextWindowExceeded,
            ApiError::Stream(message) => ErrorView::Stream(message@),
        }
    }
}

/// Whether something was done, or why it was not.
pub open spec fn outcome_view(outcome: Result<(), ApiError>) -> Result<(), ErrorView> {
    match outcome {
        Ok(()) => Ok(()),
        Err(error) => Err(error@),
    }
}

/// The refusal with that explanation.
pub open spec fn refusal(message: Seq<char>) -> ErrorView {
    ErrorView::InvalidRequest("CodeBuddy Chat: "@ + message)
}

/// Refuses a request or a completion, and says why.
pub fn invalid(message: &str) -> (error: ApiError)
    ensures
        error@ == refusal(message@),
{
    ApiError::InvalidRequest { message: joined("CodeBuddy Chat: ", message) }
}

} // verus!
