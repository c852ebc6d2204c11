//! Severity of errors, and attaching a position to an error's message.
use vstd::prelude::*;

use crate::issues::Issue;
use crate::position::{append_position_text, with_position, Position};

verus! {

/// An error: an issue whose message says what went wrong.
pub trait IError: Issue {
}

impl<T: Issue> IError for T {
}

#[derive(Debug, Clone, Copy, PartialEq, Eq, Structural)]
pub enum ErrorSeverity {
    /// Execution cannot continue.
    HIGH,
    /// Execution can continue.
    LOW,
}

pub struct ErrorsManager;

impl ErrorsManager {
    /// Appends `\nAt line: L, column: C.` to the error's message; the rest
    /// of the error is kept.
    pub fn append_position<E: IError>(error: E, position: Position) -> (r: E)
        ensures
            r.text() == with_position(error.text(), position),
            error.same_but_text(&r),
    {
        let mut error = error;
        let message = error.message();
        let text = append_position_text(&message, position);
        error.set_message(text);
        error
    }
}

} // verus!
