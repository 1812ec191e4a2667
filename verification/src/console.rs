//! A line of output on its way to the sink, optionally carrying the error
//! it reports.

use vstd::prelude::*;

use crate::error::Error;

verus! {

/// One line bound for the output sink.
pub struct OutputLine {
    /// The text to show.
    pub text: String,
    /// The error this line reports, if it reports one.
    pub wrapped_error: Option<Error>,
}

impl OutputLine {
    /// A plain line of text, reporting no error.
    pub fn new(text: String) -> (r: OutputLine)
        ensures
            r.text@ == text@,
            r.wrapped_error is None,
    {
        OutputLine { text, wrapped_error: None }
    }
}

} // verus!
