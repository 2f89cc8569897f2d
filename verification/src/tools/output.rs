//! What a tool hands back.

use vstd::prelude::*;

use crate::json::{Json, JsonView};

verus! {

/// How the calls of a tool are run.
#[derive(Debug, Clone, Copy, PartialEq, Eq, Structural)]
pub enum ExecutionMode {
    /// Beside other calls.
    Parallel,
    /// One at a time.
    Sequential,
}

/// What a tool hands back: a text, and details for whoever reads more than text.
#[derive(Debug)]
pub struct ToolOutput {
    pub text: String,
    pub details: Option<Json>,
}

/// What a tool hands back.
pub struct OutputView {
    pub text: Seq<char>,
    pub details: Option<JsonView>,
}

impl View for ToolOutput {
    type V = OutputView;

    open spec fn view(&self) -> OutputView {
        OutputView {
            text: self.text@,
            details: match self.details {
                Some(d) => Some(d@),
                None => None,
            },
        }
    }
}

/// A text without details.
pub open spec fn just_text(t: Seq<char>) -> OutputView {
    OutputView { text: t, details: None }
}

impl ToolOutput {
    /// A text without details.
    pub fn text(text: String) -> (r: ToolOutput)
        ensures
            r@ == just_text(text@),
    {
        ToolOutput { text, details: None }
    }

    /// The same text with details.
    pub fn with_details(self, details: Json) -> (r: ToolOutput)
        ensures
            r@ == (OutputView { text: self@.text, details: Some(details@) }),
    {
        ToolOutput { text: self.text, details: Some(details) }
    }
}

} // verus!
