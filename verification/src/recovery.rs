//! What the agent tells a model whose answer was cut off.

use vstd::prelude::*;

verus! {

/// The notice that an answer was cut off by the output limit.
#[derive(Clone, Copy, Debug, PartialEq, Eq, Structural)]
pub struct OutputLimitRecovery;

/// The text of the notice.
pub open spec fn notice() -> Seq<char> {
    "The previous response was truncated by the output limit. Its tool calls were discarded and were not executed. Continue the task from the existing context with shorter reasoning and smaller, complete tool calls. Split large writes or edits into bounded steps. Do not repeat completed work."@
}

impl OutputLimitRecovery {
    /// The kind of content that the notice is.
    pub fn content_kind(&self) -> (kind: String)
        ensures
            kind@ == "recovery.output_limit"@,
    {
        "recovery.output_limit".to_owned()
    }

    /// The role in which the notice is given.
    pub fn role(&self) -> (role: &'static str)
        ensures
            role@ == "user"@,
    {
        "user"
    }

    /// The marks before and after the notice.
    pub fn markers(&self) -> (markers: (&'static str, &'static str))
        ensures
            markers.0@ == "<output_limit_recovery>"@,
            markers.1@ == "</output_limit_recovery>"@,
    {
        Self::type_markers()
    }

    /// The marks before and after every notice of this type.
    pub fn type_markers() -> (markers: (&'static str, &'static str))
        ensures
            markers.0@ == "<output_limit_recovery>"@,
            markers.1@ == "</output_limit_recovery>"@,
    {
        ("<output_limit_recovery>", "</output_limit_recovery>")
    }

    /// The text of the notice.
    pub fn body(&self) -> (text: String)
        ensures
            text@ == notice(),
    {
        "The previous response was truncated by the output limit. Its tool calls were discarded and were not executed. Continue the task from the existing context with shorter reasoning and smaller, complete tool calls. Split large writes or edits into bounded steps. Do not repeat completed work.".to_owned()
    }
}

} // verus!
