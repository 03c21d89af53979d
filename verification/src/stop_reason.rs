use vstd::prelude::*;

verus! {

#[derive(Debug, PartialEq, Eq)]
pub enum StopReason {
    EndTurn,
    AwaitingToolResults,
    MaxTokens,
    StopSequence,
    Refusal,
    ContentFilter,
    Other { reason: String },
}

impl Clone for StopReason {
    fn clone(&self) -> (r: Self)
        ensures
            r == *self,
    {
        match self {
            StopReason::EndTurn => StopReason::EndTurn,
            StopReason::AwaitingToolResults => StopReason::AwaitingToolResults,
            StopReason::MaxTokens => StopReason::MaxTokens,
            StopReason::StopSequence => StopReason::StopSequence,
            StopReason::Refusal => StopReason::Refusal,
            StopReason::ContentFilter => StopReason::ContentFilter,
            StopReason::Other { reason } => StopReason::Other { reason: reason.clone() },
        }
    }
}

/// The display text of a stop reason.
pub open spec fn stop_reason_text(reason: StopReason) -> Seq<char> {
    match reason {
        StopReason::EndTurn => "end_turn"@,
        StopReason::AwaitingToolResults => "awaiting_tool_results"@,
        StopReason::MaxTokens => "max_tokens"@,
        StopReason::StopSequence => "stop_sequence"@,
        StopReason::Refusal => "refusal"@,
        StopReason::ContentFilter => "content_filter"@,
        StopReason::Other { reason } => "other("@ + reason@ + ")"@,
    }
}

impl StopReason {
    pub fn is_awaiting_tool_results(&self) -> (r: bool)
        ensures
            r == (*self is AwaitingToolResults),
    {
        match self {
            StopReason::AwaitingToolResults => true,
            _ => false,
        }
    }

    pub fn to_string(&self) -> (r: String)
        ensures
            r@ == stop_reason_text(*self),
    {
        match self {
            StopReason::EndTurn => "end_turn".to_owned(),
            StopReason::AwaitingToolResults => "awaiting_tool_results".to_owned(),
            StopReason::MaxTokens => "max_tokens".to_owned(),
            StopReason::StopSequence => "stop_sequence".to_owned(),
            StopReason::Refusal => "refusal".to_owned(),
            StopReason::ContentFilter => "content_filter".to_owned(),
            StopReason::Other { reason } => {
                let mut text = "other(".to_owned();
                text.append(reason.as_str());
                text.append(")");
                text
            },
        }
    }
}

} // verus!
