use vstd::prelude::*;

use crate::strings::{debug_string, debug_text, decimal, push_decimal};
use crate::value::{ToolCallId, TurnId};

verus! {

#[derive(Debug, Clone, Copy, PartialEq, Eq)]
pub enum TurnStateLabel {
    AwaitingToolResults,
    AwaitingStep,
    Finished,
}

#[allow(inconsistent_fields)]
#[derive(Debug, Clone, PartialEq, Eq)]
pub enum MessageError {
    Blank { field: &'static str },
    InvalidBase64,
    EmptyStep,
    ToolCallNotAtTail,
    AwaitingToolResultsWithoutCalls,
    ToolCallsWithoutAwaiting,
    DuplicateToolCallId { id: ToolCallId },
    EmptyUserContent,
    DuplicateToolResultId { id: ToolCallId },
    ToolResultNotPending { given: ToolCallId, pending: Vec<ToolCallId> },
    TurnNotAwaitingResults { state: TurnStateLabel },
    TurnNotAwaitingStep { state: TurnStateLabel },
    TurnMustStartWithStep,
    DuplicateTurnId { id: TurnId },
    TurnNotFound { id: TurnId },
    SchemaMismatch { found: String },
    TurnAwaitingResults,
    RenderStartsWithAssistant,
    EmptyRender,
    NoOpenBlock { index: usize },
    BlockStillOpen { index: usize },
    UnexpectedBlockIndex { expected: usize, given: usize },
    BlockKindMismatch { index: usize },
    ToolCallNeedsStart,
    EventAfterFinish,
    MissingFinish,
    InvalidJson { field: &'static str, message: String },
}

pub open spec fn label_text(label: TurnStateLabel) -> Seq<char> {
    match label {
        TurnStateLabel::AwaitingToolResults => "awaiting_tool_results"@,
        TurnStateLabel::AwaitingStep => "awaiting_step"@,
        TurnStateLabel::Finished => "finished"@,
    }
}

impl TurnStateLabel {
    pub fn as_str(self) -> (r: &'static str)
        ensures
            r@ == label_text(self),
    {
        match self {
            TurnStateLabel::AwaitingToolResults => "awaiting_tool_results",
            TurnStateLabel::AwaitingStep => "awaiting_step",
            TurnStateLabel::Finished => "finished",
        }
    }

    pub fn to_string(self) -> (r: String)
        ensures
            r@ == label_text(self),
    {
        self.as_str().to_owned()
    }
}

/// The ids separated by `, `.
pub open spec fn comma_list(ids: Seq<ToolCallId>) -> Seq<char>
    decreases ids.len(),
{
    if ids.len() == 0 {
        Seq::empty()
    } else if ids.len() == 1 {
        ids[0]@
    } else {
        comma_list(ids.drop_last()) + ", "@ + ids.last()@
    }
}

/// The message that describes an error.
pub open spec fn error_text(e: MessageError) -> Seq<char> {
    match e {
        MessageError::Blank { field } => field@ + " must not be blank"@,
        MessageError::InvalidBase64 => "value is not valid standard base64"@,
        MessageError::EmptyStep => "a step must carry at least one block"@,
        MessageError::ToolCallNotAtTail => "tool-call blocks must be the tail of a step"@,
        MessageError::AwaitingToolResultsWithoutCalls =>
            "stop reason awaiting_tool_results requires at least one tool call"@,
        MessageError::ToolCallsWithoutAwaiting =>
            "tool calls require the stop reason awaiting_tool_results"@,
        MessageError::DuplicateToolCallId { id } => "tool-call id "@ + id@ + " appears twice in the step"@,
        MessageError::EmptyUserContent => "a user input must carry at least one block"@,
        MessageError::DuplicateToolResultId { id } => "a result for tool-call id "@ + id@
            + " was already collected"@,
        MessageError::ToolResultNotPending { given, pending } => "tool-call id "@ + given@
            + " is not pending; pending are ["@ + comma_list(pending@) + "]"@,
        MessageError::TurnNotAwaitingResults { state } => "the turn does not await results (state "@
            + label_text(state) + ")"@,
        MessageError::TurnNotAwaitingStep { state } => "the turn does not await a step (state "@
            + label_text(state) + ")"@,
        MessageError::TurnMustStartWithStep => "a turn must start with a step, not a results item"@,
        MessageError::DuplicateTurnId { id } => "turn id "@ + id@ + " already exists in the conversation"@,
        MessageError::TurnNotFound { id } => "no turn with id "@ + id@ + " in the conversation"@,
        MessageError::SchemaMismatch { found } => "unexpected schema "@ + debug_text(found@),
        MessageError::TurnAwaitingResults => "the perspective's own last turn still awaits tool results"@,
        MessageError::RenderStartsWithAssistant =>
            "the rendered wire list must not start with an assistant message"@,
        MessageError::EmptyRender => "the rendered wire list must not be empty"@,
        MessageError::NoOpenBlock { index } => "no open block at index "@ + decimal(index as nat),
        MessageError::BlockStillOpen { index } => "block at index "@ + decimal(index as nat)
            + " is still open"@,
        MessageError::UnexpectedBlockIndex { expected, given } => "expected block index "@
            + decimal(expected as nat) + ", got "@ + decimal(given as nat),
        MessageError::BlockKindMismatch { index } => "delta does not match the kind of block at index "@
            + decimal(index as nat),
        MessageError::ToolCallNeedsStart => "a tool-call block must be opened with tool_call_start"@,
        MessageError::EventAfterFinish => "no stream event is accepted after finish"@,
        MessageError::MissingFinish => "the draft cannot finish before a finish event"@,
        MessageError::InvalidJson { field, message } => field@ + " is not valid json: "@ + message@,
    }
}

impl MessageError {
    /// The message that describes the error.
    pub fn to_string(&self) -> (r: String)
        ensures
            r@ == error_text(*self),
    {
        match self {
            MessageError::Blank { field } => {
                let mut out = (*field).to_owned();
                out.append(" must not be blank");
                out
            },
            MessageError::InvalidBase64 => "value is not valid standard base64".to_owned(),
            MessageError::EmptyStep => "a step must carry at least one block".to_owned(),
            MessageError::ToolCallNotAtTail => "tool-call blocks must be the tail of a step".to_owned(),
            MessageError::AwaitingToolResultsWithoutCalls =>
                "stop reason awaiting_tool_results requires at least one tool call".to_owned(),
            MessageError::ToolCallsWithoutAwaiting =>
                "tool calls require the stop reason awaiting_tool_results".to_owned(),
            MessageError::DuplicateToolCallId { id } => {
                let mut out = "tool-call id ".to_owned();
                out.append(id.as_str());
                out.append(" appears twice in the step");
                out
            },
            MessageError::EmptyUserContent => "a user input must carry at least one block".to_owned(),
            MessageError::DuplicateToolResultId { id } => {
                let mut out = "a result for tool-call id ".to_owned();
                out.append(id.as_str());
                out.append(" was already collected");
                out
            },
            MessageError::ToolResultNotPending { given, pending } => {
                let mut out = "tool-call id ".to_owned();
                out.append(given.as_str());
                out.append(" is not pending; pending are [");
                let mut listed = String::new();
                for i in 0..pending.len()
                    invariant
                        listed@ == comma_list(pending@.take(i as int)),
                {
                    assert(pending@.take(i + 1).drop_last() =~= pending@.take(i as int));
                    if i > 0 {
                        listed.append(", ");
                    }
                    listed.append(pending[i].as_str());
                }
                assert(pending@.take(pending@.len() as int) =~= pending@);
                out.append(listed.as_str());
                out.append("]");
                out
            },
            MessageError::TurnNotAwaitingResults { state } => {
                let mut out = "the turn does not await results (state ".to_owned();
                out.append(state.as_str());
                out.append(")");
                out
            },
            MessageError::TurnNotAwaitingStep { state } => {
                let mut out = "the turn does not await a step (state ".to_owned();
                out.append(state.as_str());
                out.append(")");
                out
            },
            MessageError::TurnMustStartWithStep =>
                "a turn must start with a step, not a results item".to_owned(),
            MessageError::DuplicateTurnId { id } => {
                let mut out = "turn id ".to_owned();
                out.append(id.as_str());
                out.append(" already exists in the conversation");
                out
            },
            MessageError::TurnNotFound { id } => {
                let mut out = "no turn with id ".to_owned();
                out.append(id.as_str());
                out.append(" in the conversation");
                out
            },
            MessageError::SchemaMismatch { found } => {
                let mut out = "unexpected schema ".to_owned();
                out.append(debug_string(found.as_str()).as_str());
                out
            },
            MessageError::TurnAwaitingResults =>
                "the perspective's own last turn still awaits tool results".to_owned(),
            MessageError::RenderStartsWithAssistant =>
                "the rendered wire list must not start with an assistant message".to_owned(),
            MessageError::EmptyRender => "the rendered wire list must not be empty".to_owned(),
            MessageError::NoOpenBlock { index } => {
                let mut out = "no open block at index ".to_owned();
                push_decimal(&mut out, *index);
                out
            },
            MessageError::BlockStillOpen { index } => {
                let mut out = "block at index ".to_owned();
                push_decimal(&mut out, *index);
                out.append(" is still open");
                out
            },
            MessageError::UnexpectedBlockIndex { expected, given } => {
                let mut out = "expected block index ".to_owned();
                push_decimal(&mut out, *expected);
                out.append(", got ");
                push_decimal(&mut out, *given);
                out
            },
            MessageError::BlockKindMismatch { index } => {
                let mut out = "delta does not match the kind of block at index ".to_owned();
                push_decimal(&mut out, *index);
                out
            },
            MessageError::ToolCallNeedsStart =>
                "a tool-call block must be opened with tool_call_start".to_owned(),
            MessageError::EventAfterFinish => "no stream event is accepted after finish".to_owned(),
            MessageError::MissingFinish => "the draft cannot finish before a finish event".to_owned(),
            MessageError::InvalidJson { field, message } => {
                let mut out = (*field).to_owned();
                out.append(" is not valid json: ");
                out.append(message.as_str());
                out
            },
        }
    }
}

} // verus!
