use llm_messages::{MessageError, ToolCallId, TurnId, TurnStateLabel};

fn call(id: &str) -> ToolCallId {
    ToolCallId::new(id).unwrap()
}

#[test]
fn given_each_error_when_displayed_then_message_names_the_cause() {
    let cases: Vec<(MessageError, &str)> = vec![
        (MessageError::Blank { field: "text" }, "text must not be blank"),
        (MessageError::InvalidBase64, "value is not valid standard base64"),
        (MessageError::EmptyStep, "a step must carry at least one block"),
        (
            MessageError::ToolCallNotAtTail,
            "tool-call blocks must be the tail of a step",
        ),
        (
            MessageError::AwaitingToolResultsWithoutCalls,
            "stop reason awaiting_tool_results requires at least one tool call",
        ),
        (
            MessageError::ToolCallsWithoutAwaiting,
            "tool calls require the stop reason awaiting_tool_results",
        ),
        (
            MessageError::DuplicateToolCallId { id: call("c1") },
            "tool-call id c1 appears twice in the step",
        ),
        (
            MessageError::EmptyUserContent,
            "a user input must carry at least one block",
        ),
        (
            MessageError::DuplicateToolResultId { id: call("c2") },
            "a result for tool-call id c2 was already collected",
        ),
        (
            MessageError::ToolResultNotPending {
                given: call("z"),
                pending: vec![call("a"), call("b")],
            },
            "tool-call id z is not pending; pending are [a, b]",
        ),
        (
            MessageError::ToolResultNotPending {
                given: call("z"),
                pending: Vec::new(),
            },
            "tool-call id z is not pending; pending are []",
        ),
        (
            MessageError::TurnNotAwaitingResults {
                state: TurnStateLabel::Finished,
            },
            "the turn does not await results (state finished)",
        ),
        (
            MessageError::TurnNotAwaitingStep {
                state: TurnStateLabel::AwaitingToolResults,
            },
            "the turn does not await a step (state awaiting_tool_results)",
        ),
        (
            MessageError::TurnMustStartWithStep,
            "a turn must start with a step, not a results item",
        ),
        (
            MessageError::DuplicateTurnId {
                id: TurnId::new("t1").unwrap(),
            },
            "turn id t1 already exists in the conversation",
        ),
        (
            MessageError::TurnNotFound {
                id: TurnId::new("t9").unwrap(),
            },
            "no turn with id t9 in the conversation",
        ),
        (
            MessageError::SchemaMismatch {
                found: "v\"2".to_owned(),
            },
            "unexpected schema \"v\\\"2\"",
        ),
        (
            MessageError::TurnAwaitingResults,
            "the perspective's own last turn still awaits tool results",
        ),
        (
            MessageError::RenderStartsWithAssistant,
            "the rendered wire list must not start with an assistant message",
        ),
        (
            MessageError::EmptyRender,
            "the rendered wire list must not be empty",
        ),
        (
            MessageError::NoOpenBlock { index: 0 },
            "no open block at index 0",
        ),
        (
            MessageError::BlockStillOpen { index: 12 },
            "block at index 12 is still open",
        ),
        (
            MessageError::UnexpectedBlockIndex {
                expected: 3,
                given: 1050,
            },
            "expected block index 3, got 1050",
        ),
        (
            MessageError::BlockKindMismatch { index: 7 },
            "delta does not match the kind of block at index 7",
        ),
        (
            MessageError::ToolCallNeedsStart,
            "a tool-call block must be opened with tool_call_start",
        ),
        (
            MessageError::EventAfterFinish,
            "no stream event is accepted after finish",
        ),
        (
            MessageError::MissingFinish,
            "the draft cannot finish before a finish event",
        ),
        (
            MessageError::InvalidJson {
                field: "structured",
                message: "EOF while parsing".to_owned(),
            },
            "structured is not valid json: EOF while parsing",
        ),
    ];
    for (error, message) in cases {
        assert_eq!(error.to_string(), message);
    }
}

#[test]
fn given_state_labels_when_displayed_then_snake_case() {
    assert_eq!(TurnStateLabel::AwaitingToolResults.as_str(), "awaiting_tool_results");
    assert_eq!(TurnStateLabel::AwaitingStep.to_string(), "awaiting_step");
    assert_eq!(TurnStateLabel::Finished.to_string(), "finished");
}
