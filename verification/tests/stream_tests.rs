use llm_messages::stream::field_json;
use llm_messages::{
    AssistantBlock, BlockKind, JsonValue, MessageError, ModelId, StepDraft, StopReason,
    StreamEvent, ToolCallId, ToolName, Usage,
};

fn draft() -> StepDraft {
    StepDraft::new()
}

fn start(index: usize, kind: BlockKind) -> StreamEvent {
    StreamEvent::BlockStart { index, kind }
}

fn end(index: usize) -> StreamEvent {
    StreamEvent::BlockEnd { index }
}

fn finish_with(stop_reason: StopReason) -> StreamEvent {
    StreamEvent::Finish {
        stop_reason,
        usage: None,
    }
}

fn call_start(index: usize, id: &str, name: &str) -> StreamEvent {
    StreamEvent::ToolCallStart {
        index,
        id: ToolCallId::new(id).unwrap(),
        name: ToolName::new(name).unwrap(),
    }
}

fn folded(events: Vec<StreamEvent>) -> StepDraft {
    let mut draft = draft();
    for event in events {
        draft.apply(event).unwrap();
    }
    draft
}

#[test]
fn draft_protocol_tests_given_delta_with_no_open_block_when_applied_then_no_open_block() {
    let mut draft = draft();
    assert!(matches!(
        draft.apply(StreamEvent::TextDelta {
            index: 0,
            text: "hi".to_owned()
        }),
        Err(MessageError::NoOpenBlock { index: 0 })
    ));
}

#[test]
fn draft_protocol_tests_given_open_block_when_start_again_then_block_still_open() {
    let mut draft = draft();
    draft.apply(start(0, BlockKind::Text)).unwrap();
    assert!(matches!(
        draft.apply(start(1, BlockKind::Text)),
        Err(MessageError::BlockStillOpen { index: 0 })
    ));
}

#[test]
fn draft_protocol_tests_given_wrong_kind_delta_when_applied_then_kind_mismatch() {
    let mut draft = draft();
    draft.apply(start(0, BlockKind::Thinking)).unwrap();
    assert!(matches!(
        draft.apply(StreamEvent::TextDelta {
            index: 0,
            text: "hi".to_owned()
        }),
        Err(MessageError::BlockKindMismatch { index: 0 })
    ));
}

#[test]
fn draft_protocol_tests_given_unexpected_index_when_start_then_refused() {
    let mut draft = draft();
    assert!(matches!(
        draft.apply(start(5, BlockKind::Text)),
        Err(MessageError::UnexpectedBlockIndex {
            expected: 0,
            given: 5
        })
    ));
}

#[test]
fn draft_protocol_tests_given_block_start_tool_call_kind_when_applied_then_needs_start() {
    let mut draft = draft();
    assert!(matches!(
        draft.apply(start(0, BlockKind::ToolCall)),
        Err(MessageError::ToolCallNeedsStart)
    ));
}

#[test]
fn draft_protocol_tests_given_open_block_when_finish_then_block_still_open() {
    let mut draft = draft();
    draft.apply(start(0, BlockKind::Text)).unwrap();
    assert!(matches!(
        draft.apply(finish_with(StopReason::EndTurn)),
        Err(MessageError::BlockStillOpen { index: 0 })
    ));
}

#[test]
fn draft_protocol_tests_given_finished_draft_when_more_events_then_event_after_finish() {
    let mut draft = draft();
    draft.apply(finish_with(StopReason::EndTurn)).unwrap();
    assert!(matches!(
        draft.apply(finish_with(StopReason::EndTurn)),
        Err(MessageError::EventAfterFinish)
    ));
}

#[test]
fn draft_protocol_tests_given_draft_without_finish_event_when_finish_then_missing_finish() {
    let draft = draft();
    assert!(matches!(
        draft.finish(None),
        Err(MessageError::MissingFinish)
    ));
}

#[test]
fn draft_tests_given_full_stream_when_folded_then_step_built_in_order() {
    let draft = folded(vec![
        start(0, BlockKind::Thinking),
        StreamEvent::ThinkingDelta {
            index: 0,
            text: "let me ".to_owned(),
        },
        StreamEvent::ThinkingDelta {
            index: 0,
            text: "think".to_owned(),
        },
        StreamEvent::SignatureDelta {
            index: 0,
            signature: "sig==".to_owned(),
        },
        end(0),
        call_start(1, "call_1", "search"),
        StreamEvent::ToolCallArgumentsDelta {
            index: 1,
            json_fragment: "{\"q\":".to_owned(),
        },
        StreamEvent::ToolCallArgumentsDelta {
            index: 1,
            json_fragment: "\"rust\"}".to_owned(),
        },
        end(1),
        finish_with(StopReason::AwaitingToolResults),
    ]);
    let step = draft
        .finish(Some(ModelId::new("fable-5-1").unwrap()))
        .unwrap();
    assert_eq!(step.thinking().len(), 1);
    assert_eq!(step.thinking()[0].text, "let me think");
    assert_eq!(step.thinking()[0].signature.as_ref().unwrap().as_str(), "sig==");
    let call = step.tool_calls()[0];
    assert_eq!(call.arguments, JsonValue::parse("{ \"q\": \"rust\" }").unwrap());
    assert_eq!(step.model().unwrap().as_str(), "fable-5-1");
}

#[test]
fn draft_tests_given_delta_with_no_open_block_when_applied_then_no_open_block() {
    let mut draft = draft();
    assert!(matches!(
        draft.apply(StreamEvent::TextDelta {
            index: 0,
            text: "hi".to_owned()
        }),
        Err(MessageError::NoOpenBlock { index: 0 })
    ));
}

#[test]
fn draft_tests_given_open_block_when_start_again_then_block_still_open() {
    let mut draft = draft();
    draft.apply(start(0, BlockKind::Text)).unwrap();
    assert!(matches!(
        draft.apply(start(1, BlockKind::Text)),
        Err(MessageError::BlockStillOpen { index: 0 })
    ));
}

#[test]
fn draft_tests_given_wrong_kind_delta_when_applied_then_kind_mismatch() {
    let mut draft = draft();
    draft.apply(start(0, BlockKind::Thinking)).unwrap();
    assert!(matches!(
        draft.apply(StreamEvent::TextDelta {
            index: 0,
            text: "hi".to_owned()
        }),
        Err(MessageError::BlockKindMismatch { index: 0 })
    ));
}

#[test]
fn draft_tests_given_unexpected_index_when_start_then_refused() {
    let mut draft = draft();
    assert!(matches!(
        draft.apply(start(5, BlockKind::Text)),
        Err(MessageError::UnexpectedBlockIndex {
            expected: 0,
            given: 5
        })
    ));
}

#[test]
fn draft_tests_given_block_start_tool_call_kind_when_applied_then_needs_start() {
    let mut draft = draft();
    assert!(matches!(
        draft.apply(start(0, BlockKind::ToolCall)),
        Err(MessageError::ToolCallNeedsStart)
    ));
}

#[test]
fn draft_tests_given_open_block_when_finish_then_block_still_open() {
    let mut draft = draft();
    draft.apply(start(0, BlockKind::Text)).unwrap();
    assert!(matches!(
        draft.apply(finish_with(StopReason::EndTurn)),
        Err(MessageError::BlockStillOpen { index: 0 })
    ));
}

#[test]
fn draft_tests_given_finished_draft_when_more_events_then_event_after_finish() {
    let mut draft = draft();
    draft.apply(finish_with(StopReason::EndTurn)).unwrap();
    assert!(matches!(
        draft.apply(finish_with(StopReason::EndTurn)),
        Err(MessageError::EventAfterFinish)
    ));
}

#[test]
fn draft_tests_given_draft_without_finish_event_when_finish_then_missing_finish() {
    let draft = draft();
    assert!(matches!(
        draft.finish(None),
        Err(MessageError::MissingFinish)
    ));
}

#[test]
fn draft_tests_given_invalid_structured_fragment_when_finish_then_invalid_json() {
    let draft = folded(vec![
        start(0, BlockKind::Structured),
        StreamEvent::StructuredDelta {
            index: 0,
            json_fragment: "{not json".to_owned(),
        },
        end(0),
        finish_with(StopReason::EndTurn),
    ]);
    assert!(matches!(
        draft.finish(None),
        Err(MessageError::InvalidJson {
            field: "structured",
            ..
        })
    ));
}

#[test]
fn draft_tests_given_tool_call_without_arguments_when_finish_then_empty_object() {
    let draft = folded(vec![
        call_start(0, "call_1", "noop"),
        end(0),
        finish_with(StopReason::AwaitingToolResults),
    ]);
    let step = draft.finish(None).unwrap();
    let call = step.tool_calls()[0];
    assert_eq!(call.arguments, JsonValue::empty_object());
    assert_eq!(call.arguments.as_str(), "{}");
}

#[test]
fn draft_assembly_tests_given_full_stream_when_folded_then_step_built_in_order() {
    let draft = folded(vec![
        start(0, BlockKind::Thinking),
        StreamEvent::ThinkingDelta {
            index: 0,
            text: "let me ".to_owned(),
        },
        StreamEvent::ThinkingDelta {
            index: 0,
            text: "think".to_owned(),
        },
        StreamEvent::SignatureDelta {
            index: 0,
            signature: "sig==".to_owned(),
        },
        end(0),
        call_start(1, "call_1", "search"),
        StreamEvent::ToolCallArgumentsDelta {
            index: 1,
            json_fragment: "{\"q\":".to_owned(),
        },
        StreamEvent::ToolCallArgumentsDelta {
            index: 1,
            json_fragment: "\"rust\"}".to_owned(),
        },
        end(1),
        finish_with(StopReason::AwaitingToolResults),
    ]);
    let step = draft
        .finish(Some(ModelId::new("fable-5-1").unwrap()))
        .unwrap();
    assert_eq!(step.thinking().len(), 1);
    assert_eq!(step.thinking()[0].text, "let me think");
    assert_eq!(step.thinking()[0].signature.as_ref().unwrap().as_str(), "sig==");
    let call = step.tool_calls()[0];
    assert_eq!(call.arguments, JsonValue::parse("{ \"q\": \"rust\" }").unwrap());
    assert_eq!(step.model().unwrap().as_str(), "fable-5-1");
}

#[test]
fn draft_assembly_error_tests_given_invalid_structured_fragment_when_finish_then_invalid_json() {
    let draft = folded(vec![
        start(0, BlockKind::Structured),
        StreamEvent::StructuredDelta {
            index: 0,
            json_fragment: "{not json".to_owned(),
        },
        end(0),
        finish_with(StopReason::EndTurn),
    ]);
    assert!(matches!(
        draft.finish(None),
        Err(MessageError::InvalidJson {
            field: "structured",
            ..
        })
    ));
}

#[test]
fn draft_assembly_tests_given_tool_call_without_arguments_when_finish_then_empty_object() {
    let draft = folded(vec![
        call_start(0, "call_1", "noop"),
        end(0),
        finish_with(StopReason::AwaitingToolResults),
    ]);
    let step = draft.finish(None).unwrap();
    let call = step.tool_calls()[0];
    assert_eq!(call.arguments, JsonValue::empty_object());
    assert_eq!(call.arguments.as_str(), "{}");
}

#[test]
fn given_foreign_delta_on_open_block_when_applied_then_kind_mismatch() {
    let cases: Vec<(BlockKind, StreamEvent)> = vec![
        (
            BlockKind::Text,
            StreamEvent::SignatureDelta {
                index: 0,
                signature: "sig".to_owned(),
            },
        ),
        (
            BlockKind::Text,
            StreamEvent::ThinkingDelta {
                index: 0,
                text: "t".to_owned(),
            },
        ),
        (
            BlockKind::Text,
            StreamEvent::RedactedThinkingData {
                index: 0,
                data: "enc==".to_owned(),
            },
        ),
        (
            BlockKind::Structured,
            StreamEvent::ToolCallArgumentsDelta {
                index: 0,
                json_fragment: "{}".to_owned(),
            },
        ),
        (
            BlockKind::RedactedThinking,
            StreamEvent::TextDelta {
                index: 0,
                text: "x".to_owned(),
            },
        ),
    ];
    for (kind, delta) in cases {
        let mut draft = draft();
        draft.apply(start(0, kind)).unwrap();
        assert!(matches!(
            draft.apply(delta),
            Err(MessageError::BlockKindMismatch { index: 0 })
        ));
    }
}

#[test]
fn given_structured_delta_on_tool_call_block_when_applied_then_kind_mismatch() {
    let mut draft = draft();
    draft.apply(call_start(0, "call_1", "search")).unwrap();
    assert!(matches!(
        draft.apply(StreamEvent::StructuredDelta {
            index: 0,
            json_fragment: "{}".to_owned()
        }),
        Err(MessageError::BlockKindMismatch { index: 0 })
    ));
}

#[test]
fn given_block_end_with_no_open_block_when_applied_then_no_open_block() {
    let mut draft = draft();
    assert!(matches!(
        draft.apply(end(0)),
        Err(MessageError::NoOpenBlock { index: 0 })
    ));
}

#[test]
fn given_block_end_with_wrong_index_when_applied_then_no_open_block() {
    let mut draft = draft();
    draft.apply(start(0, BlockKind::Text)).unwrap();
    assert!(matches!(
        draft.apply(end(1)),
        Err(MessageError::NoOpenBlock { index: 1 })
    ));
}

#[test]
fn given_redacted_thinking_stream_without_data_when_finished_then_blank() {
    let draft = folded(vec![
        start(0, BlockKind::RedactedThinking),
        end(0),
        finish_with(StopReason::EndTurn),
    ]);
    assert!(matches!(
        draft.finish(None),
        Err(MessageError::Blank {
            field: "redacted_thinking_data"
        })
    ));
}

#[test]
fn given_invalid_tool_arguments_fragment_when_finish_then_invalid_json() {
    let draft = folded(vec![
        call_start(0, "call_1", "search"),
        StreamEvent::ToolCallArgumentsDelta {
            index: 0,
            json_fragment: "{not json".to_owned(),
        },
        end(0),
        finish_with(StopReason::AwaitingToolResults),
    ]);
    assert!(matches!(
        draft.finish(None),
        Err(MessageError::InvalidJson {
            field: "tool_arguments",
            ..
        })
    ));
}

#[test]
fn given_finish_with_no_blocks_when_finish_then_empty_step() {
    let draft = folded(vec![finish_with(StopReason::EndTurn)]);
    assert!(matches!(draft.finish(None), Err(MessageError::EmptyStep)));
}

#[test]
fn given_empty_structured_block_when_finish_then_invalid_json() {
    let draft = folded(vec![
        start(0, BlockKind::Structured),
        end(0),
        finish_with(StopReason::EndTurn),
    ]);
    assert!(matches!(
        draft.finish(None),
        Err(MessageError::InvalidJson {
            field: "structured",
            ..
        })
    ));
}

#[test]
fn given_empty_text_block_when_finish_then_blank_text() {
    let draft = folded(vec![
        start(0, BlockKind::Text),
        end(0),
        finish_with(StopReason::EndTurn),
    ]);
    assert!(matches!(
        draft.finish(None),
        Err(MessageError::Blank { field: "text" })
    ));
}

#[test]
fn given_tool_call_with_non_awaiting_finish_when_finish_then_tool_calls_without_awaiting() {
    let draft = folded(vec![
        call_start(0, "call_1", "search"),
        end(0),
        finish_with(StopReason::EndTurn),
    ]);
    assert!(matches!(
        draft.finish(None),
        Err(MessageError::ToolCallsWithoutAwaiting)
    ));
}

#[test]
fn given_tool_call_before_text_block_when_finish_then_tool_call_not_at_tail() {
    let draft = folded(vec![
        call_start(0, "call_1", "search"),
        end(0),
        start(1, BlockKind::Text),
        StreamEvent::TextDelta {
            index: 1,
            text: "trailing".to_owned(),
        },
        end(1),
        finish_with(StopReason::AwaitingToolResults),
    ]);
    assert!(matches!(
        draft.finish(None),
        Err(MessageError::ToolCallNotAtTail)
    ));
}

#[test]
fn given_redacted_thinking_stream_when_finished_then_data_preserved() {
    let draft = folded(vec![
        start(0, BlockKind::RedactedThinking),
        StreamEvent::RedactedThinkingData {
            index: 0,
            data: "enc==".to_owned(),
        },
        end(0),
        finish_with(StopReason::EndTurn),
    ]);
    let step = draft.finish(None).unwrap();
    assert!(matches!(
        step.content(),
        [AssistantBlock::RedactedThinking(redacted)] if redacted.data() == "enc=="
    ));
}

#[test]
fn given_valid_structured_stream_when_finish_then_value_parsed() {
    let draft = folded(vec![
        start(0, BlockKind::Structured),
        StreamEvent::StructuredDelta {
            index: 0,
            json_fragment: "{\"a\":".to_owned(),
        },
        StreamEvent::StructuredDelta {
            index: 0,
            json_fragment: "1}".to_owned(),
        },
        end(0),
        finish_with(StopReason::EndTurn),
    ]);
    let step = draft.finish(None).unwrap();
    assert_eq!(
        step.structured()[0],
        &JsonValue::parse("{ \"a\": 1 }").unwrap()
    );
}

#[test]
fn given_refused_event_when_applied_then_draft_unchanged_and_usable() {
    let mut draft = draft();
    draft.apply(start(0, BlockKind::Text)).unwrap();
    assert!(draft.apply(start(3, BlockKind::Text)).is_err());
    draft
        .apply(StreamEvent::TextDelta {
            index: 0,
            text: "hel".to_owned(),
        })
        .unwrap();
    assert!(draft
        .apply(StreamEvent::ThinkingDelta {
            index: 0,
            text: "x".to_owned()
        })
        .is_err());
    draft
        .apply(StreamEvent::TextDelta {
            index: 0,
            text: "lo".to_owned(),
        })
        .unwrap();
    draft.apply(end(0)).unwrap();
    draft
        .apply(StreamEvent::Finish {
            stop_reason: StopReason::MaxTokens,
            usage: Some(Usage {
                input_tokens: 3,
                output_tokens: 4,
                ..Usage::default()
            }),
        })
        .unwrap();
    let step = draft.finish(None).unwrap();
    assert_eq!(step.text()[0].as_str(), "hello");
    assert_eq!(step.stop_reason(), &StopReason::MaxTokens);
    assert_eq!(step.usage().unwrap().output_tokens, 4);
}

#[test]
fn given_whitespace_only_arguments_when_finish_then_empty_object() {
    let draft = folded(vec![
        call_start(0, "c", "noop"),
        StreamEvent::ToolCallArgumentsDelta {
            index: 0,
            json_fragment: " \n ".to_owned(),
        },
        end(0),
        finish_with(StopReason::AwaitingToolResults),
    ]);
    let step = StepDraft::finish(draft, None).unwrap();
    assert_eq!(step.tool_calls()[0].arguments.as_str(), "{}");
}

#[test]
fn given_signature_delta_without_data_when_finish_then_blank_signature() {
    let draft = folded(vec![
        start(0, BlockKind::Thinking),
        StreamEvent::SignatureDelta {
            index: 0,
            signature: String::new(),
        },
        end(0),
        finish_with(StopReason::EndTurn),
    ]);
    assert!(matches!(
        draft.finish(None),
        Err(MessageError::Blank { field: "signature" })
    ));
}

#[test]
fn given_default_draft_when_finished_then_missing_finish() {
    let draft = StepDraft::default();
    assert!(matches!(
        draft.finish(None),
        Err(MessageError::MissingFinish)
    ));
}

#[test]
fn given_parse_outcome_when_mapped_to_field_then_error_names_the_field() {
    assert_eq!(
        field_json(Err("EOF while parsing".to_owned()), "structured"),
        Err(MessageError::InvalidJson {
            field: "structured",
            message: "EOF while parsing".to_owned()
        })
    );
    assert_eq!(
        field_json(Ok(JsonValue::empty_object()), "tool_arguments"),
        Ok(JsonValue::empty_object())
    );
}
