use llm_messages::{
    AssistantBlock, JsonValue, MessageError, ModelId, RedactedThinking, Step, StopReason, Text,
    Thinking, ToolCall, ToolCallId, ToolName, Usage,
};

fn text_block(body: &str) -> AssistantBlock {
    AssistantBlock::Text {
        text: Text::new(body).unwrap(),
    }
}

fn call_block(id: &str) -> AssistantBlock {
    AssistantBlock::ToolCall(ToolCall {
        id: ToolCallId::new(id).unwrap(),
        name: ToolName::new("search").unwrap(),
        arguments: JsonValue::empty_object(),
    })
}

#[test]
fn step_tests_given_empty_content_when_new_then_refused_both_ways() {
    assert!(matches!(
        Step::new(Vec::new(), StopReason::EndTurn, None, None),
        Err(MessageError::EmptyStep)
    ));
}

#[test]
fn given_text_after_tool_call_when_new_then_not_at_tail_both_ways() {
    let content = vec![call_block("call_1"), text_block("after")];
    assert!(matches!(
        Step::new(content, StopReason::AwaitingToolResults, None, None),
        Err(MessageError::ToolCallNotAtTail)
    ));
}

#[test]
fn given_tool_calls_as_tail_when_new_then_accepted() {
    let content = vec![
        text_block("before"),
        call_block("call_1"),
        call_block("call_2"),
    ];
    assert!(Step::new(content, StopReason::AwaitingToolResults, None, None).is_ok());
}

#[test]
fn given_awaiting_without_tool_calls_when_new_then_refused_both_ways() {
    let content = vec![text_block("hi")];
    assert!(matches!(
        Step::new(content, StopReason::AwaitingToolResults, None, None),
        Err(MessageError::AwaitingToolResultsWithoutCalls)
    ));
}

#[test]
fn given_tool_calls_without_awaiting_when_new_then_refused_both_ways() {
    let content = vec![call_block("call_1")];
    assert!(matches!(
        Step::new(content, StopReason::EndTurn, None, None),
        Err(MessageError::ToolCallsWithoutAwaiting)
    ));
}

#[test]
fn given_duplicate_tool_call_ids_when_new_then_refused_both_ways() {
    let content = vec![call_block("dup"), call_block("dup")];
    assert!(matches!(
        Step::new(content, StopReason::AwaitingToolResults, None, None),
        Err(MessageError::DuplicateToolCallId { .. })
    ));
}

#[test]
fn given_mixed_step_when_accessors_read_then_order_preserved() {
    let content = vec![
        AssistantBlock::Thinking(Thinking {
            text: "hmm".to_owned(),
            signature: None,
        }),
        text_block("one"),
        text_block("two"),
        call_block("call_1"),
    ];
    let step = Step::new(content, StopReason::AwaitingToolResults, None, None).unwrap();
    let texts: Vec<&str> = step.text().into_iter().map(Text::as_str).collect();
    assert_eq!(texts, vec!["one", "two"]);
    assert_eq!(step.thinking().len(), 1);
    assert_eq!(step.tool_calls().len(), 1);
}

#[test]
fn given_step_with_usage_and_model_when_read_then_kept() {
    let usage = Usage {
        input_tokens: 5,
        output_tokens: 7,
        ..Usage::default()
    };
    let step = Step::new(
        vec![text_block("done")],
        StopReason::EndTurn,
        Some(usage.clone()),
        Some(ModelId::new("fable-5-1").unwrap()),
    )
    .unwrap();
    assert_eq!(step.usage(), Some(&usage));
    assert_eq!(step.model().unwrap().as_str(), "fable-5-1");
    assert_eq!(step.stop_reason(), &StopReason::EndTurn);
    assert_eq!(step.content().len(), 1);
    assert_eq!(step.clone(), step);
}

#[test]
fn given_duplicate_ids_when_new_then_first_repeated_id_reported() {
    let content = vec![
        call_block("a"),
        call_block("b"),
        call_block("b"),
        call_block("a"),
    ];
    assert_eq!(
        Step::new(content, StopReason::AwaitingToolResults, None, None),
        Err(MessageError::DuplicateToolCallId {
            id: ToolCallId::new("b").unwrap()
        })
    );
}

#[test]
fn given_call_before_text_and_wrong_reason_when_new_then_tail_rule_first() {
    let content = vec![call_block("a"), text_block("after")];
    assert_eq!(
        Step::new(content, StopReason::EndTurn, None, None),
        Err(MessageError::ToolCallNotAtTail)
    );
}

#[test]
fn given_structured_block_when_read_then_only_structured_listed() {
    let step = Step::new(
        vec![
            AssistantBlock::Structured {
                value: JsonValue::parse("{\"answer\": 42}").unwrap(),
            },
            text_block("x"),
        ],
        StopReason::MaxTokens,
        None,
        None,
    )
    .unwrap();
    let values: Vec<&str> = step.structured().into_iter().map(JsonValue::as_str).collect();
    assert_eq!(values, vec!["{\"answer\":42}"]);
    assert!(step.thinking().is_empty());
    assert!(step.tool_calls().is_empty());
}

#[test]
fn given_step_when_displayed_then_blocks_summarised() {
    let step = Step::new(
        vec![
            AssistantBlock::Thinking(Thinking {
                text: "hmm".to_owned(),
                signature: None,
            }),
            AssistantBlock::RedactedThinking(RedactedThinking::new("zz").unwrap()),
            AssistantBlock::Structured {
                value: JsonValue::empty_object(),
            },
            text_block("hi"),
            call_block("c1"),
        ],
        StopReason::AwaitingToolResults,
        None,
        None,
    )
    .unwrap();
    assert_eq!(
        step.to_string(),
        "step[awaiting_tool_results] thinking redacted_thinking structured text(hi) tool_call(search)"
    );
}
