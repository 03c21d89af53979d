use llm_messages::{
    AssistantBlock, Author, Base64Data, Image, ImageMime, JsonValue, MessageError,
    RedactedThinking, Signature, StopReason, Text, Thinking, ToolCall, ToolCallId, ToolName,
    ToolResult, ToolResultBlock, ToolResults, UserBlock, UserInput, UserSource,
};

fn result(id: &str) -> ToolResult {
    ToolResult::new(
        ToolCallId::new(id).unwrap(),
        ToolName::new("search").unwrap(),
        Vec::new(),
        false,
    )
}

fn text(body: &str) -> UserBlock {
    UserBlock::text(Text::new(body).unwrap())
}

#[test]
fn given_redacted_thinking_when_empty_data_then_refused_both_ways() {
    assert!(matches!(
        RedactedThinking::new(""),
        Err(MessageError::Blank {
            field: "redacted_thinking_data"
        })
    ));
    assert!(matches!(
        RedactedThinking::from_string(String::new()),
        Err(MessageError::Blank {
            field: "redacted_thinking_data"
        })
    ));
    assert_eq!(RedactedThinking::new("opaque").unwrap().data(), "opaque");
}

#[test]
fn given_tool_call_when_read_then_accessors_agree() {
    let block = AssistantBlock::ToolCall(ToolCall {
        id: ToolCallId::new("call_1").unwrap(),
        name: ToolName::new("search").unwrap(),
        arguments: JsonValue::parse("{ \"q\" : \"rust\" }").unwrap(),
    });
    assert!(block.is_tool_call());
    let call = block.as_tool_call().unwrap();
    assert_eq!(call.id.as_str(), "call_1");
    assert_eq!(call.arguments.as_str(), "{\"q\":\"rust\"}");
    assert!(block.as_text().is_none());
    assert!(block.as_thinking().is_none());
    assert!(block.as_structured().is_none());
}

#[test]
fn given_each_block_kind_when_read_then_only_its_accessor_answers() {
    let text = AssistantBlock::Text {
        text: Text::new("hi").unwrap(),
    };
    assert_eq!(text.as_text().unwrap().as_str(), "hi");
    assert!(!text.is_tool_call());
    let thinking = AssistantBlock::Thinking(Thinking {
        text: String::new(),
        signature: Some(Signature::new("sig==").unwrap()),
    });
    assert_eq!(thinking.as_thinking().unwrap().text, "");
    assert!(thinking.as_text().is_none());
    let structured = AssistantBlock::Structured {
        value: JsonValue::parse("[1, 2, 3]").unwrap(),
    };
    assert_eq!(structured.as_structured().unwrap().as_str(), "[1,2,3]");
    assert!(structured.as_tool_call().is_none());
    let redacted = AssistantBlock::RedactedThinking(RedactedThinking::new("x").unwrap());
    assert!(redacted.as_text().is_none());
    assert!(!redacted.is_tool_call());
}

#[test]
fn given_json_text_when_parsed_then_canonical_compact_form() {
    assert_eq!(
        JsonValue::parse("{ \"answer\" : 42 }").unwrap().as_str(),
        "{\"answer\":42}"
    );
    assert_eq!(JsonValue::empty_object().as_str(), "{}");
    assert_eq!(JsonValue::parse("  \"x\" ").unwrap().to_string(), "\"x\"");
    assert!(JsonValue::parse("{").is_err());
    assert!(JsonValue::parse("").is_err());
}

#[test]
fn given_result_parts_when_built_then_kept() {
    let result = ToolResult::new(
        ToolCallId::new("call_2").unwrap(),
        ToolName::new("search").unwrap(),
        vec![ToolResultBlock::text(Text::new("boom").unwrap())],
        true,
    );
    assert_eq!(result.tool_call_id.as_str(), "call_2");
    assert_eq!(result.tool_name.as_str(), "search");
    assert_eq!(result.content.len(), 1);
    assert!(result.is_error);
    assert_eq!(result.clone(), result);
}

#[test]
fn given_user_blocks_when_built_then_kept() {
    let data = Base64Data::new("aGVsbG8=").unwrap();
    let block = UserBlock::image(ImageMime::Png, data.clone());
    assert_eq!(
        block,
        UserBlock::Image(Image {
            mime: ImageMime::Png,
            data
        })
    );
    assert_eq!(
        text("hi"),
        UserBlock::Text {
            text: Text::new("hi").unwrap()
        }
    );
}

#[test]
fn given_unique_results_when_pushed_then_collected_in_order() {
    let mut results = ToolResults::empty();
    results.push(result("a")).unwrap();
    results.push(result("b")).unwrap();
    let ids: Vec<&str> = results.ids().into_iter().map(ToolCallId::as_str).collect();
    assert_eq!(ids, vec!["a", "b"]);
}

#[test]
fn given_duplicate_id_when_pushed_then_refused_both_ways() {
    let mut results = ToolResults::empty();
    results.push(result("dup")).unwrap();
    assert!(matches!(
        results.push(result("dup")),
        Err(MessageError::DuplicateToolResultId { .. })
    ));
    assert_eq!(results.len(), 1);
    assert!(matches!(
        ToolResults::from_results(vec![result("dup"), result("dup")]),
        Err(MessageError::DuplicateToolResultId { .. })
    ));
}

#[test]
fn given_pushed_result_when_contains_then_found() {
    let mut results = ToolResults::default();
    assert!(results.is_empty());
    assert!(!results.contains(&ToolCallId::new("a").unwrap()));
    results.push(result("a")).unwrap();
    assert!(results.contains(&ToolCallId::new("a").unwrap()));
    assert!(!results.contains(&ToolCallId::new("b").unwrap()));
    assert!(!results.is_empty());
}

#[test]
fn given_results_with_distinct_ids_when_collected_then_kept_in_order() {
    let results = ToolResults::from_results(vec![result("x"), result("y"), result("z")]).unwrap();
    assert_eq!(results.len(), 3);
    assert_eq!(results.results()[1].tool_call_id.as_str(), "y");
    let err = ToolResults::from_results(vec![result("x"), result("y"), result("y"), result("x")]);
    assert_eq!(
        err,
        Err(MessageError::DuplicateToolResultId {
            id: ToolCallId::new("y").unwrap()
        })
    );
    let back = results.clone().into_results();
    assert_eq!(back.len(), 3);
    assert_eq!(back[2].tool_call_id.as_str(), "z");
}

#[test]
fn given_empty_runtime_kind_when_new_then_blank_both_ways() {
    assert!(matches!(
        UserSource::runtime(""),
        Err(MessageError::Blank {
            field: "runtime_kind"
        })
    ));
    assert_eq!(
        UserSource::runtime("cron").unwrap(),
        UserSource::Runtime {
            kind: "cron".to_owned()
        }
    );
}

#[test]
fn user_input_given_empty_content_when_new_then_refused_both_ways() {
    assert!(matches!(
        UserInput::new(UserSource::Human, None, Vec::new()),
        Err(MessageError::EmptyUserContent)
    ));
}

#[test]
fn given_input_with_author_when_read_then_parts_kept() {
    let input = UserInput::new(
        UserSource::runtime("task notification").unwrap(),
        Some(Author::new("scheduler").unwrap()),
        vec![text("wake up")],
    )
    .unwrap();
    assert_eq!(input.author().unwrap().as_str(), "scheduler");
    assert_eq!(input.content(), &[text("wake up")][..]);
    assert_eq!(
        input.source(),
        &UserSource::Runtime {
            kind: "task notification".to_owned()
        }
    );
    assert_eq!(input.to_string(), "input[runtime:task notification] scheduler");
    let human = UserInput::new(UserSource::Human, None, vec![text("hi")]).unwrap();
    assert_eq!(human.to_string(), "input[human]");
    assert_eq!(human.clone(), human);
}

#[test]
fn given_stop_reasons_when_displayed_then_snake_case() {
    assert_eq!(StopReason::EndTurn.to_string(), "end_turn");
    assert_eq!(StopReason::AwaitingToolResults.to_string(), "awaiting_tool_results");
    assert_eq!(StopReason::MaxTokens.to_string(), "max_tokens");
    assert_eq!(StopReason::StopSequence.to_string(), "stop_sequence");
    assert_eq!(StopReason::Refusal.to_string(), "refusal");
    assert_eq!(StopReason::ContentFilter.to_string(), "content_filter");
    assert_eq!(
        StopReason::Other {
            reason: "pause_turn".to_owned()
        }
        .to_string(),
        "other(pause_turn)"
    );
    assert!(StopReason::AwaitingToolResults.is_awaiting_tool_results());
    assert!(!StopReason::EndTurn.is_awaiting_tool_results());
}

#[test]
fn given_json_values_when_compared_then_by_value_not_by_text() {
    let negative_zero = JsonValue::parse("-0.0").unwrap();
    let zero = JsonValue::parse("0.0").unwrap();
    assert_eq!(negative_zero.as_str(), "-0.0");
    assert_eq!(zero.as_str(), "0.0");
    assert_eq!(negative_zero, zero);
    assert_ne!(JsonValue::parse("1").unwrap(), JsonValue::parse("1.0").unwrap());
    assert_eq!(
        JsonValue::parse("{\"b\": 1, \"a\": [true, null]}").unwrap(),
        JsonValue::parse("{\"a\":[true,null],\"b\":1}").unwrap()
    );
    assert_ne!(JsonValue::parse("[1,2]").unwrap(), JsonValue::parse("[2,1]").unwrap());
    assert_eq!(
        AssistantBlock::Structured {
            value: JsonValue::parse("{\"x\": -0.0}").unwrap()
        },
        AssistantBlock::Structured {
            value: JsonValue::parse("{\"x\": 0.0}").unwrap()
        }
    );
}
