use llm_messages::{
    AssistantBlock, Author, JsonValue, MessageError, Step, StopReason, Text, ToolCall, ToolCallId,
    ToolName, ToolResult, ToolResults, Turn, TurnId, TurnItem, TurnState, TurnStateLabel,
};

fn step_await(ids: &[&str]) -> Step {
    let mut content = vec![AssistantBlock::Text {
        text: Text::new("calling").unwrap(),
    }];
    for id in ids {
        content.push(AssistantBlock::ToolCall(ToolCall {
            id: ToolCallId::new(id).unwrap(),
            name: ToolName::new("search").unwrap(),
            arguments: JsonValue::empty_object(),
        }));
    }
    Step::new(content, StopReason::AwaitingToolResults, None, None).unwrap()
}

fn step_end() -> Step {
    Step::new(
        vec![AssistantBlock::Text {
            text: Text::new("done").unwrap(),
        }],
        StopReason::EndTurn,
        None,
        None,
    )
    .unwrap()
}

fn result(id: &str) -> ToolResult {
    ToolResult::new(
        ToolCallId::new(id).unwrap(),
        ToolName::new("search").unwrap(),
        Vec::new(),
        false,
    )
}

fn turn(ids: &[&str]) -> Turn {
    Turn::new(
        TurnId::new("turn-1").unwrap(),
        Some(Author::new("agent-a").unwrap()),
        step_await(ids),
    )
}

fn results(ids: &[&str]) -> ToolResults {
    ToolResults::from_results(ids.iter().map(|id| result(id)).collect()).unwrap()
}

#[test]
fn given_finished_first_step_when_state_then_finished() {
    let turn = Turn::new(TurnId::new("t").unwrap(), None, step_end());
    assert!(matches!(turn.state(), TurnState::Finished { .. }));
}

#[test]
fn given_awaiting_step_when_push_result_all_then_awaiting_step() {
    let mut turn = turn(&["a", "b"]);
    assert!(matches!(
        turn.state(),
        TurnState::AwaitingToolResults { .. }
    ));
    turn.push_result(result("b")).unwrap();
    assert!(matches!(
        turn.state(),
        TurnState::AwaitingToolResults { .. }
    ));
    turn.push_result(result("a")).unwrap();
    assert_eq!(turn.state(), TurnState::AwaitingStep);
}

#[test]
fn given_awaiting_step_when_push_step_then_finished() {
    let mut turn = turn(&["a"]);
    turn.push_result(result("a")).unwrap();
    turn.push_step(step_end()).unwrap();
    assert!(matches!(turn.state(), TurnState::Finished { .. }));
}

#[test]
fn given_foreign_id_when_push_result_then_not_pending() {
    let mut turn = turn(&["a"]);
    assert!(matches!(
        turn.push_result(result("zzz")),
        Err(MessageError::ToolResultNotPending { .. })
    ));
}

#[test]
fn given_already_collected_id_when_push_result_then_duplicate() {
    let mut turn = turn(&["a", "b"]);
    turn.push_result(result("a")).unwrap();
    assert!(matches!(
        turn.push_result(result("a")),
        Err(MessageError::DuplicateToolResultId { .. })
    ));
}

#[test]
fn given_finished_turn_when_push_result_then_not_awaiting_results() {
    let mut turn = Turn::new(TurnId::new("t").unwrap(), None, step_end());
    assert!(matches!(
        turn.push_result(result("a")),
        Err(MessageError::TurnNotAwaitingResults { .. })
    ));
}

#[test]
fn given_awaiting_results_when_push_step_then_not_awaiting_step() {
    let mut turn = turn(&["a"]);
    assert!(matches!(
        turn.push_step(step_end()),
        Err(MessageError::TurnNotAwaitingStep { .. })
    ));
}

#[test]
fn given_all_answered_when_push_step_second_time_then_refused() {
    let mut turn = turn(&["a"]);
    turn.push_result(result("a")).unwrap();
    turn.push_step(step_end()).unwrap();
    assert!(matches!(
        turn.push_step(step_end()),
        Err(MessageError::TurnNotAwaitingStep { .. })
    ));
}

#[test]
fn given_partial_results_item_when_push_results_batch_stops_at_first_refusal() {
    let mut turn = turn(&["a", "b"]);
    let outcome = turn.push_results(vec![result("a"), result("zzz"), result("b")]);
    assert!(matches!(
        outcome,
        Err(MessageError::ToolResultNotPending { .. })
    ));
    let ids: Vec<&str> = match turn.items().last().unwrap() {
        TurnItem::ToolResults(results) => {
            results.ids().into_iter().map(ToolCallId::as_str).collect()
        }
        TurnItem::Step(_) => Vec::new(),
    };
    assert_eq!(ids, vec!["a"]);
}

#[test]
fn given_tool_call_id_reused_across_steps_when_pushed_then_accepted() {
    let mut turn = turn(&["a"]);
    turn.push_result(result("a")).unwrap();
    turn.push_step(step_await(&["a"])).unwrap();
    assert!(matches!(
        turn.state(),
        TurnState::AwaitingToolResults { .. }
    ));
    turn.push_result(result("a")).unwrap();
    assert_eq!(turn.state(), TurnState::AwaitingStep);
}

#[test]
fn given_empty_results_item_when_loaded_then_dropped_deterministically() {
    let items = vec![
        TurnItem::Step(step_await(&["a"])),
        TurnItem::ToolResults(ToolResults::empty()),
    ];
    let turn = Turn::from_items(TurnId::new("t").unwrap(), None, items).unwrap();
    assert_eq!(turn.items().len(), 1);
    assert!(matches!(
        turn.state(),
        TurnState::AwaitingToolResults { .. }
    ));
}

#[test]
fn given_complete_turn_when_round_tripped_then_identical() {
    let mut turn = turn(&["a", "b"]);
    turn.push_result(result("a")).unwrap();
    turn.push_result(result("b")).unwrap();
    turn.push_step(step_end()).unwrap();
    let rebuilt = Turn::from_items(
        turn.id().clone(),
        turn.author().cloned(),
        turn.items().to_vec(),
    );
    assert_eq!(rebuilt.unwrap(), turn);
}

#[test]
fn given_items_starting_with_results_when_loaded_then_must_start_with_step() {
    let items = vec![TurnItem::ToolResults(ToolResults::empty())];
    assert_eq!(
        Turn::from_items(TurnId::new("t").unwrap(), None, items),
        Err(MessageError::TurnMustStartWithStep)
    );
    assert_eq!(
        Turn::from_items(TurnId::new("t").unwrap(), None, Vec::new()),
        Err(MessageError::TurnMustStartWithStep)
    );
}

#[test]
fn given_foreign_result_in_items_when_loaded_then_refused() {
    let items = vec![
        TurnItem::Step(step_await(&["a"])),
        TurnItem::ToolResults(results(&["zzz"])),
    ];
    assert!(Turn::from_items(TurnId::new("t").unwrap(), None, items).is_err());
}

#[test]
fn given_consecutive_steps_without_results_when_loaded_then_refused() {
    let items = vec![
        TurnItem::Step(step_await(&["a"])),
        TurnItem::Step(step_end()),
    ];
    assert_eq!(
        Turn::from_items(TurnId::new("t").unwrap(), None, items),
        Err(MessageError::TurnNotAwaitingStep {
            state: TurnStateLabel::AwaitingToolResults
        })
    );
}

#[test]
fn given_pending_calls_when_state_then_listed_in_call_order() {
    let mut turn = turn(&["a", "b", "c"]);
    turn.push_result(result("b")).unwrap();
    let pending = match turn.state() {
        TurnState::AwaitingToolResults { pending } => pending,
        other => panic!("unexpected state {other:?}"),
    };
    let ids: Vec<&str> = pending.iter().map(ToolCallId::as_str).collect();
    assert_eq!(ids, vec!["a", "c"]);
    assert_eq!(turn.state().label(), TurnStateLabel::AwaitingToolResults);
}

#[test]
fn given_foreign_id_when_push_result_then_pending_listed_and_turn_unchanged() {
    let mut turn = turn(&["a", "b"]);
    let before = turn.clone();
    assert_eq!(
        turn.push_result(result("zzz")),
        Err(MessageError::ToolResultNotPending {
            given: ToolCallId::new("zzz").unwrap(),
            pending: vec![ToolCallId::new("a").unwrap(), ToolCallId::new("b").unwrap()],
        })
    );
    assert_eq!(turn, before);
}

#[test]
fn given_results_for_two_steps_when_loaded_then_items_kept() {
    let items = vec![
        TurnItem::Step(step_await(&["a", "b"])),
        TurnItem::ToolResults(results(&["b", "a"])),
        TurnItem::Step(step_await(&["c"])),
        TurnItem::ToolResults(results(&["c"])),
        TurnItem::Step(step_end()),
    ];
    let expected = items.clone();
    let turn = Turn::from_items(
        TurnId::new("t").unwrap(),
        Some(Author::new("agent-a").unwrap()),
        items,
    )
    .unwrap();
    assert_eq!(turn.items(), &expected[..]);
    assert!(matches!(turn.state(), TurnState::Finished { .. }));
}

#[test]
fn given_turn_when_displayed_then_id_author_items_and_state() {
    let mut turn = turn(&["a"]);
    assert_eq!(
        turn.to_string(),
        "turn turn-1 by agent-a (1 items, awaiting_tool_results)"
    );
    turn.push_result(result("a")).unwrap();
    assert_eq!(
        turn.to_string(),
        "turn turn-1 by agent-a (2 items, awaiting_step)"
    );
    let plain = Turn::new(TurnId::new("t").unwrap(), None, step_end());
    assert_eq!(plain.to_string(), "turn t (1 items, finished)");
}

#[test]
fn given_awaiting_step_when_step_with_calls_pushed_then_all_calls_pending() {
    let mut turn = turn(&["a"]);
    turn.push_result(result("a")).unwrap();
    turn.push_step(step_await(&["x", "y"])).unwrap();
    let pending = match turn.state() {
        TurnState::AwaitingToolResults { pending } => pending,
        other => panic!("unexpected state {other:?}"),
    };
    let ids: Vec<&str> = pending.iter().map(ToolCallId::as_str).collect();
    assert_eq!(ids, vec!["x", "y"]);
    turn.push_result(result("y")).unwrap();
    turn.push_result(result("x")).unwrap();
    assert_eq!(turn.state(), TurnState::AwaitingStep);
    turn.push_step(step_end()).unwrap();
    assert_eq!(
        turn.state(),
        TurnState::Finished {
            stop_reason: StopReason::EndTurn
        }
    );
}
