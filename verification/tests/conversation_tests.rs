use llm_messages::{
    AssistantBlock, Author, Conversation, Entry, JsonValue, MessageError, Step, StopReason, Text,
    ToolCall, ToolCallId, ToolName, ToolResult, Turn, TurnId, UserBlock, UserInput, UserSource,
    SCHEMA_VERSION,
};

fn input(body: &str) -> UserInput {
    UserInput::new(
        UserSource::Human,
        None,
        vec![UserBlock::text(Text::new(body).unwrap())],
    )
    .unwrap()
}

fn await_step(id: &str) -> Step {
    Step::new(
        vec![AssistantBlock::ToolCall(ToolCall {
            id: ToolCallId::new(id).unwrap(),
            name: ToolName::new("search").unwrap(),
            arguments: JsonValue::empty_object(),
        })],
        StopReason::AwaitingToolResults,
        None,
        None,
    )
    .unwrap()
}

fn end_step() -> Step {
    Step::new(
        vec![AssistantBlock::Text {
            text: Text::new("done").unwrap(),
        }],
        StopReason::EndTurn,
        None,
        None,
    )
    .unwrap()
}

fn open_turn(turn_id: &str, agent: &str, call: &str) -> Turn {
    Turn::new(
        TurnId::new(turn_id).unwrap(),
        Some(Author::new(agent).unwrap()),
        await_step(call),
    )
}

fn search_result(id: &str) -> ToolResult {
    ToolResult::new(
        ToolCallId::new(id).unwrap(),
        ToolName::new("search").unwrap(),
        Vec::new(),
        false,
    )
}

#[test]
fn given_duplicate_turn_id_when_push_turn_then_refused() {
    let mut conversation = Conversation::new();
    conversation
        .push_turn(open_turn("t1", "agent-a", "c1"))
        .unwrap();
    assert!(matches!(
        conversation.push_turn(open_turn("t1", "agent-b", "c2")),
        Err(MessageError::DuplicateTurnId { .. })
    ));
}

#[test]
fn given_unknown_turn_when_push_result_then_not_found() {
    let mut conversation = Conversation::new();
    let result = search_result("c1");
    assert!(matches!(
        conversation.push_result(&TurnId::new("ghost").unwrap(), result),
        Err(MessageError::TurnNotFound { .. })
    ));
}

#[test]
fn given_two_parallel_agents_when_open_turns_then_both_listed() {
    let mut conversation = Conversation::new();
    conversation
        .push_turn(open_turn("t1", "agent-a", "c1"))
        .unwrap();
    conversation
        .push_turn(open_turn("t2", "agent-b", "c2"))
        .unwrap();
    assert_eq!(conversation.open_turns().len(), 2);
    conversation
        .push_result(&TurnId::new("t1").unwrap(), search_result("c1"))
        .unwrap();
    conversation
        .push_step(&TurnId::new("t1").unwrap(), end_step())
        .unwrap();
    assert_eq!(conversation.open_turns().len(), 1);
}

#[test]
fn given_two_users_and_two_agents_in_a_row_when_pushed_then_order_preserved() {
    let mut conversation = Conversation::new();
    conversation.push_input(input("first"));
    conversation.push_input(input("second"));
    conversation
        .push_turn(open_turn("t1", "agent-a", "c1"))
        .unwrap();
    conversation
        .push_turn(open_turn("t2", "agent-b", "c2"))
        .unwrap();
    assert_eq!(conversation.entries().len(), 4);
    assert!(matches!(conversation.entries()[0], Entry::UserInput(_)));
    assert!(matches!(conversation.entries()[1], Entry::UserInput(_)));
    assert!(matches!(conversation.entries()[2], Entry::Turn(_)));
    assert!(matches!(conversation.entries()[3], Entry::Turn(_)));
}

#[test]
fn given_wrong_schema_when_deserialized_then_refused() {
    assert_eq!(
        Conversation::from_entries("br-llm-messages/999", Vec::new()),
        Err(MessageError::SchemaMismatch {
            found: "br-llm-messages/999".to_owned()
        })
    );
}

#[test]
fn given_two_turns_with_same_id_when_deserialized_then_refused() {
    let one = Turn::new(TurnId::new("t1").unwrap(), None, end_step());
    let two = Turn::new(TurnId::new("t1").unwrap(), None, end_step());
    let entries = vec![Entry::Turn(one), Entry::Turn(two)];
    assert_eq!(
        Conversation::from_entries(SCHEMA_VERSION, entries),
        Err(MessageError::DuplicateTurnId {
            id: TurnId::new("t1").unwrap()
        })
    );
}

#[test]
fn given_conversation_when_round_tripped_then_identical() {
    let mut conversation = Conversation::new();
    conversation.push_input(input("hello"));
    let mut turn = open_turn("t1", "agent-a", "c1");
    turn.push_result(search_result("c1")).unwrap();
    turn.push_step(end_step()).unwrap();
    conversation.push_turn(turn).unwrap();
    let rebuilt = Conversation::from_entries(SCHEMA_VERSION, conversation.entries().to_vec());
    assert_eq!(rebuilt.unwrap(), conversation);
}

#[test]
fn given_known_turn_when_looked_up_then_found() {
    let mut conversation = Conversation::default();
    conversation
        .push_turn(open_turn("t1", "agent-a", "c1"))
        .unwrap();
    assert_eq!(
        conversation.turn(&TurnId::new("t1").unwrap()).unwrap().author().unwrap().as_str(),
        "agent-a"
    );
    assert!(conversation.turn(&TurnId::new("t2").unwrap()).is_none());
    assert!(matches!(
        conversation.push_step(&TurnId::new("t2").unwrap(), end_step()),
        Err(MessageError::TurnNotFound { .. })
    ));
}

#[test]
fn given_open_turn_when_step_pushed_early_then_refused_and_unchanged() {
    let mut conversation = Conversation::new();
    conversation
        .push_turn(open_turn("t1", "agent-a", "c1"))
        .unwrap();
    let before = conversation.entries().to_vec();
    assert!(matches!(
        conversation.push_step(&TurnId::new("t1").unwrap(), end_step()),
        Err(MessageError::TurnNotAwaitingStep { .. })
    ));
    assert_eq!(conversation.entries(), &before[..]);
}

#[test]
fn given_conversation_when_displayed_then_one_line_per_entry() {
    let mut conversation = Conversation::new();
    conversation.push_input(input("hello"));
    conversation
        .push_turn(open_turn("t1", "agent-a", "c1"))
        .unwrap();
    assert_eq!(
        conversation.to_string(),
        "conversation (2 entries)\n  input[human]\n  turn t1 by agent-a (1 items, awaiting_tool_results)\n"
    );
    assert_eq!(SCHEMA_VERSION, "br-llm-messages/1");
}
