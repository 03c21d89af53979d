pub mod block;
pub mod conversation;
pub mod error;
pub mod json;
pub mod render;
pub mod step;
pub mod stream;
pub mod strings;
pub mod stop_reason;
pub mod tool_results;
pub mod turn;
pub mod usage;
pub mod user_input;
pub mod value;

pub use block::{
    AssistantBlock, Image, RedactedThinking, Thinking, ToolCall, ToolResult, ToolResultBlock,
    UserBlock,
};
pub use error::{MessageError, TurnStateLabel};
pub use json::JsonValue;
pub use stop_reason::StopReason;
pub use usage::Usage;
pub use value::{
    Author, Base64Data, ImageMime, ModelId, Signature, Text, ToolCallId, ToolName, TurnId,
};
pub use step::Step;
pub use tool_results::ToolResults;
pub use stream::{BlockKind, StepDraft, StreamEvent};
pub use turn::{Turn, TurnItem, TurnState};
pub use user_input::{UserInput, UserSource};
pub use conversation::{Conversation, Entry, SCHEMA_VERSION};
