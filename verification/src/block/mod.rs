mod assistant;
mod tool_result;
mod user;

pub use assistant::{AssistantBlock, RedactedThinking, Thinking, ToolCall};
pub use tool_result::{ToolResult, ToolResultBlock, same_result};
pub use user::{Image, UserBlock};
