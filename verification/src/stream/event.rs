use vstd::prelude::*;

use crate::stop_reason::StopReason;
use crate::usage::Usage;
use crate::value::{ToolCallId, ToolName};

verus! {

#[derive(Debug, Clone, Copy, PartialEq, Eq)]
pub enum BlockKind {
    Text,
    Thinking,
    RedactedThinking,
    Structured,
    ToolCall,
}

#[allow(inconsistent_fields)]
#[derive(Debug, Clone, PartialEq)]
pub enum StreamEvent {
    BlockStart { index: usize, kind: BlockKind },
    TextDelta { index: usize, text: String },
    ThinkingDelta { index: usize, text: String },
    SignatureDelta { index: usize, signature: String },
    RedactedThinkingData { index: usize, data: String },
    StructuredDelta { index: usize, json_fragment: String },
    ToolCallStart { index: usize, id: ToolCallId, name: ToolName },
    ToolCallArgumentsDelta { index: usize, json_fragment: String },
    BlockEnd { index: usize },
    Finish { stop_reason: StopReason, usage: Option<Usage> },
}

} // verus!
