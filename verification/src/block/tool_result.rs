use vstd::prelude::*;

use crate::value::{Text, ToolCallId, ToolName};

verus! {

#[derive(Debug, PartialEq)]
#[non_exhaustive]
pub enum ToolResultBlock {
    Text { text: Text },
}

#[derive(Debug, PartialEq)]
pub struct ToolResult {
    pub tool_call_id: ToolCallId,
    pub tool_name: ToolName,
    pub content: Vec<ToolResultBlock>,
    pub is_error: bool,
}

impl Clone for ToolResultBlock {
    fn clone(&self) -> (r: Self)
        ensures
            r == *self,
    {
        match self {
            ToolResultBlock::Text { text } => ToolResultBlock::Text { text: text.clone() },
        }
    }
}

impl ToolResultBlock {
    pub fn text(text: Text) -> (r: Self)
        ensures
            r == (ToolResultBlock::Text { text }),
    {
        ToolResultBlock::Text { text }
    }
}

/// Two results that agree on every field (the content by its elements).
pub open spec fn same_result(a: ToolResult, b: ToolResult) -> bool {
    &&& a.tool_call_id == b.tool_call_id
    &&& a.tool_name == b.tool_name
    &&& a.content@ == b.content@
    &&& a.is_error == b.is_error
}

impl Clone for ToolResult {
    fn clone(&self) -> (r: Self)
        ensures
            same_result(r, *self),
    {
        let mut content: Vec<ToolResultBlock> = Vec::new();
        for i in 0..self.content.len()
            invariant
                content@ == self.content@.take(i as int),
        {
            content.push(self.content[i].clone());
            assert(content@ =~= self.content@.take(i + 1));
        }
        assert(content@ =~= self.content@);
        ToolResult {
            tool_call_id: self.tool_call_id.clone(),
            tool_name: self.tool_name.clone(),
            content,
            is_error: self.is_error,
        }
    }
}

impl ToolResult {
    pub fn new(
        tool_call_id: ToolCallId,
        tool_name: ToolName,
        content: Vec<ToolResultBlock>,
        is_error: bool,
    ) -> (r: Self)
        ensures
            r.tool_call_id == tool_call_id,
            r.tool_name == tool_name,
            r.content == content,
            r.is_error == is_error,
    {
        ToolResult { tool_call_id, tool_name, content, is_error }
    }
}

} // verus!
