use vstd::prelude::*;

use crate::error::MessageError;
use crate::json::JsonValue;
use crate::value::{Signature, Text, ToolCallId, ToolName};

verus! {

#[derive(Debug, PartialEq)]
pub enum AssistantBlock {
    Text { text: Text },
    Thinking(Thinking),
    RedactedThinking(RedactedThinking),
    Structured { value: JsonValue },
    ToolCall(ToolCall),
}

#[derive(Debug, PartialEq, Eq)]
pub struct Thinking {
    pub text: String,
    pub signature: Option<Signature>,
}

/// Redacted thinking: opaque, non-empty data.
#[derive(Debug, PartialEq, Eq)]
pub struct RedactedThinking {
    data: String,
}

#[derive(Debug, PartialEq)]
pub struct ToolCall {
    pub id: ToolCallId,
    pub name: ToolName,
    pub arguments: JsonValue,
}

impl View for RedactedThinking {
    type V = Seq<char>;

    closed spec fn view(&self) -> Seq<char> {
        self.data@
    }
}

impl RedactedThinking {
    #[verifier::type_invariant]
    closed spec fn not_empty(self) -> bool {
        self.data@.len() > 0
    }

    /// Refused with `Blank { field: "redacted_thinking_data" }` exactly when
    /// the data is empty.
    pub fn new(data: &str) -> (r: Result<RedactedThinking, MessageError>)
        ensures
            match r {
                Ok(block) => data@.len() > 0 && block@ == data@,
                Err(e) => data@.len() == 0 && e == (MessageError::Blank {
                    field: "redacted_thinking_data",
                }),
            },
    {
        if data.is_empty() {
            return Err(MessageError::Blank { field: "redacted_thinking_data" });
        }
        Ok(RedactedThinking { data: data.to_owned() })
    }

    /// Same as `new`, taking the data by value.
    pub fn from_string(data: String) -> (r: Result<RedactedThinking, MessageError>)
        ensures
            match r {
                Ok(block) => data@.len() > 0 && block@ == data@,
                Err(e) => data@.len() == 0 && e == (MessageError::Blank {
                    field: "redacted_thinking_data",
                }),
            },
    {
        if data.as_str().is_empty() {
            return Err(MessageError::Blank { field: "redacted_thinking_data" });
        }
        Ok(RedactedThinking { data })
    }

    pub fn data(&self) -> (r: &str)
        ensures
            r@ == self@,
            r@.len() > 0,
    {
        proof {
            use_type_invariant(self);
        }
        self.data.as_str()
    }
}

impl Clone for RedactedThinking {
    fn clone(&self) -> (r: Self)
        ensures
            r == *self,
    {
        proof {
            use_type_invariant(self);
        }
        RedactedThinking { data: self.data.clone() }
    }
}

impl Clone for Thinking {
    fn clone(&self) -> (r: Self)
        ensures
            r == *self,
    {
        let signature = match &self.signature {
            Some(signature) => Some(signature.clone()),
            None => None,
        };
        Thinking { text: self.text.clone(), signature }
    }
}

impl Clone for ToolCall {
    fn clone(&self) -> (r: Self)
        ensures
            r == *self,
    {
        ToolCall { id: self.id.clone(), name: self.name.clone(), arguments: self.arguments.clone() }
    }
}

impl Clone for AssistantBlock {
    fn clone(&self) -> (r: Self)
        ensures
            r == *self,
    {
        match self {
            AssistantBlock::Text { text } => AssistantBlock::Text { text: text.clone() },
            AssistantBlock::Thinking(thinking) => AssistantBlock::Thinking(thinking.clone()),
            AssistantBlock::RedactedThinking(redacted) => AssistantBlock::RedactedThinking(
                redacted.clone(),
            ),
            AssistantBlock::Structured { value } => AssistantBlock::Structured {
                value: value.clone(),
            },
            AssistantBlock::ToolCall(call) => AssistantBlock::ToolCall(call.clone()),
        }
    }
}

impl AssistantBlock {
    pub fn as_text(&self) -> (r: Option<&Text>)
        ensures
            match *self {
                AssistantBlock::Text { text } => r == Some(&text),
                _ => r is None,
            },
    {
        match self {
            AssistantBlock::Text { text } => Some(text),
            _ => None,
        }
    }

    pub fn as_thinking(&self) -> (r: Option<&Thinking>)
        ensures
            match *self {
                AssistantBlock::Thinking(thinking) => r == Some(&thinking),
                _ => r is None,
            },
    {
        match self {
            AssistantBlock::Thinking(thinking) => Some(thinking),
            _ => None,
        }
    }

    pub fn as_structured(&self) -> (r: Option<&JsonValue>)
        ensures
            match *self {
                AssistantBlock::Structured { value } => r == Some(&value),
                _ => r is None,
            },
    {
        match self {
            AssistantBlock::Structured { value } => Some(value),
            _ => None,
        }
    }

    pub fn as_tool_call(&self) -> (r: Option<&ToolCall>)
        ensures
            match *self {
                AssistantBlock::ToolCall(call) => r == Some(&call),
                _ => r is None,
            },
    {
        match self {
            AssistantBlock::ToolCall(call) => Some(call),
            _ => None,
        }
    }

    pub fn is_tool_call(&self) -> (r: bool)
        ensures
            r == (*self is ToolCall),
    {
        match self {
            AssistantBlock::ToolCall(_) => true,
            _ => false,
        }
    }
}

} // verus!
