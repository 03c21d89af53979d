use vstd::prelude::*;

use crate::block::{AssistantBlock, Image, ToolResult, same_result};
use crate::value::{Author, Text};

verus! {

#[allow(inconsistent_fields)]
#[derive(Debug, Clone, PartialEq)]
pub enum WireMessage {
    User { content: Vec<WireUserBlock> },
    Assistant { content: Vec<AssistantBlock> },
    Relay { content: Vec<Text> },
}

#[derive(Debug, Clone, PartialEq)]
pub enum WireUserBlock {
    Text { text: Text },
    Image(Image),
    ToolResult(ToolResult),
}

#[derive(Debug, PartialEq, Eq)]
pub struct Perspective {
    pub agent: Author,
}

impl Clone for Perspective {
    fn clone(&self) -> (r: Self)
        ensures
            r == *self,
    {
        Perspective { agent: self.agent.clone() }
    }
}

impl Perspective {
    pub fn new(agent: Author) -> (r: Self)
        ensures
            r.agent == agent,
    {
        Perspective { agent }
    }
}

/// A user-message block as the contracts describe it.
pub enum WireBlockSpec {
    Text(Seq<char>),
    Image(Image),
    ToolResult(ToolResult),
}

/// A wire message as the contracts describe it.
pub enum WireSpec {
    User(Seq<WireBlockSpec>),
    Assistant(Seq<AssistantBlock>),
    Relay(Seq<Seq<char>>),
}

pub open spec fn block_matches(block: WireUserBlock, spec: WireBlockSpec) -> bool {
    match (block, spec) {
        (WireUserBlock::Text { text }, WireBlockSpec::Text(t)) => text@ == t,
        (WireUserBlock::Image(image), WireBlockSpec::Image(i)) => image == i,
        (WireUserBlock::ToolResult(result), WireBlockSpec::ToolResult(r)) => same_result(result, r),
        _ => false,
    }
}

pub open spec fn blocks_match(blocks: Seq<WireUserBlock>, specs: Seq<WireBlockSpec>) -> bool {
    &&& blocks.len() == specs.len()
    &&& forall|i: int| 0 <= i < blocks.len() ==> block_matches(#[trigger] blocks[i], specs[i])
}

pub open spec fn message_matches(message: WireMessage, spec: WireSpec) -> bool {
    match (message, spec) {
        (WireMessage::User { content }, WireSpec::User(blocks)) => blocks_match(content@, blocks),
        (WireMessage::Assistant { content }, WireSpec::Assistant(blocks)) => content@ == blocks,
        (WireMessage::Relay { content }, WireSpec::Relay(texts)) => content@.map_values(
            |t: Text| t@,
        ) == texts,
        _ => false,
    }
}

pub open spec fn messages_match(messages: Seq<WireMessage>, specs: Seq<WireSpec>) -> bool {
    &&& messages.len() == specs.len()
    &&& forall|i: int| 0 <= i < messages.len() ==> message_matches(#[trigger] messages[i], specs[i])
}

} // verus!
