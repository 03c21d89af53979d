use vstd::prelude::*;

use crate::block::{AssistantBlock, RedactedThinking, Thinking, ToolCall};
use crate::error::MessageError;
use crate::json::{JsonValue, json_parse};
use crate::step::{Step, is_valid_step, step_refusal};
use crate::stop_reason::StopReason;
use crate::usage::Usage;
use crate::value::{ModelId, Signature, Text, ToolCallId, ToolName, blank_str, is_blank};

use super::event::{BlockKind, StreamEvent};

verus! {

/// A block as the stream has delivered it so far.
#[allow(inconsistent_fields)]
pub enum PartialBlock {
    Text { text: Seq<char> },
    Thinking { text: Seq<char>, signature: Option<Seq<char>> },
    RedactedThinking { data: Seq<char> },
    Structured { json: Seq<char> },
    ToolCall { id: ToolCallId, name: ToolName, arguments: Seq<char> },
}

/// What a draft holds: the blocks started so far (the open one, if any,
/// last), the index of the open block, and the finish event once received.
pub struct DraftView {
    pub blocks: Seq<PartialBlock>,
    pub open: Option<usize>,
    pub finish: Option<(StopReason, Option<Usage>)>,
}

/// The empty block a `BlockStart` of the given kind opens.
pub open spec fn empty_block(kind: BlockKind) -> PartialBlock {
    match kind {
        BlockKind::Text => PartialBlock::Text { text: Seq::empty() },
        BlockKind::Thinking => PartialBlock::Thinking { text: Seq::empty(), signature: None },
        BlockKind::RedactedThinking => PartialBlock::RedactedThinking { data: Seq::empty() },
        _ => PartialBlock::Structured { json: Seq::empty() },
    }
}

/// Why a block cannot start at `index`, if it cannot.
pub open spec fn start_refusal(d: DraftView, index: usize) -> Option<MessageError> {
    match d.open {
        Some(open) => Some(MessageError::BlockStillOpen { index: open }),
        None => if index != d.blocks.len() {
            Some(MessageError::UnexpectedBlockIndex { expected: d.blocks.len() as usize, given: index })
        } else {
            None
        },
    }
}

pub open spec fn open_at(d: DraftView, index: usize) -> bool {
    d.open == Some(index) && index < d.blocks.len()
}

pub open spec fn with_block(d: DraftView, index: usize, b: PartialBlock) -> DraftView {
    DraftView { blocks: d.blocks.update(index as int, b), open: d.open, finish: d.finish }
}

/// A delta that `update` applies to the open block at `index`, or refuses.
pub open spec fn delta_step(
    d: DraftView,
    index: usize,
    updated: Option<PartialBlock>,
) -> Result<DraftView, MessageError> {
    if !open_at(d, index) {
        Err(MessageError::NoOpenBlock { index })
    } else {
        match updated {
            Some(b) => Ok(with_block(d, index, b)),
            None => Err(MessageError::BlockKindMismatch { index }),
        }
    }
}

pub open spec fn text_update(b: PartialBlock, fragment: Seq<char>) -> Option<PartialBlock> {
    match b {
        PartialBlock::Text { text } => Some(PartialBlock::Text { text: text + fragment }),
        _ => None,
    }
}

pub open spec fn thinking_update(b: PartialBlock, fragment: Seq<char>) -> Option<PartialBlock> {
    match b {
        PartialBlock::Thinking { text, signature } => Some(
            PartialBlock::Thinking { text: text + fragment, signature },
        ),
        _ => None,
    }
}

pub open spec fn signature_update(b: PartialBlock, fragment: Seq<char>) -> Option<PartialBlock> {
    match b {
        PartialBlock::Thinking { text, signature } => Some(
            PartialBlock::Thinking {
                text,
                signature: Some(
                    match signature {
                        Some(s) => s,
                        None => Seq::empty(),
                    } + fragment,
                ),
            },
        ),
        _ => None,
    }
}

pub open spec fn redacted_update(b: PartialBlock, fragment: Seq<char>) -> Option<PartialBlock> {
    match b {
        PartialBlock::RedactedThinking { data } => Some(
            PartialBlock::RedactedThinking { data: data + fragment },
        ),
        _ => None,
    }
}

pub open spec fn structured_update(b: PartialBlock, fragment: Seq<char>) -> Option<PartialBlock> {
    match b {
        PartialBlock::Structured { json } => Some(PartialBlock::Structured { json: json + fragment }),
        _ => None,
    }
}

pub open spec fn arguments_update(b: PartialBlock, fragment: Seq<char>) -> Option<PartialBlock> {
    match b {
        PartialBlock::ToolCall { id, name, arguments } => Some(
            PartialBlock::ToolCall { id, name, arguments: arguments + fragment },
        ),
        _ => None,
    }
}

/// How one stream event moves a draft on, or why it is refused.
pub open spec fn draft_step(d: DraftView, e: StreamEvent) -> Result<DraftView, MessageError> {
    if d.finish is Some {
        Err(MessageError::EventAfterFinish)
    } else {
        match e {
            StreamEvent::BlockStart { index, kind } => match start_refusal(d, index) {
                Some(refusal) => Err(refusal),
                None => if kind == BlockKind::ToolCall {
                    Err(MessageError::ToolCallNeedsStart)
                } else {
                    Ok(
                        DraftView {
                            blocks: d.blocks.push(empty_block(kind)),
                            open: Some(index),
                            finish: d.finish,
                        },
                    )
                },
            },
            StreamEvent::ToolCallStart { index, id, name } => match start_refusal(d, index) {
                Some(refusal) => Err(refusal),
                None => Ok(
                    DraftView {
                        blocks: d.blocks.push(
                            PartialBlock::ToolCall { id, name, arguments: Seq::empty() },
                        ),
                        open: Some(index),
                        finish: d.finish,
                    },
                ),
            },
            StreamEvent::TextDelta { index, text } => delta_step(
                d,
                index,
                text_update(d.blocks[index as int], text@),
            ),
            StreamEvent::ThinkingDelta { index, text } => delta_step(
                d,
                index,
                thinking_update(d.blocks[index as int], text@),
            ),
            StreamEvent::SignatureDelta { index, signature } => delta_step(
                d,
                index,
                signature_update(d.blocks[index as int], signature@),
            ),
            StreamEvent::RedactedThinkingData { index, data } => delta_step(
                d,
                index,
                redacted_update(d.blocks[index as int], data@),
            ),
            StreamEvent::StructuredDelta { index, json_fragment } => delta_step(
                d,
                index,
                structured_update(d.blocks[index as int], json_fragment@),
            ),
            StreamEvent::ToolCallArgumentsDelta { index, json_fragment } => delta_step(
                d,
                index,
                arguments_update(d.blocks[index as int], json_fragment@),
            ),
            StreamEvent::BlockEnd { index } => if d.open == Some(index) {
                Ok(DraftView { blocks: d.blocks, open: None, finish: d.finish })
            } else {
                Err(MessageError::NoOpenBlock { index })
            },
            StreamEvent::Finish { stop_reason, usage } => match d.open {
                Some(open) => Err(MessageError::BlockStillOpen { index: open }),
                None => Ok(
                    DraftView { blocks: d.blocks, open: None, finish: Some((stop_reason, usage)) },
                ),
            },
        }
    }
}

/// The open block, if any, is the last block started.
pub open spec fn open_is_last(d: DraftView) -> bool {
    match d.open {
        Some(i) => i + 1 == d.blocks.len(),
        None => true,
    }
}

/// Once the finish event is in, every further event is refused with
/// `EventAfterFinish`.
pub proof fn lemma_finished_draft_refuses(d: DraftView, e: StreamEvent)
    requires
        d.finish is Some,
    ensures
        draft_step(d, e) == Err::<DraftView, MessageError>(MessageError::EventAfterFinish),
{
}

/// An accepted event keeps the open block last, never drops a block and
/// never changes a block that is not open.
pub proof fn lemma_accepted_event_keeps_closed_blocks(d: DraftView, e: StreamEvent)
    requires
        open_is_last(d),
        draft_step(d, e) is Ok,
    ensures
        draft_step(d, e) matches Ok(next) && open_is_last(next) && next.blocks.len()
            >= d.blocks.len() && forall|i: int|
            0 <= i < d.blocks.len() && d.open != Some(i as usize) ==> #[trigger] next.blocks[i]
                == d.blocks[i],
{
}

/// The draft after the events in order, or the refusal of the first
/// refused one.
pub open spec fn apply_all(d: DraftView, events: Seq<StreamEvent>) -> Result<DraftView, MessageError>
    decreases events.len(),
{
    if events.len() == 0 {
        Ok(d)
    } else {
        match draft_step(d, events[0]) {
            Ok(next) => apply_all(next, events.skip(1)),
            Err(e) => Err(e),
        }
    }
}

/// The fragments of the signature deltas among the events, joined in order.
pub open spec fn signature_fragments(events: Seq<StreamEvent>) -> Seq<char>
    decreases events.len(),
{
    if events.len() == 0 {
        Seq::empty()
    } else {
        let head = match events[0] {
            StreamEvent::SignatureDelta { signature, .. } => signature@,
            _ => Seq::empty(),
        };
        head + signature_fragments(events.skip(1))
    }
}

/// The signature a thinking block has collected so far (none yet: empty).
pub open spec fn signature_so_far(b: PartialBlock) -> Seq<char> {
    match b {
        PartialBlock::Thinking { signature: Some(s), .. } => s,
        _ => Seq::empty(),
    }
}

/// Signature deltas on the open thinking block add their fragments, in
/// order, after the signature collected so far; its text and every other
/// block stay as they were.
pub proof fn lemma_signature_deltas_join(d: DraftView, index: usize, events: Seq<StreamEvent>)
    requires
        d.finish is None,
        open_at(d, index),
        d.blocks[index as int] is Thinking,
        forall|k: int|
            0 <= k < events.len() ==> (#[trigger] events[k] matches StreamEvent::SignatureDelta {
                index: i,
                ..
            } && i == index),
    ensures
        apply_all(d, events) matches Ok(n) && {
            &&& n.open == d.open
            &&& n.finish == d.finish
            &&& n.blocks.len() == d.blocks.len()
            &&& forall|j: int|
                0 <= j < d.blocks.len() && j != index ==> #[trigger] n.blocks[j] == d.blocks[j]
            &&& n.blocks[index as int] == if events.len() == 0 {
                d.blocks[index as int]
            } else {
                PartialBlock::Thinking {
                    text: d.blocks[index as int]->Thinking_text,
                    signature: Some(
                        signature_so_far(d.blocks[index as int]) + signature_fragments(events),
                    ),
                }
            }
        },
    decreases events.len(),
{
    if events.len() > 0 {
        let e = events[0];
        let fragment = e->SignatureDelta_signature@;
        let old = d.blocks[index as int];
        let updated = PartialBlock::Thinking {
            text: old->Thinking_text,
            signature: Some(signature_so_far(old) + fragment),
        };
        let next = with_block(d, index, updated);
        assert(draft_step(d, e) == Ok::<DraftView, MessageError>(next));
        let rest = events.skip(1);
        assert forall|k: int| 0 <= k < rest.len() implies (#[trigger] rest[k] matches StreamEvent::SignatureDelta {
            index: i,
            ..
        } && i == index) by {
            assert(rest[k] == events[k + 1]);
        }
        lemma_signature_deltas_join(next, index, rest);
        assert(signature_fragments(events) == fragment + signature_fragments(rest));
        if rest.len() > 0 {
            assert(signature_so_far(updated) + signature_fragments(rest) =~= signature_so_far(old)
                + signature_fragments(events));
        } else {
            assert(signature_fragments(rest) =~= Seq::<char>::empty());
            assert(signature_so_far(old) + signature_fragments(events) =~= signature_so_far(old)
                + fragment);
        }
    }
}

/// An accepted delta adds its fragment at the end of the matching part of
/// the open block (text, thinking text, redacted data, structured JSON or
/// tool arguments) and changes nothing else.
pub proof fn lemma_delta_appends_fragment(d: DraftView, e: StreamEvent)
    requires
        draft_step(d, e) is Ok,
    ensures
        draft_step(d, e) matches Ok(n) && match e {
            StreamEvent::TextDelta { index, text } => n.open == d.open && n.finish == d.finish && n.blocks == d.blocks.update(
                index as int,
                PartialBlock::Text { text: d.blocks[index as int]->Text_text + text@ },
            ),
            StreamEvent::ThinkingDelta { index, text } => n.open == d.open && n.finish == d.finish && n.blocks == d.blocks.update(
                index as int,
                PartialBlock::Thinking {
                    text: d.blocks[index as int]->Thinking_text + text@,
                    signature: d.blocks[index as int]->Thinking_signature,
                },
            ),
            StreamEvent::RedactedThinkingData { index, data } => n.open == d.open && n.finish == d.finish && n.blocks == d.blocks.update(
                index as int,
                PartialBlock::RedactedThinking { data: d.blocks[index as int]->data + data@ },
            ),
            StreamEvent::StructuredDelta { index, json_fragment } => n.open == d.open && n.finish == d.finish && n.blocks == d.blocks.update(
                index as int,
                PartialBlock::Structured { json: d.blocks[index as int]->json + json_fragment@ },
            ),
            StreamEvent::ToolCallArgumentsDelta { index, json_fragment } => n.open == d.open && n.finish == d.finish && n.blocks
                == d.blocks.update(
                index as int,
                PartialBlock::ToolCall {
                    id: d.blocks[index as int]->id,
                    name: d.blocks[index as int]->name,
                    arguments: d.blocks[index as int]->arguments + json_fragment@,
                },
            ),
            _ => true,
        },
{
    match e {
        StreamEvent::TextDelta { index, text } => {
            assert(d.blocks[index as int] is Text);
        },
        StreamEvent::ThinkingDelta { index, text } => {
            assert(d.blocks[index as int] is Thinking);
        },
        StreamEvent::RedactedThinkingData { index, data } => {
            assert(d.blocks[index as int] is RedactedThinking);
        },
        StreamEvent::StructuredDelta { index, json_fragment } => {
            assert(d.blocks[index as int] is Structured);
        },
        StreamEvent::ToolCallArgumentsDelta { index, json_fragment } => {
            assert(d.blocks[index as int] is ToolCall);
        },
        _ => {},
    }
}

/// Whether a delivered block turns into an assistant block.
pub open spec fn assembly_ok(b: PartialBlock) -> bool {
    match b {
        PartialBlock::Text { text } => !is_blank(text),
        PartialBlock::Thinking { signature, .. } => signature != Some(Seq::<char>::empty()),
        PartialBlock::RedactedThinking { data } => data.len() > 0,
        PartialBlock::Structured { json } => json_parse(json) is Ok,
        PartialBlock::ToolCall { arguments, .. } => is_blank(arguments) || json_parse(
            arguments,
        ) is Ok,
    }
}

/// `a` is the assistant block that the delivered block `b` turns into.
pub open spec fn assembled(b: PartialBlock, a: AssistantBlock) -> bool {
    match b {
        PartialBlock::Text { text } => a matches AssistantBlock::Text { text: t } && t@ == text,
        PartialBlock::Thinking { text, signature } => {
            &&& a matches AssistantBlock::Thinking(thinking)
            &&& thinking.text@ == text
            &&& match signature {
                None => thinking.signature is None,
                Some(s) => thinking.signature matches Some(sig) && sig@ == s,
            }
        },
        PartialBlock::RedactedThinking { data } => a matches AssistantBlock::RedactedThinking(r)
            && r@ == data,
        PartialBlock::Structured { json } => a matches AssistantBlock::Structured { value }
            && json_parse(json) == Ok::<Seq<char>, Seq<char>>(value@),
        PartialBlock::ToolCall { id, name, arguments } => {
            &&& a matches AssistantBlock::ToolCall(call)
            &&& call.id == id
            &&& call.name == name
            &&& if is_blank(arguments) {
                call.arguments@ == "{}"@
            } else {
                json_parse(arguments) == Ok::<Seq<char>, Seq<char>>(call.arguments@)
            }
        },
    }
}

/// The error a delivered block that does not assemble is refused with.
pub open spec fn assembly_fails(b: PartialBlock, e: MessageError) -> bool {
    match b {
        PartialBlock::Text { .. } => e == (MessageError::Blank { field: "text" }),
        PartialBlock::Thinking { .. } => e == (MessageError::Blank { field: "signature" }),
        PartialBlock::RedactedThinking { .. } => e == (MessageError::Blank {
            field: "redacted_thinking_data",
        }),
        PartialBlock::Structured { json } => e matches MessageError::InvalidJson {
            field,
            message,
        } && field == "structured" && json_parse(json) == Err::<Seq<char>, Seq<char>>(message@),
        PartialBlock::ToolCall { arguments, .. } => e matches MessageError::InvalidJson {
            field,
            message,
        } && field == "tool_arguments" && json_parse(arguments) == Err::<Seq<char>, Seq<char>>(
            message@,
        ),
    }
}

/// The error `finish` is refused with: no finish event yet; else the first
/// block that does not assemble; else the step rule the assembled content
/// breaks.
pub open spec fn finish_refusal(d: DraftView, e: MessageError) -> bool {
    match d.finish {
        None => e == MessageError::MissingFinish,
        Some((stop_reason, _)) => if exists|i: int|
            0 <= i < d.blocks.len() && !assembly_ok(#[trigger] d.blocks[i]) {
            exists|i: int|
                0 <= i < d.blocks.len() && !assembly_ok(#[trigger] d.blocks[i]) && (forall|k: int|
                    0 <= k < i ==> assembly_ok(#[trigger] d.blocks[k])) && assembly_fails(
                    d.blocks[i],
                    e,
                )
        } else {
            exists|content: Seq<AssistantBlock>|
                #![trigger step_refusal(content, stop_reason, e)]
                content.len() == d.blocks.len() && (forall|i: int|
                    0 <= i < d.blocks.len() ==> assembled(d.blocks[i], #[trigger] content[i]))
                    && step_refusal(content, stop_reason, e)
        },
    }
}

enum DraftBlock {
    Text { text: String },
    Thinking { text: String, signature: Option<String> },
    RedactedThinking { data: String },
    Structured { json: String },
    ToolCall { id: ToolCallId, name: ToolName, arguments: String },
}

impl View for DraftBlock {
    type V = PartialBlock;

    closed spec fn view(&self) -> PartialBlock {
        match self {
            DraftBlock::Text { text } => PartialBlock::Text { text: text@ },
            DraftBlock::Thinking { text, signature } => PartialBlock::Thinking {
                text: text@,
                signature: match signature {
                    Some(s) => Some(s@),
                    None => None,
                },
            },
            DraftBlock::RedactedThinking { data } => PartialBlock::RedactedThinking { data: data@ },
            DraftBlock::Structured { json } => PartialBlock::Structured { json: json@ },
            DraftBlock::ToolCall { id, name, arguments } => PartialBlock::ToolCall {
                id: *id,
                name: *name,
                arguments: arguments@,
            },
        }
    }
}

/// Folds the events of one streamed assistant message into a `Step`.
pub struct StepDraft {
    blocks: Vec<DraftBlock>,
    open: Option<DraftBlock>,
    finish: Option<(StopReason, Option<Usage>)>,
}

impl Default for StepDraft {
    fn default() -> (r: Self)
        ensures
            r@ == (DraftView { blocks: Seq::empty(), open: None, finish: None }),
    {
        StepDraft::new()
    }
}

impl View for StepDraft {
    type V = DraftView;

    closed spec fn view(&self) -> DraftView {
        let closed = self.blocks@.map_values(|b: DraftBlock| b@);
        match self.open {
            Some(b) => DraftView {
                blocks: closed.push(b@),
                open: Some(self.blocks@.len() as usize),
                finish: self.finish,
            },
            None => DraftView { blocks: closed, open: None, finish: self.finish },
        }
    }
}

/// The outcome of parsing the JSON of `field`: the value, or the parser's
/// message as `InvalidJson` for that field.
pub fn field_json(outcome: Result<JsonValue, String>, field: &'static str) -> (r: Result<
    JsonValue,
    MessageError,
>)
    ensures
        match outcome {
            Ok(value) => r == Ok::<JsonValue, MessageError>(value),
            Err(message) => r == Err::<JsonValue, MessageError>(
                MessageError::InvalidJson { field, message },
            ),
        },
{
    match outcome {
        Ok(value) => Ok(value),
        Err(message) => Err(MessageError::InvalidJson { field, message }),
    }
}

fn parse_json(fragment: &str, field: &'static str) -> (r: Result<JsonValue, MessageError>)
    ensures
        match r {
            Ok(value) => json_parse(fragment@) == Ok::<Seq<char>, Seq<char>>(value@),
            Err(e) => e matches MessageError::InvalidJson { field: f, message } && f == field
                && json_parse(fragment@) == Err::<Seq<char>, Seq<char>>(message@),
        },
{
    field_json(JsonValue::parse(fragment), field)
}

fn parse_arguments(fragment: &str) -> (r: Result<JsonValue, MessageError>)
    ensures
        match r {
            Ok(value) => if is_blank(fragment@) {
                value@ == "{}"@
            } else {
                json_parse(fragment@) == Ok::<Seq<char>, Seq<char>>(value@)
            },
            Err(e) => {
                &&& !is_blank(fragment@)
                &&& e matches MessageError::InvalidJson { field, message }
                &&& field == "tool_arguments"
                &&& json_parse(fragment@) == Err::<Seq<char>, Seq<char>>(message@)
            },
        },
{
    if blank_str(fragment) {
        return Ok(JsonValue::empty_object());
    }
    parse_json(fragment, "tool_arguments")
}

fn assemble(block: DraftBlock) -> (r: Result<AssistantBlock, MessageError>)
    ensures
        match r {
            Ok(a) => assembly_ok(block@) && assembled(block@, a),
            Err(e) => !assembly_ok(block@) && assembly_fails(block@, e),
        },
{
    match block {
        DraftBlock::Text { text } => match Text::from_string(text) {
            Ok(text) => Ok(AssistantBlock::Text { text }),
            Err(e) => Err(e),
        },
        DraftBlock::Thinking { text, signature } => {
            let signature = match signature {
                Some(s) => match Signature::from_string(s) {
                    Ok(sig) => Some(sig),
                    Err(e) => {
                        assert(s@ =~= Seq::<char>::empty());
                        return Err(e);
                    },
                },
                None => None,
            };
            Ok(AssistantBlock::Thinking(Thinking { text, signature }))
        },
        DraftBlock::RedactedThinking { data } => match RedactedThinking::from_string(data) {
            Ok(r) => Ok(AssistantBlock::RedactedThinking(r)),
            Err(e) => Err(e),
        },
        DraftBlock::Structured { json } => match parse_json(json.as_str(), "structured") {
            Ok(value) => Ok(AssistantBlock::Structured { value }),
            Err(e) => Err(e),
        },
        DraftBlock::ToolCall { id, name, arguments } => match parse_arguments(arguments.as_str()) {
            Ok(arguments) => Ok(AssistantBlock::ToolCall(ToolCall { id, name, arguments })),
            Err(e) => Err(e),
        },
    }
}

impl StepDraft {
    pub fn new() -> (r: StepDraft)
        ensures
            r@ == (DraftView { blocks: Seq::empty(), open: None, finish: None }),
    {
        let r = StepDraft { blocks: Vec::new(), open: None, finish: None };
        assert(r@.blocks =~= Seq::<PartialBlock>::empty());
        r
    }

    /// Applies one event; a refused event leaves the draft unchanged.
    pub fn apply(&mut self, event: StreamEvent) -> (r: Result<(), MessageError>)
        ensures
            match draft_step(old(self)@, event) {
                Ok(d) => r is Ok && final(self)@ == d,
                Err(e) => r == Err::<(), MessageError>(e) && final(self)@ == old(self)@,
            },
    {
        if self.finish.is_some() {
            return Err(MessageError::EventAfterFinish);
        }
        match event {
            StreamEvent::BlockStart { index, kind } => self.start(index, kind),
            StreamEvent::ToolCallStart { index, id, name } => self.start_tool_call(index, id, name),
            StreamEvent::TextDelta { index, text } => self.push_text(index, text.as_str()),
            StreamEvent::ThinkingDelta { index, text } => self.push_thinking(index, text.as_str()),
            StreamEvent::SignatureDelta { index, signature } => self.push_signature(
                index,
                signature.as_str(),
            ),
            StreamEvent::RedactedThinkingData { index, data } => self.push_redacted(
                index,
                data.as_str(),
            ),
            StreamEvent::StructuredDelta { index, json_fragment } => self.push_structured(
                index,
                json_fragment.as_str(),
            ),
            StreamEvent::ToolCallArgumentsDelta { index, json_fragment } => self.push_tool_arguments(
                index,
                json_fragment.as_str(),
            ),
            StreamEvent::BlockEnd { index } => self.end(index),
            StreamEvent::Finish { stop_reason, usage } => self.finish_event(stop_reason, usage),
        }
    }

    fn expect_next(&self, index: usize) -> (r: Result<(), MessageError>)
        ensures
            match start_refusal(self@, index) {
                Some(e) => r == Err::<(), MessageError>(e),
                None => r is Ok,
            },
    {
        if self.open.is_some() {
            return Err(MessageError::BlockStillOpen { index: self.blocks.len() });
        }
        if index != self.blocks.len() {
            return Err(MessageError::UnexpectedBlockIndex { expected: self.blocks.len(), given: index });
        }
        Ok(())
    }

    proof fn lemma_open_pushed(&self, b: DraftBlock, after: StepDraft)
        requires
            self.open is None,
            after.blocks@ == self.blocks@,
            after.open == Some(b),
            after.finish == self.finish,
        ensures
            after@ == (DraftView {
                blocks: self@.blocks.push(b@),
                open: Some(self@.blocks.len() as usize),
                finish: self@.finish,
            }),
    {
    }

    fn start(&mut self, index: usize, kind: BlockKind) -> (r: Result<(), MessageError>)
        requires
            old(self)@.finish is None,
        ensures
            match draft_step(old(self)@, StreamEvent::BlockStart { index, kind }) {
                Ok(d) => r is Ok && final(self)@ == d,
                Err(e) => r == Err::<(), MessageError>(e) && final(self)@ == old(self)@,
            },
    {
        match self.expect_next(index) {
            Ok(()) => {},
            Err(e) => {
                return Err(e);
            },
        }
        let block = match kind {
            BlockKind::Text => DraftBlock::Text { text: String::new() },
            BlockKind::Thinking => DraftBlock::Thinking { text: String::new(), signature: None },
            BlockKind::RedactedThinking => DraftBlock::RedactedThinking { data: String::new() },
            BlockKind::Structured => DraftBlock::Structured { json: String::new() },
            BlockKind::ToolCall => {
                return Err(MessageError::ToolCallNeedsStart);
            },
        };
        let ghost before = *self;
        self.open = Some(block);
        proof {
            before.lemma_open_pushed(block, *self);
            assert(block@ == empty_block(kind));
        }
        Ok(())
    }

    fn start_tool_call(&mut self, index: usize, id: ToolCallId, name: ToolName) -> (r: Result<
        (),
        MessageError,
    >)
        requires
            old(self)@.finish is None,
        ensures
            match draft_step(old(self)@, StreamEvent::ToolCallStart { index, id, name }) {
                Ok(d) => r is Ok && final(self)@ == d,
                Err(e) => r == Err::<(), MessageError>(e) && final(self)@ == old(self)@,
            },
    {
        match self.expect_next(index) {
            Ok(()) => {},
            Err(e) => {
                return Err(e);
            },
        }
        let block = DraftBlock::ToolCall { id, name, arguments: String::new() };
        let ghost before = *self;
        self.open = Some(block);
        proof {
            before.lemma_open_pushed(block, *self);
        }
        Ok(())
    }

    fn end(&mut self, index: usize) -> (r: Result<(), MessageError>)
        requires
            old(self)@.finish is None,
        ensures
            match draft_step(old(self)@, StreamEvent::BlockEnd { index }) {
                Ok(d) => r is Ok && final(self)@ == d,
                Err(e) => r == Err::<(), MessageError>(e) && final(self)@ == old(self)@,
            },
    {
        if self.open.is_none() || index != self.blocks.len() {
            return Err(MessageError::NoOpenBlock { index });
        }
        let ghost before = self@;
        match self.open.take() {
            Some(block) => {
                self.blocks.push(block);
            },
            None => {},
        }
        proof {
            assert(self@.blocks =~= before.blocks);
        }
        Ok(())
    }

    fn finish_event(&mut self, stop_reason: StopReason, usage: Option<Usage>) -> (r: Result<
        (),
        MessageError,
    >)
        requires
            old(self)@.finish is None,
        ensures
            match draft_step(old(self)@, StreamEvent::Finish { stop_reason, usage }) {
                Ok(d) => r is Ok && final(self)@ == d,
                Err(e) => r == Err::<(), MessageError>(e) && final(self)@ == old(self)@,
            },
    {
        if self.open.is_some() {
            return Err(MessageError::BlockStillOpen { index: self.blocks.len() });
        }
        self.finish = Some((stop_reason, usage));
        Ok(())
    }

    proof fn lemma_open_replaced(&self, after: StepDraft, b: DraftBlock, index: usize)
        requires
            index == self.blocks@.len(),
            self.open is Some,
            after.blocks@ == self.blocks@,
            after.open == Some(b),
            after.finish == self.finish,
        ensures
            after@ == with_block(self@, index, b@),
            self@.blocks[index as int] == self.open->0@,
            open_at(self@, index),
    {
        assert(after@.blocks =~= with_block(self@, index, b@).blocks);
    }

    fn push_text(&mut self, index: usize, fragment: &str) -> (r: Result<(), MessageError>)
        requires
            old(self)@.finish is None,
        ensures
            match delta_step(old(self)@, index, text_update(old(self)@.blocks[index as int], fragment@)) {
                Ok(d) => r is Ok && final(self)@ == d,
                Err(e) => r == Err::<(), MessageError>(e) && final(self)@ == old(self)@,
            },
    {
        if self.open.is_none() || index != self.blocks.len() {
            return Err(MessageError::NoOpenBlock { index });
        }
        let ghost before = *self;
        match self.open.take() {
            Some(DraftBlock::Text { text }) => {
                let mut text = text;
                text.append(fragment);
                self.open = Some(DraftBlock::Text { text });
                proof {
                    before.lemma_open_replaced(*self, self.open->0, index);
                }
                Ok(())
            },
            Some(other) => {
                self.open = Some(other);
                proof {
                    before.lemma_open_replaced(*self, other, index);
                    assert(self@ =~= before@);
                }
                Err(MessageError::BlockKindMismatch { index })
            },
            None => Err(MessageError::NoOpenBlock { index }),
        }
    }

    fn push_thinking(&mut self, index: usize, fragment: &str) -> (r: Result<(), MessageError>)
        requires
            old(self)@.finish is None,
        ensures
            match delta_step(old(self)@, index, thinking_update(old(self)@.blocks[index as int], fragment@)) {
                Ok(d) => r is Ok && final(self)@ == d,
                Err(e) => r == Err::<(), MessageError>(e) && final(self)@ == old(self)@,
            },
    {
        if self.open.is_none() || index != self.blocks.len() {
            return Err(MessageError::NoOpenBlock { index });
        }
        let ghost before = *self;
        match self.open.take() {
            Some(DraftBlock::Thinking { text, signature }) => {
                let mut text = text;
                text.append(fragment);
                self.open = Some(DraftBlock::Thinking { text, signature });
                proof {
                    before.lemma_open_replaced(*self, self.open->0, index);
                }
                Ok(())
            },
            Some(other) => {
                self.open = Some(other);
                proof {
                    before.lemma_open_replaced(*self, other, index);
                    assert(self@ =~= before@);
                }
                Err(MessageError::BlockKindMismatch { index })
            },
            None => Err(MessageError::NoOpenBlock { index }),
        }
    }

    fn push_signature(&mut self, index: usize, fragment: &str) -> (r: Result<(), MessageError>)
        requires
            old(self)@.finish is None,
        ensures
            match delta_step(old(self)@, index, signature_update(old(self)@.blocks[index as int], fragment@)) {
                Ok(d) => r is Ok && final(self)@ == d,
                Err(e) => r == Err::<(), MessageError>(e) && final(self)@ == old(self)@,
            },
    {
        if self.open.is_none() || index != self.blocks.len() {
            return Err(MessageError::NoOpenBlock { index });
        }
        let ghost before = *self;
        match self.open.take() {
            Some(DraftBlock::Thinking { text, signature }) => {
                let mut collected = match signature {
                    Some(s) => s,
                    None => String::new(),
                };
                collected.append(fragment);
                let signature = Some(collected);
                self.open = Some(DraftBlock::Thinking { text, signature });
                proof {
                    before.lemma_open_replaced(*self, self.open->0, index);
                }
                Ok(())
            },
            Some(other) => {
                self.open = Some(other);
                proof {
                    before.lemma_open_replaced(*self, other, index);
                    assert(self@ =~= before@);
                }
                Err(MessageError::BlockKindMismatch { index })
            },
            None => Err(MessageError::NoOpenBlock { index }),
        }
    }

    fn push_redacted(&mut self, index: usize, fragment: &str) -> (r: Result<(), MessageError>)
        requires
            old(self)@.finish is None,
        ensures
            match delta_step(old(self)@, index, redacted_update(old(self)@.blocks[index as int], fragment@)) {
                Ok(d) => r is Ok && final(self)@ == d,
                Err(e) => r == Err::<(), MessageError>(e) && final(self)@ == old(self)@,
            },
    {
        if self.open.is_none() || index != self.blocks.len() {
            return Err(MessageError::NoOpenBlock { index });
        }
        let ghost before = *self;
        match self.open.take() {
            Some(DraftBlock::RedactedThinking { data }) => {
                let mut data = data;
                data.append(fragment);
                self.open = Some(DraftBlock::RedactedThinking { data });
                proof {
                    before.lemma_open_replaced(*self, self.open->0, index);
                }
                Ok(())
            },
            Some(other) => {
                self.open = Some(other);
                proof {
                    before.lemma_open_replaced(*self, other, index);
                    assert(self@ =~= before@);
                }
                Err(MessageError::BlockKindMismatch { index })
            },
            None => Err(MessageError::NoOpenBlock { index }),
        }
    }

    fn push_structured(&mut self, index: usize, fragment: &str) -> (r: Result<(), MessageError>)
        requires
            old(self)@.finish is None,
        ensures
            match delta_step(old(self)@, index, structured_update(old(self)@.blocks[index as int], fragment@)) {
                Ok(d) => r is Ok && final(self)@ == d,
                Err(e) => r == Err::<(), MessageError>(e) && final(self)@ == old(self)@,
            },
    {
        if self.open.is_none() || index != self.blocks.len() {
            return Err(MessageError::NoOpenBlock { index });
        }
        let ghost before = *self;
        match self.open.take() {
            Some(DraftBlock::Structured { json }) => {
                let mut json = json;
                json.append(fragment);
                self.open = Some(DraftBlock::Structured { json });
                proof {
                    before.lemma_open_replaced(*self, self.open->0, index);
                }
                Ok(())
            },
            Some(other) => {
                self.open = Some(other);
                proof {
                    before.lemma_open_replaced(*self, other, index);
                    assert(self@ =~= before@);
                }
                Err(MessageError::BlockKindMismatch { index })
            },
            None => Err(MessageError::NoOpenBlock { index }),
        }
    }

    fn push_tool_arguments(&mut self, index: usize, fragment: &str) -> (r: Result<(), MessageError>)
        requires
            old(self)@.finish is None,
        ensures
            match delta_step(old(self)@, index, arguments_update(old(self)@.blocks[index as int], fragment@)) {
                Ok(d) => r is Ok && final(self)@ == d,
                Err(e) => r == Err::<(), MessageError>(e) && final(self)@ == old(self)@,
            },
    {
        if self.open.is_none() || index != self.blocks.len() {
            return Err(MessageError::NoOpenBlock { index });
        }
        let ghost before = *self;
        match self.open.take() {
            Some(DraftBlock::ToolCall { id, name, arguments }) => {
                let mut arguments = arguments;
                arguments.append(fragment);
                self.open = Some(DraftBlock::ToolCall { id, name, arguments });
                proof {
                    before.lemma_open_replaced(*self, self.open->0, index);
                }
                Ok(())
            },
            Some(other) => {
                self.open = Some(other);
                proof {
                    before.lemma_open_replaced(*self, other, index);
                    assert(self@ =~= before@);
                }
                Err(MessageError::BlockKindMismatch { index })
            },
            None => Err(MessageError::NoOpenBlock { index }),
        }
    }

    /// Assembles the step from the delivered blocks, in order.
    pub fn finish(self, model: Option<ModelId>) -> (r: Result<Step, MessageError>)
        ensures
            match r {
                Ok(step) => {
                    &&& self@.finish matches Some((stop_reason, usage))
                    &&& step.stop() == stop_reason
                    &&& step.usage_info() == usage
                    &&& step.model_id() == model
                    &&& step.blocks().len() == self@.blocks.len()
                    &&& forall|i: int|
                        0 <= i < self@.blocks.len() ==> assembly_ok(#[trigger] self@.blocks[i])
                            && assembled(self@.blocks[i], step.blocks()[i])
                },
                Err(e) => finish_refusal(self@, e),
            },
    {
        let ghost d = self@;
        let StepDraft { blocks, open, finish } = self;
        let (stop_reason, usage) = match finish {
            Some(f) => f,
            None => {
                return Err(MessageError::MissingFinish);
            },
        };
        let mut rest = blocks;
        match open {
            Some(block) => {
                rest.push(block);
            },
            None => {},
        }
        let ghost views = d.blocks;
        assert(rest@.map_values(|b: DraftBlock| b@) =~= views);
        let mut content: Vec<AssistantBlock> = Vec::new();
        let ghost mut k: int = 0;
        while rest.len() > 0
            invariant
                0 <= k <= views.len(),
                k + rest@.len() == views.len(),
                d.finish == Some((stop_reason, usage)),
                d.blocks == views,
                d == self@,
                rest@.map_values(|b: DraftBlock| b@) == views.skip(k),
                content@.len() == k,
                forall|i: int|
                    0 <= i < k ==> assembly_ok(#[trigger] views[i]) && assembled(
                        views[i],
                        content@[i],
                    ),
            decreases rest@.len(),
        {
            let ghost before = rest@;
            let block = rest.remove(0);
            assert(block@ == views[k]) by {
                assert(before.map_values(|b: DraftBlock| b@)[0] == views.skip(k)[0]);
            }
            assert(rest@.map_values(|b: DraftBlock| b@) =~= views.skip(k + 1)) by {
                assert forall|i: int| 0 <= i < rest@.len() implies rest@[i]@ == views.skip(
                    k + 1,
                )[i] by {
                    assert(rest@[i] == before[i + 1]);
                    assert(before.map_values(|b: DraftBlock| b@)[i + 1] == views.skip(k)[i + 1]);
                }
            }
            match assemble(block) {
                Ok(a) => {
                    content.push(a);
                },
                Err(e) => {
                    assert(!assembly_ok(d.blocks[k]));
                    assert(forall|j: int| 0 <= j < k ==> assembly_ok(#[trigger] d.blocks[j]));
                    return Err(e);
                },
            }
            proof {
                k = k + 1;
            }
        }
        assert(k == views.len());
        Step::new(content, stop_reason, usage, model)
    }
}

} // verus!
