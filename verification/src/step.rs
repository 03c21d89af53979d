use vstd::prelude::*;

use crate::block::{AssistantBlock, Thinking, ToolCall};
use crate::error::MessageError;
use crate::json::JsonValue;
use crate::stop_reason::{stop_reason_text, StopReason};
use crate::usage::Usage;
use crate::value::{ModelId, Text};

verus! {

pub open spec fn is_call(block: AssistantBlock) -> bool {
    block is ToolCall
}

/// The id of a tool-call block (empty for any other block).
pub open spec fn call_id(block: AssistantBlock) -> Seq<char> {
    match block {
        AssistantBlock::ToolCall(call) => call.id@,
        _ => Seq::empty(),
    }
}

/// No block that is not a tool call follows a tool call.
pub open spec fn calls_at_tail(content: Seq<AssistantBlock>) -> bool {
    forall|i: int, j: int|
        0 <= i < j < content.len() && is_call(#[trigger] content[i]) ==> is_call(#[trigger] content[j])
}

pub open spec fn has_call(content: Seq<AssistantBlock>) -> bool {
    exists|i: int| 0 <= i < content.len() && is_call(#[trigger] content[i])
}

/// Block `j` is a tool call whose id an earlier tool call already carries.
pub open spec fn repeats_earlier_call(content: Seq<AssistantBlock>, j: int) -> bool {
    &&& 0 <= j < content.len()
    &&& is_call(content[j])
    &&& exists|i: int|
        0 <= i < j && is_call(#[trigger] content[i]) && call_id(content[i]) == call_id(content[j])
}

pub open spec fn unique_call_ids(content: Seq<AssistantBlock>) -> bool {
    forall|j: int| !#[trigger] repeats_earlier_call(content, j)
}

/// The rules every step obeys.
pub open spec fn is_valid_step(content: Seq<AssistantBlock>, stop_reason: StopReason) -> bool {
    &&& content.len() > 0
    &&& calls_at_tail(content)
    &&& (stop_reason is AwaitingToolResults <==> has_call(content))
    &&& unique_call_ids(content)
}

/// The error a step built from `content` and `stop_reason` is refused with:
/// the first rule broken, in the order of `is_valid_step`; for repeated ids,
/// the id of the first tool call that repeats an earlier one.
pub open spec fn step_refusal(
    content: Seq<AssistantBlock>,
    stop_reason: StopReason,
    e: MessageError,
) -> bool {
    if content.len() == 0 {
        e == MessageError::EmptyStep
    } else if !calls_at_tail(content) {
        e == MessageError::ToolCallNotAtTail
    } else if stop_reason is AwaitingToolResults && !has_call(content) {
        e == MessageError::AwaitingToolResultsWithoutCalls
    } else if !(stop_reason is AwaitingToolResults) && has_call(content) {
        e == MessageError::ToolCallsWithoutAwaiting
    } else {
        &&& e matches MessageError::DuplicateToolCallId { id }
        &&& exists|j: int|
            #![trigger repeats_earlier_call(content, j)]
            repeats_earlier_call(content, j) && (forall|k: int|
                0 <= k < j ==> !#[trigger] repeats_earlier_call(content, k)) && id@ == call_id(
                content[j],
            )
    }
}

/// The texts of the text blocks, in order.
pub open spec fn texts_in(content: Seq<AssistantBlock>) -> Seq<Text>
    decreases content.len(),
{
    if content.len() == 0 {
        Seq::empty()
    } else {
        let rest = texts_in(content.drop_last());
        match content.last() {
            AssistantBlock::Text { text } => rest.push(text),
            _ => rest,
        }
    }
}

/// The thinking blocks, in order.
pub open spec fn thinking_in(content: Seq<AssistantBlock>) -> Seq<Thinking>
    decreases content.len(),
{
    if content.len() == 0 {
        Seq::empty()
    } else {
        let rest = thinking_in(content.drop_last());
        match content.last() {
            AssistantBlock::Thinking(thinking) => rest.push(thinking),
            _ => rest,
        }
    }
}

/// The values of the structured blocks, in order.
pub open spec fn structured_in(content: Seq<AssistantBlock>) -> Seq<JsonValue>
    decreases content.len(),
{
    if content.len() == 0 {
        Seq::empty()
    } else {
        let rest = structured_in(content.drop_last());
        match content.last() {
            AssistantBlock::Structured { value } => rest.push(value),
            _ => rest,
        }
    }
}

/// The tool calls, in order.
pub open spec fn calls_in(content: Seq<AssistantBlock>) -> Seq<ToolCall>
    decreases content.len(),
{
    if content.len() == 0 {
        Seq::empty()
    } else {
        let rest = calls_in(content.drop_last());
        match content.last() {
            AssistantBlock::ToolCall(call) => rest.push(call),
            _ => rest,
        }
    }
}

/// How a block shows in the display text of a step.
pub open spec fn block_summary(block: AssistantBlock) -> Seq<char> {
    match block {
        AssistantBlock::Text { text } => " text("@ + text@ + ")"@,
        AssistantBlock::Thinking(_) => " thinking"@,
        AssistantBlock::RedactedThinking(_) => " redacted_thinking"@,
        AssistantBlock::Structured { .. } => " structured"@,
        AssistantBlock::ToolCall(call) => " tool_call("@ + call.name@ + ")"@,
    }
}

/// The summaries of the blocks, in order.
pub open spec fn blocks_summary(content: Seq<AssistantBlock>) -> Seq<char>
    decreases content.len(),
{
    if content.len() == 0 {
        Seq::empty()
    } else {
        blocks_summary(content.drop_last()) + block_summary(content.last())
    }
}

/// The last element decides whether a filtered and mapped sequence grows.
pub proof fn lemma_filter_map_last<A, B>(s: Seq<A>, keep: spec_fn(A) -> bool, f: spec_fn(A) -> B)
    requires
        s.len() > 0,
    ensures
        s.filter(keep).map_values(f) == if keep(s.last()) {
            s.drop_last().filter(keep).map_values(f).push(f(s.last()))
        } else {
            s.drop_last().filter(keep).map_values(f)
        },
{
    reveal(Seq::filter);
    let sub = s.drop_last().filter(keep);
    if keep(s.last()) {
        assert(s.filter(keep) == sub.push(s.last()));
        assert(sub.push(s.last()).map_values(f) =~= sub.map_values(f).push(f(s.last())));
    } else {
        assert(s.filter(keep) == sub);
    }
}

pub proof fn lemma_filter_map_empty<A, B>(s: Seq<A>, keep: spec_fn(A) -> bool, f: spec_fn(A) -> B)
    requires
        s.len() == 0,
    ensures
        s.filter(keep).map_values(f) == Seq::<B>::empty(),
{
    reveal(Seq::filter);
    assert(s.filter(keep).map_values(f) =~= Seq::<B>::empty());
}

/// `text()` gives exactly the text blocks of the content, in content order:
/// its `i`-th element is the text of the `i`-th text block.
pub proof fn lemma_texts_in_order(content: Seq<AssistantBlock>)
    ensures
        texts_in(content) == content.filter(|b: AssistantBlock| b is Text).map_values(
            |b: AssistantBlock| b->text,
        ),
    decreases content.len(),
{
    let keep = |b: AssistantBlock| b is Text;
    let f = |b: AssistantBlock| b->text;
    if content.len() == 0 {
        lemma_filter_map_empty(content, keep, f);
    } else {
        lemma_texts_in_order(content.drop_last());
        lemma_filter_map_last(content, keep, f);
    }
}

/// `thinking()` gives exactly the thinking blocks of the content, in content
/// order: its `i`-th element is the `i`-th thinking block.
pub proof fn lemma_thinking_in_order(content: Seq<AssistantBlock>)
    ensures
        thinking_in(content) == content.filter(|b: AssistantBlock| b is Thinking).map_values(
            |b: AssistantBlock| b->Thinking_0,
        ),
    decreases content.len(),
{
    let keep = |b: AssistantBlock| b is Thinking;
    let f = |b: AssistantBlock| b->Thinking_0;
    if content.len() == 0 {
        lemma_filter_map_empty(content, keep, f);
    } else {
        lemma_thinking_in_order(content.drop_last());
        lemma_filter_map_last(content, keep, f);
    }
}

/// `structured()` gives exactly the values of the structured blocks, in
/// content order.
pub proof fn lemma_structured_in_order(content: Seq<AssistantBlock>)
    ensures
        structured_in(content) == content.filter(|b: AssistantBlock| b is Structured).map_values(
            |b: AssistantBlock| b->value,
        ),
    decreases content.len(),
{
    let keep = |b: AssistantBlock| b is Structured;
    let f = |b: AssistantBlock| b->value;
    if content.len() == 0 {
        lemma_filter_map_empty(content, keep, f);
    } else {
        lemma_structured_in_order(content.drop_last());
        lemma_filter_map_last(content, keep, f);
    }
}

/// `tool_calls()` gives exactly the tool calls of the content, in content
/// order.
pub proof fn lemma_calls_in_order(content: Seq<AssistantBlock>)
    ensures
        calls_in(content) == content.filter(|b: AssistantBlock| b is ToolCall).map_values(
            |b: AssistantBlock| b->ToolCall_0,
        ),
    decreases content.len(),
{
    let keep = |b: AssistantBlock| b is ToolCall;
    let f = |b: AssistantBlock| b->ToolCall_0;
    if content.len() == 0 {
        lemma_filter_map_empty(content, keep, f);
    } else {
        lemma_calls_in_order(content.drop_last());
        lemma_filter_map_last(content, keep, f);
    }
}

/// The display text of a step: `step[<stop reason>]` and a summary of each block.
pub open spec fn step_text(content: Seq<AssistantBlock>, stop_reason: StopReason) -> Seq<char> {
    "step["@ + stop_reason_text(stop_reason) + "]"@ + blocks_summary(content)
}

/// One assistant message: non-empty content, tool calls only at its tail and
/// with distinct ids, present exactly when the stop reason awaits tool
/// results.
#[derive(Debug, PartialEq)]
pub struct Step {
    content: Vec<AssistantBlock>,
    stop_reason: StopReason,
    usage: Option<Usage>,
    model: Option<ModelId>,
}

impl Clone for Step {
    fn clone(&self) -> (r: Self)
        ensures
            r.blocks() == self.blocks(),
            r.stop() == self.stop(),
            r.usage_info() == self.usage_info(),
            r.model_id() == self.model_id(),
    {
        proof {
            use_type_invariant(self);
        }
        let mut content: Vec<AssistantBlock> = Vec::new();
        for i in 0..self.content.len()
            invariant
                content@ == self.content@.take(i as int),
        {
            content.push(self.content[i].clone());
            assert(content@ =~= self.content@.take(i + 1));
        }
        assert(content@ =~= self.content@);
        let usage = match &self.usage {
            Some(usage) => Some(usage.clone()),
            None => None,
        };
        let model = match &self.model {
            Some(model) => Some(model.clone()),
            None => None,
        };
        Step { content, stop_reason: self.stop_reason.clone(), usage, model }
    }
}

impl Step {
    #[verifier::type_invariant]
    closed spec fn valid(self) -> bool {
        is_valid_step(self.content@, self.stop_reason)
    }

    pub closed spec fn blocks(self) -> Seq<AssistantBlock> {
        self.content@
    }

    pub closed spec fn stop(self) -> StopReason {
        self.stop_reason
    }

    pub closed spec fn usage_info(self) -> Option<Usage> {
        self.usage
    }

    pub closed spec fn model_id(self) -> Option<ModelId> {
        self.model
    }

    fn check(content: &Vec<AssistantBlock>, stop_reason: &StopReason) -> (r: Result<(), MessageError>)
        ensures
            match r {
                Ok(()) => is_valid_step(content@, *stop_reason),
                Err(e) => !is_valid_step(content@, *stop_reason) && step_refusal(
                    content@,
                    *stop_reason,
                    e,
                ),
            },
    {
        let n = content.len();
        if n == 0 {
            return Err(MessageError::EmptyStep);
        }
        let mut seen_tool_call = false;
        let mut i: usize = 0;
        while i < n
            invariant
                n == content@.len(),
                i <= n,
                seen_tool_call == (exists|k: int| 0 <= k < i && is_call(#[trigger] content@[k])),
                forall|a: int, b: int|
                    0 <= a < b < i && is_call(#[trigger] content@[a]) ==> is_call(
                        #[trigger] content@[b],
                    ),
            decreases n - i,
        {
            if content[i].is_tool_call() {
                seen_tool_call = true;
            } else if seen_tool_call {
                proof {
                    let k = choose|k: int| 0 <= k < i && is_call(#[trigger] content@[k]);
                    assert(is_call(content@[k]) && !is_call(content@[i as int]));
                }
                return Err(MessageError::ToolCallNotAtTail);
            }
            i = i + 1;
        }
        assert(calls_at_tail(content@));
        let awaiting = stop_reason.is_awaiting_tool_results();
        if awaiting && !seen_tool_call {
            return Err(MessageError::AwaitingToolResultsWithoutCalls);
        }
        if !awaiting && seen_tool_call {
            return Err(MessageError::ToolCallsWithoutAwaiting);
        }
        let mut j: usize = 0;
        while j < n
            invariant
                n == content@.len(),
                n > 0,
                j <= n,
                calls_at_tail(content@),
                (*stop_reason is AwaitingToolResults <==> has_call(content@)),
                forall|k: int| 0 <= k < j ==> !#[trigger] repeats_earlier_call(content@, k),
            decreases n - j,
        {
            if let AssistantBlock::ToolCall(call) = &content[j] {
                let mut i: usize = 0;
                while i < j
                    invariant
                        n == content@.len(),
                        i <= j < n,
                        calls_at_tail(content@),
                        (*stop_reason is AwaitingToolResults <==> has_call(content@)),
                        content@[j as int] == AssistantBlock::ToolCall(*call),
                        forall|k: int| 0 <= k < j ==> !#[trigger] repeats_earlier_call(content@, k),
                        forall|k: int|
                            0 <= k < i && is_call(#[trigger] content@[k]) ==> call_id(content@[k])
                                != call.id@,
                    decreases j - i,
                {
                    if let AssistantBlock::ToolCall(earlier) = &content[i] {
                        if earlier.id.same(&call.id) {
                            assert(repeats_earlier_call(content@, j as int));
                            return Err(MessageError::DuplicateToolCallId { id: call.id.clone() });
                        }
                    }
                    i = i + 1;
                }
            }
            j = j + 1;
        }
        Ok(())
    }

    pub fn new(
        content: Vec<AssistantBlock>,
        stop_reason: StopReason,
        usage: Option<Usage>,
        model: Option<ModelId>,
    ) -> (r: Result<Step, MessageError>)
        ensures
            match r {
                Ok(step) => {
                    &&& is_valid_step(content@, stop_reason)
                    &&& step.blocks() == content@
                    &&& step.stop() == stop_reason
                    &&& step.usage_info() == usage
                    &&& step.model_id() == model
                },
                Err(e) => !is_valid_step(content@, stop_reason) && step_refusal(
                    content@,
                    stop_reason,
                    e,
                ),
            },
    {
        match Self::check(&content, &stop_reason) {
            Ok(()) => Ok(Step { content, stop_reason, usage, model }),
            Err(e) => Err(e),
        }
    }

    pub fn content(&self) -> (r: &[AssistantBlock])
        ensures
            r@ == self.blocks(),
            is_valid_step(self.blocks(), self.stop()),
    {
        proof {
            use_type_invariant(self);
        }
        self.content.as_slice()
    }

    pub fn stop_reason(&self) -> (r: &StopReason)
        ensures
            *r == self.stop(),
            is_valid_step(self.blocks(), self.stop()),
    {
        proof {
            use_type_invariant(self);
        }
        &self.stop_reason
    }

    pub fn usage(&self) -> (r: Option<&Usage>)
        ensures
            match self.usage_info() {
                Some(usage) => r == Some(&usage),
                None => r is None,
            },
    {
        self.usage.as_ref()
    }

    pub fn model(&self) -> (r: Option<&ModelId>)
        ensures
            match self.model_id() {
                Some(model) => r == Some(&model),
                None => r is None,
            },
    {
        self.model.as_ref()
    }

    pub fn text(&self) -> (r: Vec<&Text>)
        ensures
            r@.map_values(|t: &Text| *t) == texts_in(self.blocks()),
            r@.map_values(|t: &Text| *t) == self.blocks().filter(|b: AssistantBlock| b is Text).map_values(
                |b: AssistantBlock| b->text,
            ),
    {
        proof {
            lemma_texts_in_order(self.content@);
        }
        let mut out: Vec<&Text> = Vec::new();
        for i in 0..self.content.len()
            invariant
                out@.map_values(|t: &Text| *t) == texts_in(self.content@.take(i as int)),
        {
            assert(self.content@.take(i + 1).drop_last() =~= self.content@.take(i as int));
            if let AssistantBlock::Text { text } = &self.content[i] {
                out.push(text);
            }
            assert(out@.map_values(|t: &Text| *t) =~= texts_in(self.content@.take(i + 1)));
        }
        assert(self.content@.take(self.content@.len() as int) =~= self.content@);
        out
    }

    pub fn thinking(&self) -> (r: Vec<&Thinking>)
        ensures
            r@.map_values(|t: &Thinking| *t) == thinking_in(self.blocks()),
            r@.map_values(|t: &Thinking| *t) == self.blocks().filter(|b: AssistantBlock| b is Thinking).map_values(
                |b: AssistantBlock| b->Thinking_0,
            ),
    {
        proof {
            lemma_thinking_in_order(self.content@);
        }
        let mut out: Vec<&Thinking> = Vec::new();
        for i in 0..self.content.len()
            invariant
                out@.map_values(|t: &Thinking| *t) == thinking_in(self.content@.take(i as int)),
        {
            assert(self.content@.take(i + 1).drop_last() =~= self.content@.take(i as int));
            if let AssistantBlock::Thinking(thinking) = &self.content[i] {
                out.push(thinking);
            }
            assert(out@.map_values(|t: &Thinking| *t) =~= thinking_in(self.content@.take(i + 1)));
        }
        assert(self.content@.take(self.content@.len() as int) =~= self.content@);
        out
    }

    pub fn structured(&self) -> (r: Vec<&JsonValue>)
        ensures
            r@.map_values(|t: &JsonValue| *t) == structured_in(self.blocks()),
            r@.map_values(|t: &JsonValue| *t) == self.blocks().filter(|b: AssistantBlock| b is Structured).map_values(
                |b: AssistantBlock| b->value,
            ),
    {
        proof {
            lemma_structured_in_order(self.content@);
        }
        let mut out: Vec<&JsonValue> = Vec::new();
        for i in 0..self.content.len()
            invariant
                out@.map_values(|t: &JsonValue| *t) == structured_in(self.content@.take(i as int)),
        {
            assert(self.content@.take(i + 1).drop_last() =~= self.content@.take(i as int));
            if let AssistantBlock::Structured { value } = &self.content[i] {
                out.push(value);
            }
            assert(out@.map_values(|t: &JsonValue| *t) =~= structured_in(self.content@.take(i + 1)));
        }
        assert(self.content@.take(self.content@.len() as int) =~= self.content@);
        out
    }

    pub fn tool_calls(&self) -> (r: Vec<&ToolCall>)
        ensures
            r@.map_values(|t: &ToolCall| *t) == calls_in(self.blocks()),
            r@.map_values(|t: &ToolCall| *t) == self.blocks().filter(|b: AssistantBlock| b is ToolCall).map_values(
                |b: AssistantBlock| b->ToolCall_0,
            ),
    {
        proof {
            lemma_calls_in_order(self.content@);
        }
        let mut out: Vec<&ToolCall> = Vec::new();
        for i in 0..self.content.len()
            invariant
                out@.map_values(|t: &ToolCall| *t) == calls_in(self.content@.take(i as int)),
        {
            assert(self.content@.take(i + 1).drop_last() =~= self.content@.take(i as int));
            if let AssistantBlock::ToolCall(call) = &self.content[i] {
                out.push(call);
            }
            assert(out@.map_values(|t: &ToolCall| *t) =~= calls_in(self.content@.take(i + 1)));
        }
        assert(self.content@.take(self.content@.len() as int) =~= self.content@);
        out
    }

    /// The display text of the step.
    pub fn to_string(&self) -> (r: String)
        ensures
            r@ == step_text(self.blocks(), self.stop()),
    {
        let mut out = "step[".to_owned();
        out.append(self.stop_reason.to_string().as_str());
        out.append("]");
        let ghost head = out@;
        for i in 0..self.content.len()
            invariant
                out@ == head + blocks_summary(self.content@.take(i as int)),
        {
            assert(self.content@.take(i + 1).drop_last() =~= self.content@.take(i as int));
            match &self.content[i] {
                AssistantBlock::Text { text } => {
                    out.append(" text(");
                    out.append(text.as_str());
                    out.append(")");
                },
                AssistantBlock::Thinking(_) => out.append(" thinking"),
                AssistantBlock::RedactedThinking(_) => out.append(" redacted_thinking"),
                AssistantBlock::Structured { .. } => out.append(" structured"),
                AssistantBlock::ToolCall(call) => {
                    out.append(" tool_call(");
                    out.append(call.name.as_str());
                    out.append(")");
                },
            }
            assert(out@ =~= head + blocks_summary(self.content@.take(i + 1)));
        }
        assert(self.content@.take(self.content@.len() as int) =~= self.content@);
        out
    }
}

} // verus!
