use vstd::prelude::*;

use crate::block::{AssistantBlock, ToolCall, ToolResult, same_result};
use crate::error::{label_text, MessageError, TurnStateLabel};
use crate::strings::{decimal, push_decimal};
use crate::step::{
    Step, calls_at_tail, calls_in, has_call, is_call, is_valid_step, repeats_earlier_call,
};
use crate::stop_reason::StopReason;
use crate::tool_results::{distinct, result_ids, ToolResults};
use crate::value::{Author, Text, ToolCallId, TurnId, is_white_space};

verus! {

#[derive(Debug, PartialEq)]
pub enum TurnItem {
    Step(Step),
    ToolResults(ToolResults),
}

/// `a` is a copy of `b`: the same step contents, or results that agree on
/// every field, in the same order.
pub open spec fn copied_item(a: TurnItem, b: TurnItem) -> bool {
    match b {
        TurnItem::Step(s) => a matches TurnItem::Step(t) && t.blocks() == s.blocks() && t.stop()
            == s.stop() && t.usage_info() == s.usage_info() && t.model_id() == s.model_id(),
        TurnItem::ToolResults(x) => a matches TurnItem::ToolResults(y) && y.entries().len()
            == x.entries().len() && result_ids(y.entries()) == result_ids(x.entries()) && forall|
            i: int,
        |
            0 <= i < x.entries().len() ==> same_result(#[trigger] y.entries()[i], x.entries()[i]),
    }
}

/// `a` is an item-by-item copy of `b`.
pub open spec fn copied_items(a: Seq<TurnItem>, b: Seq<TurnItem>) -> bool {
    &&& a.len() == b.len()
    &&& forall|i: int| 0 <= i < a.len() ==> #[trigger] copied_item(a[i], b[i])
}

impl Clone for TurnItem {
    fn clone(&self) -> (r: Self)
        ensures
            copied_item(r, *self),
    {
        match self {
            TurnItem::Step(step) => TurnItem::Step(step.clone()),
            TurnItem::ToolResults(results) => TurnItem::ToolResults(results.clone()),
        }
    }
}

#[derive(Debug, Clone, PartialEq)]
pub enum TurnState {
    AwaitingToolResults { pending: Vec<ToolCallId> },
    AwaitingStep,
    Finished { stop_reason: StopReason },
}

/// A turn state with the pending ids as character sequences.
pub enum StateView {
    AwaitingToolResults { pending: Seq<Seq<char>> },
    AwaitingStep,
    Finished { stop_reason: StopReason },
}

impl View for TurnState {
    type V = StateView;

    open spec fn view(&self) -> StateView {
        match self {
            TurnState::AwaitingToolResults { pending } => StateView::AwaitingToolResults {
                pending: pending@.map_values(|id: ToolCallId| id@),
            },
            TurnState::AwaitingStep => StateView::AwaitingStep,
            TurnState::Finished { stop_reason } => StateView::Finished { stop_reason: *stop_reason },
        }
    }
}

pub open spec fn state_label(state: StateView) -> TurnStateLabel {
    match state {
        StateView::AwaitingToolResults { .. } => TurnStateLabel::AwaitingToolResults,
        StateView::AwaitingStep => TurnStateLabel::AwaitingStep,
        StateView::Finished { .. } => TurnStateLabel::Finished,
    }
}

impl TurnState {
    pub fn label(&self) -> (r: TurnStateLabel)
        ensures
            r == state_label(self@),
    {
        match self {
            TurnState::AwaitingToolResults { .. } => TurnStateLabel::AwaitingToolResults,
            TurnState::AwaitingStep => TurnStateLabel::AwaitingStep,
            TurnState::Finished { .. } => TurnStateLabel::Finished,
        }
    }
}

/// The character sequences of a list of ids.
pub open spec fn id_views(ids: Seq<ToolCallId>) -> Seq<Seq<char>> {
    ids.map_values(|id: ToolCallId| id@)
}

/// The ids of the tool calls of a step, in order.
pub open spec fn call_ids(step: Step) -> Seq<Seq<char>> {
    calls_in(step.blocks()).map_values(|c: ToolCall| c.id@)
}

/// The last step among the items.
pub open spec fn last_step_of(items: Seq<TurnItem>) -> Step
    decreases items.len(),
{
    if items.len() == 0 {
        arbitrary()
    } else {
        match items.last() {
            TurnItem::Step(step) => step,
            TurnItem::ToolResults(_) => last_step_of(items.drop_last()),
        }
    }
}

/// The ids collected in the results item that ends the turn, if one does.
pub open spec fn trailing_ids(items: Seq<TurnItem>) -> Seq<Seq<char>> {
    if items.len() == 0 {
        Seq::empty()
    } else {
        match items.last() {
            TurnItem::ToolResults(results) => result_ids(results.entries()),
            TurnItem::Step(_) => Seq::empty(),
        }
    }
}

/// The ids of `ids` that `collected` lacks, in order.
pub open spec fn not_collected(ids: Seq<Seq<char>>, collected: Seq<Seq<char>>) -> Seq<Seq<char>>
    decreases ids.len(),
{
    if ids.len() == 0 {
        Seq::empty()
    } else {
        let rest = not_collected(ids.drop_last(), collected);
        if collected.contains(ids.last()) {
            rest
        } else {
            rest.push(ids.last())
        }
    }
}

/// The state of a turn: finished when its last step does not await tool
/// results; otherwise awaiting the results of the calls of the last step
/// that the trailing results item lacks, or awaiting a step when none lacks.
pub open spec fn state_of(items: Seq<TurnItem>) -> StateView {
    let step = last_step_of(items);
    if !(step.stop() is AwaitingToolResults) {
        StateView::Finished { stop_reason: step.stop() }
    } else {
        let pending = not_collected(call_ids(step), trailing_ids(items));
        if pending.len() == 0 {
            StateView::AwaitingStep
        } else {
            StateView::AwaitingToolResults { pending }
        }
    }
}

/// Item `k` may follow the items before it: a results item follows a step
/// that awaits results and answers some of its calls; a step follows a
/// results item that answers every call of the step before it.
pub open spec fn item_follows(items: Seq<TurnItem>, k: int) -> bool {
    match items[k] {
        TurnItem::ToolResults(results) => {
            &&& items[k - 1] is Step
            &&& items[k - 1]->Step_0.stop() is AwaitingToolResults
            &&& results.entries().len() > 0
            &&& forall|i: int|
                0 <= i < results.entries().len() ==> call_ids(items[k - 1]->Step_0).contains(
                    #[trigger] result_ids(results.entries())[i],
                )
        },
        TurnItem::Step(_) => {
            &&& k >= 2
            &&& items[k - 1] is ToolResults
            &&& items[k - 2] is Step
            &&& forall|i: int|
                0 <= i < call_ids(items[k - 2]->Step_0).len() ==> result_ids(
                    items[k - 1]->ToolResults_0.entries(),
                ).contains(#[trigger] call_ids(items[k - 2]->Step_0)[i])
        },
    }
}

/// The items of a turn record a valid exchange: a first step, then results
/// and steps that each may follow what came before.
pub open spec fn valid_history(items: Seq<TurnItem>) -> bool {
    &&& items.len() > 0
    &&& items[0] is Step
    &&& forall|k: int| 0 < k < items.len() ==> #[trigger] item_follows(items, k)
}

/// `new` holds the items `old` with `result` added: to the results item
/// that ends the turn, or in a results item of its own after the last step.
pub open spec fn result_added(old: Seq<TurnItem>, new: Seq<TurnItem>, result: ToolResult) -> bool {
    if old.len() > 0 && old.last() is ToolResults {
        &&& new.len() == old.len()
        &&& new.drop_last() == old.drop_last()
        &&& new.last() is ToolResults
        &&& new.last()->ToolResults_0.entries() == old.last()->ToolResults_0.entries().push(result)
    } else {
        &&& new.len() == old.len() + 1
        &&& new.drop_last() == old
        &&& new.last() is ToolResults
        &&& new.last()->ToolResults_0.entries() == seq![result]
    }
}

/// What pushing `result` does to a turn holding `old`.
pub open spec fn push_result_outcome(
    old: Seq<TurnItem>,
    result: ToolResult,
    new: Seq<TurnItem>,
    r: Result<(), MessageError>,
) -> bool {
    let state = state_of(old);
    match state {
        StateView::AwaitingToolResults { pending } => if pending.contains(result.tool_call_id@) {
            r is Ok && result_added(old, new, result)
        } else if call_ids(last_step_of(old)).contains(result.tool_call_id@) {
            &&& r == Err::<(), MessageError>(
                MessageError::DuplicateToolResultId { id: result.tool_call_id },
            )
            &&& new == old
        } else {
            &&& r matches Err(MessageError::ToolResultNotPending { given, pending: listed })
            &&& given == result.tool_call_id
            &&& listed@.map_values(|id: ToolCallId| id@) == pending
            &&& new == old
        },
        _ => r == Err::<(), MessageError>(
            MessageError::TurnNotAwaitingResults { state: state_label(state) },
        ) && new == old,
    }
}

/// What pushing `step` does to a turn holding `old`.
pub open spec fn push_step_outcome(
    old: Seq<TurnItem>,
    step: Step,
    new: Seq<TurnItem>,
    r: Result<(), MessageError>,
) -> bool {
    let state = state_of(old);
    if state is AwaitingStep {
        r is Ok && new == old.push(TurnItem::Step(step))
    } else {
        r == Err::<(), MessageError>(MessageError::TurnNotAwaitingStep { state: state_label(state) })
            && new == old
    }
}

/// One recorded event of a turn: a step or a single tool result.
pub enum TurnOp {
    Step(Step),
    Result(ToolResult),
}

pub open spec fn item_ops(item: TurnItem) -> Seq<TurnOp> {
    match item {
        TurnItem::Step(step) => seq![TurnOp::Step(step)],
        TurnItem::ToolResults(results) => results.entries().map_values(
            |r: ToolResult| TurnOp::Result(r),
        ),
    }
}

/// The events that the items record, in order.
pub open spec fn ops_of(items: Seq<TurnItem>) -> Seq<TurnOp>
    decreases items.len(),
{
    if items.len() == 0 {
        Seq::empty()
    } else {
        ops_of(items.drop_last()) + item_ops(items.last())
    }
}

pub open spec fn op_outcome(
    old: Seq<TurnItem>,
    op: TurnOp,
    new: Seq<TurnItem>,
    r: Result<(), MessageError>,
) -> bool {
    match op {
        TurnOp::Step(step) => push_step_outcome(old, step, new, r),
        TurnOp::Result(result) => push_result_outcome(old, result, new, r),
    }
}

/// Replaying `ops` in order on a turn holding `start` ends with `outcome`:
/// the items after the last event, or the refusal of the first refused one.
pub open spec fn replays(
    start: Seq<TurnItem>,
    ops: Seq<TurnOp>,
    outcome: Result<Seq<TurnItem>, MessageError>,
) -> bool {
    exists|trail: Seq<Seq<TurnItem>>, k: int|
        #![trigger trail.len(), trail[k]]
        {
            &&& 0 <= k <= ops.len()
            &&& trail.len() == k + 1
            &&& trail[0] == start
            &&& forall|i: int|
                0 <= i < k ==> op_outcome(#[trigger] trail[i], ops[i], trail[i + 1], Ok(()))
            &&& match outcome {
                Ok(end) => k == ops.len() && trail[k] == end,
                Err(e) => k < ops.len() && op_outcome(trail[k], ops[k], trail[k], Err(e)),
            }
        }
}

proof fn lemma_not_collected(ids: Seq<Seq<char>>, collected: Seq<Seq<char>>)
    ensures
        forall|x: Seq<char>|
            #[trigger] not_collected(ids, collected).contains(x) <==> ids.contains(x)
                && !collected.contains(x),
    decreases ids.len(),
{
    if ids.len() > 0 {
        lemma_not_collected(ids.drop_last(), collected);
        let rest = not_collected(ids.drop_last(), collected);
        let all = not_collected(ids, collected);
        let last = ids.last();
        assert(ids =~= ids.drop_last().push(last));
        if collected.contains(last) {
            assert(all == rest);
        } else {
            assert(all == rest.push(last));
        }
        assert forall|x: Seq<char>| #[trigger] all.contains(x) implies ids.contains(x)
            && !collected.contains(x) by {
            let j = choose|j: int| 0 <= j < all.len() && all[j] == x;
            if j < rest.len() {
                assert(rest[j] == x);
                assert(rest.contains(x));
                let i = choose|i: int| 0 <= i < ids.drop_last().len() && ids.drop_last()[i] == x;
                assert(ids[i] == x);
            } else {
                assert(ids[ids.len() - 1] == x);
            }
        }
        assert forall|x: Seq<char>| ids.contains(x) && !collected.contains(x) implies #[trigger] all.contains(
            x,
        ) by {
            let i = choose|i: int| 0 <= i < ids.len() && ids[i] == x;
            if i < ids.len() - 1 {
                assert(ids.drop_last()[i] == x);
                assert(rest.contains(x));
                let j = choose|j: int| 0 <= j < rest.len() && rest[j] == x;
                assert(all[j] == x);
            } else {
                assert(all[rest.len() as int] == x);
            }
        }
    }
}

proof fn lemma_calls_present(content: Seq<crate::block::AssistantBlock>)
    requires
        has_call(content),
    ensures
        calls_in(content).len() > 0,
    decreases content.len(),
{
    let i = choose|i: int| 0 <= i < content.len() && is_call(#[trigger] content[i]);
    if i < content.len() - 1 {
        assert(is_call(content.drop_last()[i]));
        lemma_calls_present(content.drop_last());
    }
}

/// The display text of a turn: its id, its author where it has one, the
/// number of its items and the label of its state.
pub open spec fn turn_text(id: TurnId, author: Option<Author>, items: Seq<TurnItem>) -> Seq<char> {
    let head = match author {
        Some(author) => "turn "@ + id@ + " by "@ + author@,
        None => "turn "@ + id@,
    };
    head + " ("@ + decimal(items.len()) + " items, "@ + label_text(state_label(state_of(items)))
        + ")"@
}

/// One model turn: its id, optional author and the steps and collected tool
/// results, in order.
#[derive(Debug, PartialEq)]
pub struct Turn {
    id: TurnId,
    author: Option<Author>,
    items: Vec<TurnItem>,
}

/// A one-step history that holds the place of a turn's items while they
/// change.
fn placeholder_items() -> (r: Vec<TurnItem>)
    ensures
        valid_history(r@),
{
    proof {
        reveal_strlit("-");
        assert(!is_white_space("-"@[0]));
    }
    let text = Text::new("-").unwrap();
    let content = vec![AssistantBlock::Text { text }];
    proof {
        assert(!is_call(content@[0]));
        assert(calls_at_tail(content@));
        assert(!has_call(content@));
        assert(forall|j: int| !#[trigger] repeats_earlier_call(content@, j));
    }
    let step = Step::new(content, StopReason::EndTurn, None, None).unwrap();
    let mut items: Vec<TurnItem> = Vec::new();
    items.push(TurnItem::Step(step));
    items
}

impl Clone for Turn {
    fn clone(&self) -> (r: Self)
        ensures
            r.turn_id() == self.turn_id(),
            r.author_of() == self.author_of(),
            copied_items(r.entries(), self.entries()),
            r.wf(),
            state_of(r.entries()) == state_of(self.entries()),
    {
        proof {
            use_type_invariant(self);
        }
        let mut items: Vec<TurnItem> = Vec::new();
        for i in 0..self.items.len()
            invariant
                items@.len() == i,
                forall|k: int| 0 <= k < i ==> #[trigger] copied_item(items@[k], self.items@[k]),
        {
            items.push(self.items[i].clone());
        }
        let author = match &self.author {
            Some(author) => Some(author.clone()),
            None => None,
        };
        proof {
            lemma_copied_state(items@, self.items@);
            lemma_copied_history(items@, self.items@);
        }
        Turn { id: self.id.clone(), author, items }
    }
}

impl Turn {
    pub closed spec fn turn_id(self) -> TurnId {
        self.id
    }

    pub closed spec fn author_of(self) -> Option<Author> {
        self.author
    }

    pub closed spec fn entries(self) -> Seq<TurnItem> {
        self.items@
    }

    /// The items record a valid exchange; this holds of every turn.
    #[verifier::type_invariant]
    pub open spec fn wf(self) -> bool {
        valid_history(self.entries())
    }

    pub fn new(id: TurnId, author: Option<Author>, first_step: Step) -> (r: Turn)
        ensures
            r.turn_id() == id,
            r.author_of() == author,
            r.entries() == seq![TurnItem::Step(first_step)],
            r.wf(),
    {
        let mut items: Vec<TurnItem> = Vec::new();
        items.push(TurnItem::Step(first_step));
        let r = Turn { id, author, items };
        assert(r.entries() =~= seq![TurnItem::Step(first_step)]);
        r
    }

    /// The display text of the turn.
    pub fn to_string(&self) -> (r: String)
        ensures
            r@ == turn_text(self.turn_id(), self.author_of(), self.entries()),
    {
        let mut out = "turn ".to_owned();
        out.append(self.id.as_str());
        if let Some(author) = &self.author {
            out.append(" by ");
            out.append(author.as_str());
        }
        out.append(" (");
        push_decimal(&mut out, self.items.len());
        out.append(" items, ");
        out.append(self.state().label().as_str());
        out.append(")");
        out
    }

    pub fn id(&self) -> (r: &TurnId)
        ensures
            *r == self.turn_id(),
    {
        &self.id
    }

    pub fn author(&self) -> (r: Option<&Author>)
        ensures
            match self.author_of() {
                Some(author) => r == Some(&author),
                None => r is None,
            },
    {
        self.author.as_ref()
    }

    pub fn items(&self) -> (r: &[TurnItem])
        ensures
            r@ == self.entries(),
            self.wf(),
    {
        proof {
            use_type_invariant(self);
        }
        self.items.as_slice()
    }

    fn trailing_results(&self) -> (r: Option<&ToolResults>)
        ensures
            match r {
                Some(results) => result_ids(results.entries()) == trailing_ids(self.entries()),
                None => trailing_ids(self.entries()) == Seq::<Seq<char>>::empty(),
            },
    {
        let n = self.items.len();
        if n == 0 {
            return None;
        }
        match &self.items[n - 1] {
            TurnItem::ToolResults(results) => Some(results),
            TurnItem::Step(_) => None,
        }
    }

    pub fn state(&self) -> (r: TurnState)
        ensures
            r@ == state_of(self.entries()),
    {
        proof {
            use_type_invariant(self);
        }
        let step = self.last_step();
        if !step.stop_reason().is_awaiting_tool_results() {
            return TurnState::Finished { stop_reason: step.stop_reason().clone() };
        }
        let collected = self.trailing_results();
        let calls = step.tool_calls();
        let ghost ids = call_ids(*step);
        let ghost trailing = trailing_ids(self.entries());
        let mut pending: Vec<ToolCallId> = Vec::new();
        for i in 0..calls.len()
            invariant
                calls@.map_values(|c: &ToolCall| *c) == calls_in(step.blocks()),
                ids == calls_in(step.blocks()).map_values(|c: ToolCall| c.id@),
                match collected {
                    Some(c) => result_ids(c.entries()) == trailing,
                    None => trailing == Seq::<Seq<char>>::empty(),
                },
                pending@.map_values(|id: ToolCallId| id@) == not_collected(
                    ids.take(i as int),
                    trailing,
                ),
        {
            let call = calls[i];
            assert(ids[i as int] == call.id@) by {
                assert(calls@.map_values(|c: &ToolCall| *c)[i as int] == *call);
            }
            assert(ids.take(i + 1).drop_last() =~= ids.take(i as int));
            let keep = match collected {
                Some(c) => !c.contains(&call.id),
                None => true,
            };
            let ghost before = pending@;
            if keep {
                pending.push(call.id.clone());
            }
            assert(pending@.map_values(|id: ToolCallId| id@) =~= not_collected(
                ids.take(i + 1),
                trailing,
            ));
        }
        assert(ids.take(calls.len() as int) =~= ids);
        if pending.len() == 0 {
            TurnState::AwaitingStep
        } else {
            TurnState::AwaitingToolResults { pending }
        }
    }

    fn step_has_call(step: &Step, id: &ToolCallId) -> (r: bool)
        ensures
            r == call_ids(*step).contains(id@),
    {
        let calls = step.tool_calls();
        let ghost ids = call_ids(*step);
        let mut i: usize = 0;
        while i < calls.len()
            invariant
                i <= calls@.len(),
                calls@.map_values(|c: &ToolCall| *c) == calls_in(step.blocks()),
                ids == calls_in(step.blocks()).map_values(|c: ToolCall| c.id@),
                forall|k: int| 0 <= k < i ==> ids[k] != id@,
            decreases calls@.len() - i,
        {
            assert(ids[i as int] == calls@[i as int].id@) by {
                assert(calls@.map_values(|c: &ToolCall| *c)[i as int] == *calls@[i as int]);
            }
            if calls[i].id.same(id) {
                return true;
            }
            i = i + 1;
        }
        false
    }

    /// Records a tool result; a refused result leaves the turn unchanged.
    pub fn push_result(&mut self, result: ToolResult) -> (r: Result<(), MessageError>)
        ensures
            final(self).wf(),
            final(self).turn_id() == old(self).turn_id(),
            final(self).author_of() == old(self).author_of(),
            push_result_outcome(old(self).entries(), result, final(self).entries(), r),
    {
        proof {
            use_type_invariant(&*self);
        }
        let state = self.state();
        let pending = match state {
            TurnState::AwaitingToolResults { pending } => pending,
            other => {
                return Err(MessageError::TurnNotAwaitingResults { state: other.label() });
            },
        };
        let ghost old_items = self.items@;
        let ghost step = last_step_of(old_items);
        if !ids_contain(&pending, &result.tool_call_id) {
            if Self::step_has_call(self.last_step(), &result.tool_call_id) {
                return Err(MessageError::DuplicateToolResultId { id: result.tool_call_id });
            }
            return Err(MessageError::ToolResultNotPending { given: result.tool_call_id, pending });
        }
        proof {
            lemma_not_collected(call_ids(step), trailing_ids(old_items));
            assert(!trailing_ids(old_items).contains(result.tool_call_id@));
        }
        let ghost added = result;
        let mut items = placeholder_items();
        std::mem::swap(&mut items, &mut self.items);
        match items.pop() {
            Some(TurnItem::ToolResults(results)) => {
                let mut results = results;
                match results.push(result) {
                    Ok(()) => {},
                    Err(e) => {
                        return Err(e);
                    },
                }
                items.push(TurnItem::ToolResults(results));
            },
            Some(item) => {
                items.push(item);
                let mut results = ToolResults::empty();
                match results.push(result) {
                    Ok(()) => {},
                    Err(e) => {
                        return Err(e);
                    },
                }
                items.push(TurnItem::ToolResults(results));
            },
            None => {
                return Err(MessageError::TurnMustStartWithStep);
            },
        }
        proof {
            assert(items@.drop_last() =~= old_items.drop_last() || items@.drop_last() =~= old_items);
            lemma_result_added_valid(old_items, items@, added);
        }
        self.items = items;
        Ok(())
    }

    /// Records a batch of results in order, stopping at the first refusal.
    pub fn push_results(&mut self, results: Vec<ToolResult>) -> (r: Result<(), MessageError>)
        ensures
            final(self).wf(),
            final(self).turn_id() == old(self).turn_id(),
            final(self).author_of() == old(self).author_of(),
            exists|trail: Seq<Seq<TurnItem>>, k: int|
                #![trigger trail.len(), trail[k]]
                {
                    &&& 0 <= k <= results@.len()
                    &&& trail.len() == k + 1
                    &&& trail[0] == old(self).entries()
                    &&& trail[k] == final(self).entries()
                    &&& forall|i: int|
                        0 <= i < k ==> push_result_outcome(
                            #[trigger] trail[i],
                            results@[i],
                            trail[i + 1],
                            Ok(()),
                        )
                    &&& match r {
                        Ok(()) => k == results@.len(),
                        Err(e) => k < results@.len() && push_result_outcome(
                            trail[k],
                            results@[k],
                            trail[k],
                            Err(e),
                        ),
                    }
                },
    {
        proof {
            use_type_invariant(&*self);
        }
        let ghost all = results@;
        let mut rest = results;
        let ghost mut trail: Seq<Seq<TurnItem>> = seq![self.items@];
        let ghost mut k: int = 0;
        while rest.len() > 0
            invariant
                self.wf(),
                self.turn_id() == old(self).turn_id(),
                self.author_of() == old(self).author_of(),
                0 <= k <= all.len(),
                k + rest@.len() == all.len(),
                rest@ == all.skip(k),
                all == results@,
                trail.len() == k + 1,
                trail[0] == old(self).entries(),
                trail[k] == self.entries(),
                forall|i: int|
                    0 <= i < k ==> push_result_outcome(
                        #[trigger] trail[i],
                        all[i],
                        trail[i + 1],
                        Ok(()),
                    ),
            decreases rest@.len(),
        {
            let result = rest.remove(0);
            assert(result == all[k]);
            assert(rest@ =~= all.skip(k + 1));
            let ghost before = self.items@;
            match self.push_result(result) {
                Ok(()) => {},
                Err(e) => {
                    assert(push_result_outcome(trail[k], all[k], trail[k], Err(e)));
                    return Err(e);
                },
            }
            proof {
                trail = trail.push(self.items@);
                k = k + 1;
            }
        }
        Ok(())
    }

    /// Records the next step once every call of the last step has its
    /// result; a refused step leaves the turn unchanged.
    pub fn push_step(&mut self, step: Step) -> (r: Result<(), MessageError>)
        ensures
            final(self).wf(),
            final(self).turn_id() == old(self).turn_id(),
            final(self).author_of() == old(self).author_of(),
            push_step_outcome(old(self).entries(), step, final(self).entries(), r),
    {
        proof {
            use_type_invariant(&*self);
        }
        let state = self.state();
        match state {
            TurnState::AwaitingStep => {
                let last = self.last_step();
                let _ = last.content();
                let ghost old_items = self.items@;
                let mut items = placeholder_items();
                std::mem::swap(&mut items, &mut self.items);
                items.push(TurnItem::Step(step));
                proof {
                    lemma_step_added_valid(old_items, step);
                }
                self.items = items;
                Ok(())
            },
            other => Err(MessageError::TurnNotAwaitingStep { state: other.label() }),
        }
    }

    /// Rebuilds a turn from recorded items: the first must be a step
    /// (else `TurnMustStartWithStep`); the steps and results after it are
    /// replayed through `push_step` and `push_result`. Items that record a
    /// valid exchange, such as those of a well-formed turn, are always
    /// accepted and give back the same items.
    pub fn from_items(id: TurnId, author: Option<Author>, items: Vec<TurnItem>) -> (r: Result<
        Turn,
        MessageError,
    >)
        ensures
            match r {
                Ok(turn) => {
                    &&& items@.len() > 0
                    &&& items@[0] is Step
                    &&& turn.turn_id() == id
                    &&& turn.author_of() == author
                    &&& turn.wf()
                    &&& replays(
                        seq![items@[0]],
                        ops_of(items@.skip(1)),
                        Ok::<Seq<TurnItem>, MessageError>(turn.entries()),
                    )
                },
                Err(e) => if items@.len() > 0 && items@[0] is Step {
                    replays(seq![items@[0]], ops_of(items@.skip(1)), Err(e))
                } else {
                    e == MessageError::TurnMustStartWithStep
                },
            },
            valid_history(items@) ==> (r matches Ok(turn) && same_items(turn.entries(), items@)),
    {
        let ghost all = items@;
        let mut rest = items;
        if rest.len() == 0 {
            return Err(MessageError::TurnMustStartWithStep);
        }
        let first = rest.remove(0);
        let mut turn = match first {
            TurnItem::Step(step) => Turn::new(id, author, step),
            TurnItem::ToolResults(_) => {
                return Err(MessageError::TurnMustStartWithStep);
            },
        };
        let ghost tail = all.skip(1);
        let ghost ops = ops_of(tail);
        let ghost start = turn.entries();
        assert(rest@ =~= tail);
        assert(start == seq![all[0]]);
        proof {
            assert(tail.take(0) =~= Seq::<TurnItem>::empty());
            assert(all.take(1) =~= seq![all[0]]);
            assert(same_item(start[0], all.take(1)[0]));
        }
        let ghost mut trail: Seq<Seq<TurnItem>> = seq![start];
        let ghost mut done: int = 0;
        let ghost mut k: int = 0;
        while rest.len() > 0
            invariant
                turn.wf(),
                turn.turn_id() == id,
                turn.author_of() == author,
                all == items@,
                all.len() > 0,
                all[0] is Step,
                tail == all.skip(1),
                ops == ops_of(tail),
                start == seq![all[0]],
                0 <= k <= tail.len(),
                k + rest@.len() == tail.len(),
                rest@ == tail.skip(k),
                done == ops_of(tail.take(k)).len(),
                trail.len() == done + 1,
                trail[0] == start,
                trail[done] == turn.entries(),
                forall|i: int|
                    0 <= i < done ==> op_outcome(#[trigger] trail[i], ops[i], trail[i + 1], Ok(())),
                valid_history(all) ==> same_items(turn.entries(), all.take(k + 1)),
            decreases rest@.len(),
        {
            let item = rest.remove(0);
            assert(item == tail[k]);
            assert(rest@ =~= tail.skip(k + 1));
            let ghost now = ops_of(tail.take(k + 1));
            proof {
                lemma_ops_append(tail.take(k + 1), tail.skip(k + 1));
                assert(tail.take(k + 1) + tail.skip(k + 1) =~= tail);
                assert(tail.take(k + 1).drop_last() =~= tail.take(k));
                assert(now == ops_of(tail.take(k)) + item_ops(tail[k]));
                assert(forall|i: int| 0 <= i < now.len() ==> ops[i] == #[trigger] now[i]);
                assert(all[k + 1] == tail[k]);
            }
            match item {
                TurnItem::Step(step) => {
                    let ghost s = step;
                    assert(ops[done] == TurnOp::Step(s)) by {
                        assert(now[done] == TurnOp::Step(s));
                    }
                    proof {
                        if valid_history(all) {
                            lemma_step_expected(turn.entries(), all, k);
                        }
                    }
                    match turn.push_step(step) {
                        Ok(()) => {},
                        Err(e) => {
                            assert(op_outcome(trail[done], ops[done], trail[done], Err(e)));
                            assert(replays(start, ops, Err(e)));
                            return Err(e);
                        },
                    }
                    proof {
                        if valid_history(all) {
                            lemma_same_items_push(trail[done], all, k, TurnItem::Step(s));
                        }
                        trail = trail.push(turn.entries());
                        done = done + 1;
                    }
                },
                TurnItem::ToolResults(results) => {
                    let ghost entries = results.entries();
                    let ghost base = done;
                    let mut pending = results.into_results();
                    assert(pending@ =~= entries.skip(0));
                    assert(item_ops(tail[k]) =~= entries.map_values(|r: ToolResult| TurnOp::Result(r)));
                    let ghost mut j: int = 0;
                    while pending.len() > 0
                        invariant
                            turn.wf(),
                            turn.turn_id() == id,
                            turn.author_of() == author,
                            all == items@,
                            all.len() > 0,
                            all[0] is Step,
                            start == seq![all[0]],
                            tail == all.skip(1),
                            ops == ops_of(tail),
                            trail[0] == start,
                            0 <= k < tail.len(),
                            all[k + 1] == tail[k],
                            tail[k] is ToolResults,
                            tail[k]->ToolResults_0.entries() == entries,
                            distinct(result_ids(entries)),
                            0 <= j <= entries.len(),
                            j + pending@.len() == entries.len(),
                            pending@ == entries.skip(j),
                            0 <= base,
                            done == base + j,
                            base + entries.len() <= ops.len(),
                            forall|i: int|
                                0 <= i < entries.len() ==> ops[base + i] == TurnOp::Result(
                                    #[trigger] entries[i],
                                ),
                            trail.len() == done + 1,
                            trail[done] == turn.entries(),
                            forall|i: int|
                                0 <= i < done ==> op_outcome(
                                    #[trigger] trail[i],
                                    ops[i],
                                    trail[i + 1],
                                    Ok(()),
                                ),
                            valid_history(all) ==> partial_results(
                                turn.entries(),
                                all.take(k + 1),
                                entries,
                                j,
                            ),
                        decreases pending@.len(),
                    {
                        let result = pending.remove(0);
                        assert(result == entries[j]);
                        assert(pending@ =~= entries.skip(j + 1));
                        assert(ops[done] == TurnOp::Result(result));
                        let ghost before = turn.entries();
                        proof {
                            if valid_history(all) {
                                lemma_result_expected(before, all, k, entries, j);
                            }
                        }
                        match turn.push_result(result) {
                            Ok(()) => {},
                            Err(e) => {
                                assert(op_outcome(trail[done], ops[done], trail[done], Err(e)));
                                assert(replays(start, ops, Err(e)));
                                return Err(e);
                            },
                        }
                        proof {
                            if valid_history(all) {
                                lemma_result_extends(before, turn.entries(), all.take(k + 1), entries, j);
                            }
                            trail = trail.push(turn.entries());
                            done = done + 1;
                            j = j + 1;
                        }
                    }
                    proof {
                        if valid_history(all) {
                            lemma_results_complete(turn.entries(), all, k, entries);
                        }
                    }
                },
            }
            proof {
                k = k + 1;
            }
        }
        assert(tail.take(k) =~= tail);
        assert(replays(start, ops, Ok::<Seq<TurnItem>, MessageError>(turn.entries())));
        proof {
            if valid_history(all) {
                assert(all.take(k + 1) =~= all);
            }
        }
        Ok(turn)
    }

    fn last_step(&self) -> (r: &Step)
        requires
            self.wf(),
        ensures
            *r == last_step_of(self.entries()),
    {
        let mut i = self.items.len() - 1;
        loop
            invariant
                i < self.items@.len(),
                self.wf(),
                forall|j: int| i < j < self.items@.len() ==> #[trigger] self.items@[j] is ToolResults,
            decreases i,
        {
            match &self.items[i] {
                TurnItem::Step(step) => {
                    proof {
                        lemma_last_step_at(self.items@, i as int);
                    }
                    return step;
                },
                TurnItem::ToolResults(_) => {
                    assert(i > 0);
                    i = i - 1;
                },
            }
        }
    }
}

fn ids_contain(ids: &Vec<ToolCallId>, id: &ToolCallId) -> (r: bool)
    ensures
        r == id_views(ids@).contains(id@),
{
    let mut i: usize = 0;
    while i < ids.len()
        invariant
            i <= ids@.len(),
            forall|k: int| 0 <= k < i ==> ids@[k]@ != id@,
        decreases ids@.len() - i,
    {
        if ids[i].same(id) {
            assert(id_views(ids@)[i as int] == id@);
            return true;
        }
        i = i + 1;
    }
    proof {
        if id_views(ids@).contains(id@) {
            let k = choose|k: int|
                0 <= k < ids@.len() && #[trigger] id_views(ids@)[k] == id@;
            assert(ids@[k]@ == id@);
        }
    }
    false
}

proof fn lemma_result_added_valid(old: Seq<TurnItem>, new: Seq<TurnItem>, result: ToolResult)
    requires
        valid_history(old),
        state_of(old) matches StateView::AwaitingToolResults { pending } && pending.contains(
            result.tool_call_id@,
        ),
        result_added(old, new, result),
    ensures
        valid_history(new),
{
    let m = old.len() - 1;
    let step = last_step_of(old);
    lemma_not_collected(call_ids(step), trailing_ids(old));
    assert(call_ids(step).contains(result.tool_call_id@));
    if old.last() is ToolResults {
        assert(item_follows(old, m));
        assert(old.drop_last().last() == old[m - 1]);
        assert(last_step_of(old) == last_step_of(old.drop_last()));
        assert(step == old[m - 1]->Step_0);
        assert forall|k: int| 0 < k < new.len() implies #[trigger] item_follows(new, k) by {
            if k < m {
                assert(item_follows(old, k));
                assert(new[k] == old.drop_last()[k]);
                assert(new[k - 1] == old.drop_last()[k - 1]);
                if k >= 2 {
                    assert(new[k - 2] == old.drop_last()[k - 2]);
                }
            } else {
                assert(new[m - 1] == old.drop_last()[m - 1]);
                let before = old.last()->ToolResults_0.entries();
                let after = new.last()->ToolResults_0.entries();
                assert forall|i: int| 0 <= i < after.len() implies call_ids(step).contains(
                    #[trigger] result_ids(after)[i],
                ) by {
                    if i < before.len() {
                        assert(result_ids(after)[i] == result_ids(before)[i]);
                    }
                }
            }
        }
    } else {
        assert(step == old[m]->Step_0);
        assert forall|k: int| 0 < k < new.len() implies #[trigger] item_follows(new, k) by {
            if k < old.len() {
                assert(item_follows(old, k));
                assert(new[k] == old[k]);
                assert(new[k - 1] == old[k - 1]);
                if k >= 2 {
                    assert(new[k - 2] == old[k - 2]);
                }
            } else {
                assert(new[m] == old[m]);
                let after = new.last()->ToolResults_0.entries();
                assert(result_ids(after)[0] == result.tool_call_id@);
            }
        }
    }
    assert(new[0] == old[0]) by {
        if old.last() is ToolResults {
            assert(new.drop_last()[0] == old.drop_last()[0]);
        } else {
            assert(new.drop_last()[0] == old[0]);
        }
    }
}

proof fn lemma_step_added_valid(old: Seq<TurnItem>, step: Step)
    requires
        valid_history(old),
        state_of(old) is AwaitingStep,
        is_valid_step(last_step_of(old).blocks(), last_step_of(old).stop()),
    ensures
        valid_history(old.push(TurnItem::Step(step))),
{
    let m = old.len() - 1;
    let last = last_step_of(old);
    let new = old.push(TurnItem::Step(step));
    lemma_not_collected(call_ids(last), trailing_ids(old));
    if old.last() is Step {
        assert(last == old[m]->Step_0);
        lemma_calls_present(last.blocks());
        assert(call_ids(last).contains(call_ids(last)[0]));
        assert(not_collected(call_ids(last), trailing_ids(old)).contains(call_ids(last)[0]));
        assert(false);
    }
    assert(item_follows(old, m));
    assert(old.drop_last().last() == old[m - 1]);
    assert(last_step_of(old) == last_step_of(old.drop_last()));
    assert(last == old[m - 1]->Step_0);
    assert(trailing_ids(old) == result_ids(old[m]->ToolResults_0.entries()));
    assert forall|k: int| 0 < k < new.len() implies #[trigger] item_follows(new, k) by {
        if k < old.len() {
            assert(item_follows(old, k));
        } else {
            assert forall|i: int| 0 <= i < call_ids(last).len() implies result_ids(
                old[m]->ToolResults_0.entries(),
            ).contains(#[trigger] call_ids(last)[i]) by {
                assert(call_ids(last).contains(call_ids(last)[i]));
                assert(not_collected(call_ids(last), trailing_ids(old)).len() == 0);
                assert(!not_collected(call_ids(last), trailing_ids(old)).contains(
                    call_ids(last)[i],
                ));
            }
        }
    }
}

proof fn lemma_last_step_at(items: Seq<TurnItem>, i: int)
    requires
        0 <= i < items.len(),
        items[i] is Step,
        forall|j: int| i < j < items.len() ==> #[trigger] items[j] is ToolResults,
    ensures
        last_step_of(items) == items[i]->Step_0,
    decreases items.len(),
{
    if i < items.len() - 1 {
        assert(items[items.len() - 1] is ToolResults);
        lemma_last_step_at(items.drop_last(), i);
    }
}

/// Two items record the same thing: the same step, or results with the
/// same entries in the same order.
pub open spec fn same_item(a: TurnItem, b: TurnItem) -> bool {
    match a {
        TurnItem::Step(x) => b matches TurnItem::Step(y) && x == y,
        TurnItem::ToolResults(x) => b matches TurnItem::ToolResults(y) && x.entries() == y.entries(),
    }
}

/// Two lists of items that record the same things in the same order.
pub open spec fn same_items(a: Seq<TurnItem>, b: Seq<TurnItem>) -> bool {
    &&& a.len() == b.len()
    &&& forall|i: int| 0 <= i < a.len() ==> #[trigger] same_item(a[i], b[i])
}

/// `items` holds `prefix`, then (once `j > 0`) a results item with the first
/// `j` of `entries`.
spec fn partial_results(
    items: Seq<TurnItem>,
    prefix: Seq<TurnItem>,
    entries: Seq<ToolResult>,
    j: int,
) -> bool {
    if j == 0 {
        same_items(items, prefix)
    } else {
        &&& items.len() == prefix.len() + 1
        &&& same_items(items.drop_last(), prefix)
        &&& items.last() is ToolResults
        &&& items.last()->ToolResults_0.entries() == entries.take(j)
    }
}

proof fn lemma_same_items_state(a: Seq<TurnItem>, b: Seq<TurnItem>)
    requires
        same_items(a, b),
    ensures
        last_step_of(a) == last_step_of(b),
        trailing_ids(a) == trailing_ids(b),
        state_of(a) == state_of(b),
    decreases a.len(),
{
    if a.len() > 0 {
        assert(same_items(a.drop_last(), b.drop_last())) by {
            assert forall|i: int| 0 <= i < a.drop_last().len() implies #[trigger] same_item(
                a.drop_last()[i],
                b.drop_last()[i],
            ) by {
                assert(same_item(a[i], b[i]));
            }
        }
        lemma_same_items_state(a.drop_last(), b.drop_last());
        assert(same_item(a[a.len() - 1], b[b.len() - 1]));
    }
}

proof fn lemma_none_pending(ids: Seq<Seq<char>>, collected: Seq<Seq<char>>)
    requires
        forall|i: int| 0 <= i < ids.len() ==> collected.contains(#[trigger] ids[i]),
    ensures
        not_collected(ids, collected).len() == 0,
{
    lemma_not_collected(ids, collected);
    let left = not_collected(ids, collected);
    if left.len() > 0 {
        assert(left.contains(left[0]));
        let i = choose|i: int| 0 <= i < ids.len() && ids[i] == left[0];
        assert(collected.contains(ids[i]));
    }
}

proof fn lemma_ops_append(a: Seq<TurnItem>, b: Seq<TurnItem>)
    ensures
        ops_of(a + b) == ops_of(a) + ops_of(b),
    decreases b.len(),
{
    if b.len() == 0 {
        assert(a + b =~= a);
        assert(ops_of(a) + ops_of(b) =~= ops_of(a));
    } else {
        lemma_ops_append(a, b.drop_last());
        assert((a + b).drop_last() =~= a + b.drop_last());
        assert((a + b).last() == b.last());
        assert(ops_of(a + b) =~= ops_of(a) + ops_of(b));
    }
}

/// In a valid history, the step at `k + 1` comes when the items before it
/// await a step.
proof fn lemma_step_expected(a: Seq<TurnItem>, all: Seq<TurnItem>, k: int)
    requires
        valid_history(all),
        0 <= k,
        k + 1 < all.len(),
        all[k + 1] is Step,
        same_items(a, all.take(k + 1)),
    ensures
        state_of(a) is AwaitingStep,
{
    let prefix = all.take(k + 1);
    assert(item_follows(all, k + 1));
    assert(item_follows(all, k));
    lemma_same_items_state(a, prefix);
    assert(prefix.drop_last() =~= all.take(k));
    assert(prefix.last() == all[k]);
    assert(all.take(k).last() == all[k - 1]);
    let step = all[k - 1]->Step_0;
    assert(last_step_of(all.take(k)) == step);
    assert(last_step_of(prefix) == last_step_of(prefix.drop_last()));
    assert(last_step_of(prefix) == step);
    let collected = result_ids(all[k]->ToolResults_0.entries());
    assert(trailing_ids(prefix) == collected);
    lemma_none_pending(call_ids(step), collected);
}

proof fn lemma_same_items_push(a: Seq<TurnItem>, all: Seq<TurnItem>, k: int, item: TurnItem)
    requires
        same_items(a, all.take(k + 1)),
        0 <= k,
        k + 1 < all.len(),
        same_item(item, all[k + 1]),
    ensures
        same_items(a.push(item), all.take(k + 2)),
{
    assert forall|i: int| 0 <= i < a.len() + 1 implies #[trigger] same_item(
        a.push(item)[i],
        all.take(k + 2)[i],
    ) by {
        if i < a.len() {
            assert(same_item(a[i], all.take(k + 1)[i]));
        }
    }
}

/// In a valid history, result `j` of the results item at `k + 1` is
/// pending once the ones before it are collected.
proof fn lemma_result_expected(
    a: Seq<TurnItem>,
    all: Seq<TurnItem>,
    k: int,
    entries: Seq<ToolResult>,
    j: int,
)
    requires
        valid_history(all),
        0 <= k,
        k + 1 < all.len(),
        all[k + 1] is ToolResults,
        all[k + 1]->ToolResults_0.entries() == entries,
        distinct(result_ids(entries)),
        0 <= j < entries.len(),
        partial_results(a, all.take(k + 1), entries, j),
    ensures
        state_of(a) matches StateView::AwaitingToolResults { pending } && pending.contains(
            entries[j].tool_call_id@,
        ),
        a.len() > 0,
        j == 0 ==> a.last() is Step,
        j > 0 ==> a.last() is ToolResults,
{
    let prefix = all.take(k + 1);
    assert(item_follows(all, k + 1));
    let step = all[k]->Step_0;
    let id = entries[j].tool_call_id@;
    assert(result_ids(entries)[j] == id);
    assert(call_ids(step).contains(id));
    assert(prefix.last() == all[k]);
    if j == 0 {
        lemma_same_items_state(a, prefix);
        assert(same_item(a[a.len() - 1], prefix[prefix.len() - 1]));
        assert(last_step_of(prefix) == step);
        assert(trailing_ids(prefix) == Seq::<Seq<char>>::empty());
        lemma_not_collected(call_ids(step), trailing_ids(prefix));
        assert(not_collected(call_ids(step), trailing_ids(a)).contains(id));
    } else {
        lemma_same_items_state(a.drop_last(), prefix);
        assert(last_step_of(a) == last_step_of(a.drop_last()));
        assert(last_step_of(prefix) == step);
        let collected = result_ids(entries.take(j));
        assert(trailing_ids(a) == collected);
        assert(!collected.contains(id)) by {
            if collected.contains(id) {
                let i = choose|i: int| 0 <= i < collected.len() && collected[i] == id;
                assert(result_ids(entries)[i] == collected[i]);
            }
        }
        lemma_not_collected(call_ids(step), collected);
        assert(not_collected(call_ids(step), trailing_ids(a)).contains(id));
    }
}

proof fn lemma_result_extends(
    a: Seq<TurnItem>,
    new: Seq<TurnItem>,
    prefix: Seq<TurnItem>,
    entries: Seq<ToolResult>,
    j: int,
)
    requires
        0 <= j < entries.len(),
        a.len() > 0,
        partial_results(a, prefix, entries, j),
        j == 0 ==> a.last() is Step,
        j > 0 ==> a.last() is ToolResults,
        result_added(a, new, entries[j]),
    ensures
        partial_results(new, prefix, entries, j + 1),
{
    if j == 0 {
        assert(entries.take(1) =~= seq![entries[0]]);
    } else {
        assert(entries.take(j).push(entries[j]) =~= entries.take(j + 1));
    }
}

proof fn lemma_results_complete(
    a: Seq<TurnItem>,
    all: Seq<TurnItem>,
    k: int,
    entries: Seq<ToolResult>,
)
    requires
        valid_history(all),
        0 <= k,
        k + 1 < all.len(),
        all[k + 1] is ToolResults,
        all[k + 1]->ToolResults_0.entries() == entries,
        partial_results(a, all.take(k + 1), entries, entries.len() as int),
    ensures
        same_items(a, all.take(k + 2)),
{
    assert(item_follows(all, k + 1));
    assert(entries.take(entries.len() as int) =~= entries);
    assert forall|i: int| 0 <= i < a.len() implies #[trigger] same_item(a[i], all.take(k + 2)[i]) by {
        if i < a.len() - 1 {
            assert(same_item(a.drop_last()[i], all.take(k + 1)[i]));
        }
    }
}

/// The calls of two steps with the same blocks carry the same ids.
proof fn lemma_copied_calls(a: Step, b: Step)
    requires
        a.blocks() == b.blocks(),
    ensures
        call_ids(a) == call_ids(b),
{
}

proof fn lemma_copied_state(a: Seq<TurnItem>, b: Seq<TurnItem>)
    requires
        copied_items(a, b),
    ensures
        last_step_of(a).blocks() == last_step_of(b).blocks(),
        last_step_of(a).stop() == last_step_of(b).stop(),
        trailing_ids(a) == trailing_ids(b),
        state_of(a) == state_of(b),
    decreases a.len(),
{
    if a.len() > 0 {
        assert(copied_items(a.drop_last(), b.drop_last())) by {
            assert forall|i: int| 0 <= i < a.drop_last().len() implies #[trigger] copied_item(
                a.drop_last()[i],
                b.drop_last()[i],
            ) by {
                assert(copied_item(a[i], b[i]));
            }
        }
        lemma_copied_state(a.drop_last(), b.drop_last());
        assert(copied_item(a[a.len() - 1], b[b.len() - 1]));
    }
    lemma_copied_calls(last_step_of(a), last_step_of(b));
}

/// A copy of a valid history is a valid history.
proof fn lemma_copied_history(a: Seq<TurnItem>, b: Seq<TurnItem>)
    requires
        copied_items(a, b),
        valid_history(b),
    ensures
        valid_history(a),
{
    assert(copied_item(a[0], b[0]));
    assert forall|k: int| 0 < k < a.len() implies #[trigger] item_follows(a, k) by {
        assert(item_follows(b, k));
        assert(copied_item(a[k], b[k]));
        assert(copied_item(a[k - 1], b[k - 1]));
        if k >= 2 {
            assert(copied_item(a[k - 2], b[k - 2]));
        }
        if a[k] is ToolResults {
            lemma_copied_calls(a[k - 1]->Step_0, b[k - 1]->Step_0);
        } else if k >= 2 && a[k - 2] is Step {
            lemma_copied_calls(a[k - 2]->Step_0, b[k - 2]->Step_0);
        }
    }
}

/// The ids of `ids` other than `x`, in order.
pub open spec fn without_id(ids: Seq<Seq<char>>, x: Seq<char>) -> Seq<Seq<char>>
    decreases ids.len(),
{
    if ids.len() == 0 {
        Seq::empty()
    } else {
        let rest = without_id(ids.drop_last(), x);
        if ids.last() == x {
            rest
        } else {
            rest.push(ids.last())
        }
    }
}

/// The state of a turn whose latest item is `step`: awaiting the results of
/// all its calls, in call order, or finished with its stop reason.
pub open spec fn state_after_step(step: Step) -> StateView {
    if step.stop() is AwaitingToolResults {
        StateView::AwaitingToolResults { pending: call_ids(step) }
    } else {
        StateView::Finished { stop_reason: step.stop() }
    }
}

proof fn lemma_none_collected(ids: Seq<Seq<char>>)
    ensures
        not_collected(ids, Seq::empty()) == ids,
    decreases ids.len(),
{
    if ids.len() > 0 {
        lemma_none_collected(ids.drop_last());
        assert(ids.drop_last().push(ids.last()) =~= ids);
    }
}

proof fn lemma_collect_one_more(ids: Seq<Seq<char>>, collected: Seq<Seq<char>>, x: Seq<char>)
    ensures
        not_collected(ids, collected.push(x)) == without_id(not_collected(ids, collected), x),
    decreases ids.len(),
{
    if ids.len() > 0 {
        lemma_collect_one_more(ids.drop_last(), collected, x);
        let last = ids.last();
        let rest = not_collected(ids.drop_last(), collected);
        assert(rest.push(last).drop_last() =~= rest);
        assert(collected.push(x).contains(last) <==> (collected.contains(last) || last == x)) by {
            if collected.push(x).contains(last) && !collected.contains(last) {
                let i = choose|i: int| 0 <= i < collected.len() + 1 && collected.push(x)[i] == last;
                if i < collected.len() {
                    assert(collected[i] == last);
                }
            }
            if collected.contains(last) {
                let i = choose|i: int| 0 <= i < collected.len() && collected[i] == last;
                assert(collected.push(x)[i] == last);
            }
            if last == x {
                assert(collected.push(x)[collected.len() as int] == x);
            }
        }
    }
}

/// Once a step is recorded, the turn awaits the results of all of that
/// step's calls, in call order, or is finished with the step's stop reason.
pub proof fn lemma_step_sets_state(items: Seq<TurnItem>, step: Step)
    requires
        is_valid_step(step.blocks(), step.stop()),
    ensures
        state_of(items.push(TurnItem::Step(step))) == state_after_step(step),
{
    let all = items.push(TurnItem::Step(step));
    assert(all.last() == TurnItem::Step(step));
    assert(trailing_ids(all) == Seq::<Seq<char>>::empty());
    lemma_none_collected(call_ids(step));
    if step.stop() is AwaitingToolResults {
        lemma_calls_present(step.blocks());
    }
}

/// Recording a pending result takes exactly its id off the pending list and
/// keeps the order of the others; once none is left, the turn awaits its
/// next step.
pub proof fn lemma_result_clears_pending(old: Seq<TurnItem>, new: Seq<TurnItem>, result: ToolResult)
    requires
        valid_history(old),
        state_of(old) matches StateView::AwaitingToolResults { pending } && pending.contains(
            result.tool_call_id@,
        ),
        result_added(old, new, result),
    ensures
        state_of(old) matches StateView::AwaitingToolResults { pending } && {
            let rest = without_id(pending, result.tool_call_id@);
            state_of(new) == if rest.len() == 0 {
                StateView::AwaitingStep
            } else {
                StateView::AwaitingToolResults { pending: rest }
            }
        },
{
    let id = result.tool_call_id@;
    assert(last_step_of(new) == last_step_of(old)) by {
        assert(new.last() is ToolResults);
        if old.last() is ToolResults {
            assert(last_step_of(old) == last_step_of(old.drop_last()));
        }
    }
    assert(trailing_ids(new) == trailing_ids(old).push(id)) by {
        if old.last() is ToolResults {
            let before = old.last()->ToolResults_0.entries();
            assert(result_ids(before.push(result)) =~= result_ids(before).push(id));
        } else {
            assert(result_ids(seq![result]) =~= seq![id]);
            assert(Seq::<Seq<char>>::empty().push(id) =~= seq![id]);
        }
    }
    lemma_collect_one_more(call_ids(last_step_of(old)), trailing_ids(old), id);
}

/// The pending ids are the call ids not yet collected, in call order.
pub proof fn lemma_pending_in_call_order(ids: Seq<Seq<char>>, collected: Seq<Seq<char>>)
    ensures
        not_collected(ids, collected) == ids.filter(|x: Seq<char>| !collected.contains(x)),
    decreases ids.len(),
{
    reveal(Seq::filter);
    if ids.len() > 0 {
        lemma_pending_in_call_order(ids.drop_last(), collected);
    }
}

/// Taking an id off a list keeps every other id, in order.
pub proof fn lemma_without_id_keeps_order(ids: Seq<Seq<char>>, x: Seq<char>)
    ensures
        without_id(ids, x) == ids.filter(|y: Seq<char>| y != x),
    decreases ids.len(),
{
    reveal(Seq::filter);
    if ids.len() > 0 {
        lemma_without_id_keeps_order(ids.drop_last(), x);
    }
}

} // verus!
