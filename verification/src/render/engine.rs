use vstd::prelude::*;

use crate::block::{Image, ToolResult, same_result};
use crate::conversation::{Conversation, Entry, conversation_valid};
use crate::error::MessageError;
use crate::turn::{Turn, TurnItem, TurnState, state_of};
use crate::value::{Author, Text};

use super::frame::{
    agent_frame, agent_frame_text, agent_message, agent_parts, author_text, framed_text, image_blocks,
    join, paragraph_break, render_agent_frame, render_user_frame, source_kind, source_role,
    user_frame, user_frame_parts, user_images, user_message, user_texts,
};
use super::wire::{
    Perspective, WireBlockSpec, WireMessage, WireSpec, WireUserBlock, block_matches, blocks_match,
    message_matches, messages_match,
};

verus! {

/// The entry is a turn written by `agent`.
pub open spec fn is_own(entry: Entry, agent: Author) -> bool {
    &&& entry is Turn
    &&& entry->Turn_0.author_of() is Some
    &&& entry->Turn_0.author_of()->0@ == agent@
}

/// Some turn of `agent` still awaits tool results.
pub open spec fn own_turn_awaits(entries: Seq<Entry>, agent: Author) -> bool {
    exists|i: int|
        0 <= i < entries.len() && is_own(#[trigger] entries[i], agent) && state_of(
            entries[i]->Turn_0.entries(),
        ) is AwaitingToolResults
}

/// The index of the last turn of `agent`.
pub open spec fn last_own(entries: Seq<Entry>, agent: Author) -> Option<int>
    decreases entries.len(),
{
    if entries.len() == 0 {
        None
    } else if is_own(entries.last(), agent) {
        Some(entries.len() - 1)
    } else {
        last_own(entries.drop_last(), agent)
    }
}

/// Where the entries to relay start: right after the last turn of `agent`
/// when that turn is not finished and entries follow it.
pub open spec fn relay_start(entries: Seq<Entry>, agent: Author) -> Option<int> {
    match last_own(entries, agent) {
        None => None,
        Some(i) => if state_of(entries[i]->Turn_0.entries()) is Finished || i + 1 == entries.len() {
            None
        } else {
            Some(i + 1)
        },
    }
}

pub open spec fn result_blocks_of(results: Seq<ToolResult>) -> Seq<WireBlockSpec> {
    results.map_values(|r: ToolResult| WireBlockSpec::ToolResult(r))
}

/// An own turn verbatim: each step an assistant message, each results item
/// a user message of tool results.
pub open spec fn own_turn_messages(items: Seq<TurnItem>) -> Seq<WireSpec>
    decreases items.len(),
{
    if items.len() == 0 {
        Seq::empty()
    } else {
        own_turn_messages(items.drop_last()).push(
            match items.last() {
                TurnItem::Step(step) => WireSpec::Assistant(step.blocks()),
                TurnItem::ToolResults(results) => WireSpec::User(
                    result_blocks_of(results.entries()),
                ),
            },
        )
    }
}

pub open spec fn entry_messages(entry: Entry, agent: Author) -> Seq<WireSpec> {
    match entry {
        Entry::Turn(turn) => if is_own(entry, agent) {
            own_turn_messages(turn.entries())
        } else {
            seq![agent_message(turn)]
        },
        Entry::UserInput(input) => seq![user_message(input)],
    }
}

/// The messages of the entries before the relay, in order.
pub open spec fn head_messages(entries: Seq<Entry>, agent: Author) -> Seq<WireSpec>
    decreases entries.len(),
{
    if entries.len() == 0 {
        Seq::empty()
    } else {
        head_messages(entries.drop_last(), agent) + entry_messages(entries.last(), agent)
    }
}

/// Appends a message, folding a user message into a user message that
/// ends the list.
pub open spec fn merge_step(acc: Seq<WireSpec>, m: WireSpec) -> Seq<WireSpec> {
    match m {
        WireSpec::User(blocks) => if acc.len() > 0 && acc.last() is User {
            acc.update(acc.len() - 1, WireSpec::User(acc.last()->User_0 + blocks))
        } else {
            acc.push(m)
        },
        _ => acc.push(m),
    }
}

pub open spec fn concat_users(messages: Seq<WireSpec>) -> Seq<WireSpec>
    decreases messages.len(),
{
    if messages.len() == 0 {
        Seq::empty()
    } else {
        merge_step(concat_users(messages.drop_last()), messages.last())
    }
}

pub open spec fn is_result_block(b: WireBlockSpec) -> bool {
    b is ToolResult
}

/// The tool-result blocks, in order.
pub open spec fn result_part(blocks: Seq<WireBlockSpec>) -> Seq<WireBlockSpec>
    decreases blocks.len(),
{
    if blocks.len() == 0 {
        Seq::empty()
    } else if is_result_block(blocks.last()) {
        result_part(blocks.drop_last()).push(blocks.last())
    } else {
        result_part(blocks.drop_last())
    }
}

/// The other blocks, in order.
pub open spec fn other_part(blocks: Seq<WireBlockSpec>) -> Seq<WireBlockSpec>
    decreases blocks.len(),
{
    if blocks.len() == 0 {
        Seq::empty()
    } else if is_result_block(blocks.last()) {
        other_part(blocks.drop_last())
    } else {
        other_part(blocks.drop_last()).push(blocks.last())
    }
}

pub open spec fn results_first(m: WireSpec) -> WireSpec {
    match m {
        WireSpec::User(blocks) => WireSpec::User(result_part(blocks) + other_part(blocks)),
        _ => m,
    }
}

/// Consecutive user messages merged into one, each with its tool results
/// first.
pub open spec fn merge_user_messages(messages: Seq<WireSpec>) -> Seq<WireSpec> {
    concat_users(messages).map_values(|m: WireSpec| results_first(m))
}

/// The framed texts of the relayed entries, in order.
pub open spec fn relay_texts(entries: Seq<Entry>) -> Seq<Seq<char>>
    decreases entries.len(),
{
    if entries.len() == 0 {
        Seq::empty()
    } else {
        relay_texts(entries.drop_last()).push(
            match entries.last() {
                Entry::UserInput(input) => user_frame(input),
                Entry::Turn(turn) => agent_frame(turn),
            },
        )
    }
}

/// The images of the relayed inputs, in order.
pub open spec fn relay_images(entries: Seq<Entry>) -> Seq<Image>
    decreases entries.len(),
{
    if entries.len() == 0 {
        Seq::empty()
    } else {
        relay_images(entries.drop_last()) + match entries.last() {
            Entry::UserInput(input) => user_images(input.blocks()),
            Entry::Turn(_) => Seq::empty(),
        }
    }
}

/// The index of the last user message.
pub open spec fn last_user(messages: Seq<WireSpec>) -> Option<int>
    decreases messages.len(),
{
    if messages.len() == 0 {
        None
    } else if messages.last() is User {
        Some(messages.len() - 1)
    } else {
        last_user(messages.drop_last())
    }
}

/// The images appended to the last user message, if there is one.
pub open spec fn with_images(messages: Seq<WireSpec>, images: Seq<Image>) -> Seq<WireSpec> {
    if images.len() == 0 {
        messages
    } else {
        match last_user(messages) {
            Some(i) => messages.update(
                i,
                WireSpec::User(messages[i]->User_0 + image_blocks(images)),
            ),
            None => messages,
        }
    }
}

/// The wire messages of a conversation seen by `agent`: refused while one
/// of its turns awaits tool results; the entries before the relay rendered
/// (own turns verbatim, other turns and inputs framed) and merged; the
/// entries after an open own turn folded into one relay, their images on
/// the last user message; refused when empty or not opening with a user
/// message.
pub open spec fn render_spec(entries: Seq<Entry>, agent: Author) -> Result<
    Seq<WireSpec>,
    MessageError,
> {
    if own_turn_awaits(entries, agent) {
        Err(MessageError::TurnAwaitingResults)
    } else {
        let (head, tail) = match relay_start(entries, agent) {
            Some(start) => (entries.take(start), entries.skip(start)),
            None => (entries, Seq::empty()),
        };
        let merged = merge_user_messages(head_messages(head, agent));
        let all = if tail.len() > 0 {
            with_images(merged, relay_images(tail)).push(WireSpec::Relay(relay_texts(tail)))
        } else {
            merged
        };
        if all.len() == 0 {
            Err(MessageError::EmptyRender)
        } else if all[0] is User {
            Ok(all)
        } else {
            Err(MessageError::RenderStartsWithAssistant)
        }
    }
}

/// The blocks of all the user messages, in message order.
pub open spec fn user_blocks(messages: Seq<WireSpec>) -> Seq<WireBlockSpec>
    decreases messages.len(),
{
    if messages.len() == 0 {
        Seq::empty()
    } else {
        user_blocks(messages.drop_last()) + match messages.last() {
            WireSpec::User(blocks) => blocks,
            _ => Seq::empty(),
        }
    }
}

proof fn lemma_user_blocks_push(messages: Seq<WireSpec>, m: WireSpec)
    ensures
        user_blocks(messages.push(m)) == user_blocks(messages) + match m {
            WireSpec::User(blocks) => blocks,
            _ => Seq::empty(),
        },
{
    assert(messages.push(m).drop_last() =~= messages);
}

/// Merging consecutive user messages loses no block and keeps the order of
/// the blocks: an earlier message's blocks come before a later one's.
pub proof fn lemma_merge_keeps_block_order(messages: Seq<WireSpec>)
    ensures
        user_blocks(concat_users(messages)) == user_blocks(messages),
    decreases messages.len(),
{
    if messages.len() > 0 {
        let m = messages.last();
        let acc = concat_users(messages.drop_last());
        lemma_merge_keeps_block_order(messages.drop_last());
        match m {
            WireSpec::User(blocks) => {
                if acc.len() > 0 && acc.last() is User {
                    let merged = acc.update(acc.len() - 1, WireSpec::User(acc.last()->User_0 + blocks));
                    assert(merged.drop_last() =~= acc.drop_last());
                    assert(user_blocks(acc) == user_blocks(acc.drop_last()) + acc.last()->User_0);
                    assert(user_blocks(merged) =~= user_blocks(acc) + blocks);
                } else {
                    lemma_user_blocks_push(acc, m);
                }
            },
            _ => {
                lemma_user_blocks_push(acc, m);
            },
        }
    }
}

/// Merging leaves the assistant and relay messages as they were, in order.
pub proof fn lemma_merge_keeps_other_messages(messages: Seq<WireSpec>)
    ensures
        concat_users(messages).filter(|m: WireSpec| !(m is User)) == messages.filter(
            |m: WireSpec| !(m is User),
        ),
    decreases messages.len(),
{
    reveal(Seq::filter);
    let keep = |m: WireSpec| !(m is User);
    if messages.len() > 0 {
        let m = messages.last();
        let acc = concat_users(messages.drop_last());
        lemma_merge_keeps_other_messages(messages.drop_last());
        if m is User && acc.len() > 0 && acc.last() is User {
            let merged = acc.update(acc.len() - 1, WireSpec::User(acc.last()->User_0 + m->User_0));
            assert(merged.drop_last() =~= acc.drop_last());
            assert(merged.filter(keep) == merged.drop_last().filter(keep));
            assert(acc.filter(keep) == acc.drop_last().filter(keep));
        } else {
            assert(acc.push(m).drop_last() =~= acc);
        }
    }
}

/// Putting tool results first keeps the tool results in their order, and
/// the other blocks in theirs.
pub proof fn lemma_results_first_keeps_order(blocks: Seq<WireBlockSpec>)
    ensures
        result_part(blocks) == blocks.filter(|b: WireBlockSpec| is_result_block(b)),
        other_part(blocks) == blocks.filter(|b: WireBlockSpec| !is_result_block(b)),
    decreases blocks.len(),
{
    reveal(Seq::filter);
    if blocks.len() > 0 {
        lemma_results_first_keeps_order(blocks.drop_last());
    }
}

/// An own turn is rendered one message per item, in item order: each step
/// verbatim as an assistant message, each results item as a user message
/// holding exactly its results.
pub proof fn lemma_own_turn_one_message_per_item(items: Seq<TurnItem>)
    ensures
        own_turn_messages(items).len() == items.len(),
        forall|i: int|
            0 <= i < items.len() ==> #[trigger] own_turn_messages(items)[i] == match items[i] {
                TurnItem::Step(step) => WireSpec::Assistant(step.blocks()),
                TurnItem::ToolResults(results) => WireSpec::User(
                    results.entries().map_values(|r: ToolResult| WireBlockSpec::ToolResult(r)),
                ),
            },
    decreases items.len(),
{
    if items.len() > 0 {
        lemma_own_turn_one_message_per_item(items.drop_last());
        assert forall|i: int| 0 <= i < items.len() - 1 implies own_turn_messages(items)[i]
            == own_turn_messages(items.drop_last())[i] by {}
    }
}

/// The relay holds one framed text per relayed entry, in entry order.
pub proof fn lemma_relay_one_text_per_entry(entries: Seq<Entry>)
    ensures
        relay_texts(entries).len() == entries.len(),
        forall|i: int|
            0 <= i < entries.len() ==> #[trigger] relay_texts(entries)[i] == match entries[i] {
                Entry::UserInput(input) => user_frame(input),
                Entry::Turn(turn) => agent_frame(turn),
            },
    decreases entries.len(),
{
    if entries.len() > 0 {
        lemma_relay_one_text_per_entry(entries.drop_last());
        assert forall|i: int| 0 <= i < entries.len() - 1 implies relay_texts(entries)[i]
            == relay_texts(entries.drop_last())[i] by {}
    }
}

proof fn lemma_last_user_is_last(messages: Seq<WireSpec>)
    ensures
        last_user(messages) matches Some(i) ==> forall|j: int|
            i < j < messages.len() ==> !(#[trigger] messages[j] is User),
    decreases messages.len(),
{
    lemma_last_user_is_user(messages);
    if messages.len() > 0 && !(messages.last() is User) {
        lemma_last_user_is_last(messages.drop_last());
        if let Some(i) = last_user(messages) {
            assert(last_user(messages.drop_last()) == Some(i));
            assert forall|j: int| i < j < messages.len() implies !(#[trigger] messages[j] is User) by {
                if j < messages.len() - 1 {
                    assert(messages[j] == messages.drop_last()[j]);
                }
            }
        }
    }
}

proof fn lemma_user_blocks_extend(messages: Seq<WireSpec>, i: int, extra: Seq<WireBlockSpec>)
    requires
        0 <= i < messages.len(),
        messages[i] is User,
        forall|j: int| i < j < messages.len() ==> !(#[trigger] messages[j] is User),
    ensures
        user_blocks(messages.update(i, WireSpec::User(messages[i]->User_0 + extra))) == user_blocks(
            messages,
        ) + extra,
    decreases messages.len(),
{
    let updated = messages.update(i, WireSpec::User(messages[i]->User_0 + extra));
    if i < messages.len() - 1 {
        assert(!(messages[messages.len() - 1] is User));
        assert(updated.drop_last() =~= messages.drop_last().update(
            i,
            WireSpec::User(messages[i]->User_0 + extra),
        ));
        lemma_user_blocks_extend(messages.drop_last(), i, extra);
    } else {
        assert(updated.drop_last() =~= messages.drop_last());
        assert(user_blocks(updated) =~= user_blocks(messages) + extra);
    }
}

/// The images of relayed inputs land after every block already in the
/// user messages, in their own order, when there is a user message to take
/// them; the number of messages does not change.
pub proof fn lemma_relayed_images_appended(messages: Seq<WireSpec>, images: Seq<Image>)
    ensures
        with_images(messages, images).len() == messages.len(),
        user_blocks(with_images(messages, images)) == if last_user(messages) is Some {
            user_blocks(messages) + images.map_values(|i: Image| WireBlockSpec::Image(i))
        } else {
            user_blocks(messages)
        },
{
    lemma_last_user_is_user(messages);
    lemma_last_user_is_last(messages);
    let added = images.map_values(|i: Image| WireBlockSpec::Image(i));
    if images.len() == 0 {
        assert(user_blocks(messages) + added =~= user_blocks(messages));
    } else if let Some(k) = last_user(messages) {
        lemma_user_blocks_extend(messages, k, added);
    }
}

/// No two user messages stand next to each other.
pub open spec fn no_adjacent_users(messages: Seq<WireSpec>) -> bool {
    forall|i: int, j: int|
        #![trigger messages[i], messages[j]]
        0 <= i && j == i + 1 && j < messages.len() ==> !(messages[i] is User && messages[j] is User)
}

/// Every tool-result block comes before every other block.
pub open spec fn results_lead(blocks: Seq<WireBlockSpec>) -> bool {
    forall|a: int, b: int|
        #![trigger blocks[a], blocks[b]]
        0 <= a < b < blocks.len() && is_result_block(blocks[b]) ==> is_result_block(blocks[a])
}

/// Each user message lists its tool results first.
pub open spec fn user_results_lead(messages: Seq<WireSpec>) -> bool {
    forall|i: int|
        0 <= i < messages.len() && #[trigger] messages[i] is User ==> results_lead(
            messages[i]->User_0,
        )
}

proof fn lemma_concat_users_alternate(messages: Seq<WireSpec>)
    ensures
        no_adjacent_users(concat_users(messages)),
    decreases messages.len(),
{
    if messages.len() > 0 {
        lemma_concat_users_alternate(messages.drop_last());
        let acc = concat_users(messages.drop_last());
        let all = concat_users(messages);
        assert forall|i: int, j: int|
            0 <= i && j == i + 1 && j < all.len() implies !(#[trigger] all[i] is User
            && #[trigger] all[j] is User) by {
            if j < acc.len() {
                assert(all[i] is User <==> acc[i] is User);
                assert(all[j] is User <==> acc[j] is User);
            } else if j == acc.len() {
                assert(all[i] == acc[i]);
            }
        }
    }
}

proof fn lemma_result_part_results(blocks: Seq<WireBlockSpec>)
    ensures
        forall|i: int|
            0 <= i < result_part(blocks).len() ==> is_result_block(#[trigger] result_part(blocks)[i]),
    decreases blocks.len(),
{
    if blocks.len() > 0 {
        lemma_result_part_results(blocks.drop_last());
        let rest = result_part(blocks.drop_last());
        assert forall|i: int| 0 <= i < result_part(blocks).len() implies is_result_block(
            #[trigger] result_part(blocks)[i],
        ) by {
            if i < rest.len() {
                assert(result_part(blocks)[i] == rest[i]);
            }
        }
    }
}

proof fn lemma_other_part_others(blocks: Seq<WireBlockSpec>)
    ensures
        forall|i: int|
            0 <= i < other_part(blocks).len() ==> !is_result_block(#[trigger] other_part(blocks)[i]),
    decreases blocks.len(),
{
    if blocks.len() > 0 {
        lemma_other_part_others(blocks.drop_last());
        let rest = other_part(blocks.drop_last());
        assert forall|i: int| 0 <= i < other_part(blocks).len() implies !is_result_block(
            #[trigger] other_part(blocks)[i],
        ) by {
            if i < rest.len() {
                assert(other_part(blocks)[i] == rest[i]);
            }
        }
    }
}

proof fn lemma_results_first_leads(m: WireSpec)
    requires
        m is User,
    ensures
        results_first(m) is User,
        results_lead(results_first(m)->User_0),
{
    let blocks = m->User_0;
    lemma_result_part_results(blocks);
    lemma_other_part_others(blocks);
    let r = result_part(blocks);
    let all = r + other_part(blocks);
    assert forall|a: int, b: int|
        0 <= a < b < all.len() && is_result_block(#[trigger] all[b]) implies is_result_block(
        #[trigger] all[a],
    ) by {
        if b >= r.len() {
            assert(all[b] == other_part(blocks)[b - r.len()]);
        }
        assert(all[a] == r[a]);
    }
}

proof fn lemma_merged_shape(messages: Seq<WireSpec>)
    ensures
        no_adjacent_users(merge_user_messages(messages)),
        user_results_lead(merge_user_messages(messages)),
{
    let c = concat_users(messages);
    let merged = merge_user_messages(messages);
    lemma_concat_users_alternate(messages);
    assert forall|i: int| 0 <= i < merged.len() implies (#[trigger] merged[i] is User <==> c[i] is User) by {
        if c[i] is User {
            lemma_results_first_leads(c[i]);
        }
    }
    assert forall|i: int, j: int|
        0 <= i && j == i + 1 && j < merged.len() implies !(#[trigger] merged[i] is User
        && #[trigger] merged[j] is User) by {
        assert(merged[i] is User <==> c[i] is User);
        assert(merged[j] is User <==> c[j] is User);
    }
    assert forall|i: int| 0 <= i < merged.len() && #[trigger] merged[i] is User implies results_lead(
        merged[i]->User_0,
    ) by {
        assert(c[i] is User);
        lemma_results_first_leads(c[i]);
    }
}

proof fn lemma_with_images_shape(messages: Seq<WireSpec>, images: Seq<Image>)
    requires
        no_adjacent_users(messages),
        user_results_lead(messages),
    ensures
        no_adjacent_users(with_images(messages, images)),
        user_results_lead(with_images(messages, images)),
        with_images(messages, images).len() == messages.len(),
        forall|i: int|
            0 <= i < messages.len() ==> (#[trigger] with_images(messages, images)[i] is User
                <==> messages[i] is User),
{
    lemma_last_user_is_user(messages);
    let out = with_images(messages, images);
    if images.len() > 0 {
        if let Some(k) = last_user(messages) {
            let old_blocks = messages[k]->User_0;
            let added = image_blocks(images);
            let blocks = old_blocks + added;
            assert(results_lead(old_blocks));
            assert forall|a: int, b: int|
                0 <= a < b < blocks.len() && is_result_block(#[trigger] blocks[b]) implies is_result_block(
                #[trigger] blocks[a],
            ) by {
                if b >= old_blocks.len() {
                    assert(blocks[b] == added[b - old_blocks.len()]);
                }
                assert(blocks[a] == old_blocks[a]);
                assert(blocks[b] == old_blocks[b]);
            }
            assert forall|i: int| 0 <= i < out.len() && #[trigger] out[i] is User implies results_lead(
                out[i]->User_0,
            ) by {
                if i != k {
                    assert(out[i] == messages[i]);
                }
            }
            assert forall|i: int, j: int|
                0 <= i && j == i + 1 && j < out.len() implies !(#[trigger] out[i] is User
                && #[trigger] out[j] is User) by {
                assert(out[i] is User <==> messages[i] is User);
                assert(out[j] is User <==> messages[j] is User);
            }
        }
    }
}

/// A rendered list opens with a user message, never holds two user
/// messages in a row, and lists the tool results of each user message
/// before its other blocks.
pub proof fn lemma_render_shape(entries: Seq<Entry>, agent: Author)
    requires
        render_spec(entries, agent) is Ok,
    ensures
        render_spec(entries, agent) matches Ok(all) && all.len() > 0 && all[0] is User
            && no_adjacent_users(all) && user_results_lead(all),
{
    let (head, tail) = match relay_start(entries, agent) {
        Some(start) => (entries.take(start), entries.skip(start)),
        None => (entries, Seq::<Entry>::empty()),
    };
    let merged = merge_user_messages(head_messages(head, agent));
    lemma_merged_shape(head_messages(head, agent));
    if tail.len() > 0 {
        let imaged = with_images(merged, relay_images(tail));
        lemma_with_images_shape(merged, relay_images(tail));
        let all = imaged.push(WireSpec::Relay(relay_texts(tail)));
        assert forall|i: int, j: int|
            0 <= i && j == i + 1 && j < all.len() implies !(#[trigger] all[i] is User
            && #[trigger] all[j] is User) by {
            if j < imaged.len() {
                assert(all[i] == imaged[i] && all[j] == imaged[j]);
            }
        }
        assert forall|i: int| 0 <= i < all.len() && #[trigger] all[i] is User implies results_lead(
            all[i]->User_0,
        ) by {
            assert(all[i] == imaged[i]);
        }
    }
}

/// While one of the agent's own turns awaits tool results, rendering for
/// that agent is refused with `TurnAwaitingResults`.
pub proof fn lemma_render_waits_for_results(entries: Seq<Entry>, agent: Author, i: int)
    requires
        0 <= i < entries.len(),
        is_own(entries[i], agent),
        state_of(entries[i]->Turn_0.entries()) is AwaitingToolResults,
    ensures
        render_spec(entries, agent) == Err::<Seq<WireSpec>, MessageError>(
            MessageError::TurnAwaitingResults,
        ),
{
    assert(own_turn_awaits(entries, agent));
}

proof fn lemma_blocks_match_concat(
    a: Seq<WireUserBlock>,
    sa: Seq<WireBlockSpec>,
    b: Seq<WireUserBlock>,
    sb: Seq<WireBlockSpec>,
)
    requires
        blocks_match(a, sa),
        blocks_match(b, sb),
    ensures
        blocks_match(a + b, sa + sb),
{
    assert forall|i: int| 0 <= i < (a + b).len() implies block_matches(
        #[trigger] (a + b)[i],
        (sa + sb)[i],
    ) by {
        if i >= a.len() {
            assert(block_matches(b[i - a.len()], sb[i - a.len()]));
        } else {
            assert(block_matches(a[i], sa[i]));
        }
    }
}

proof fn lemma_messages_match_push(
    ms: Seq<WireMessage>,
    specs: Seq<WireSpec>,
    m: WireMessage,
    spec: WireSpec,
)
    requires
        messages_match(ms, specs),
        message_matches(m, spec),
    ensures
        messages_match(ms.push(m), specs.push(spec)),
{
    assert forall|i: int| 0 <= i < ms.push(m).len() implies message_matches(
        #[trigger] ms.push(m)[i],
        specs.push(spec)[i],
    ) by {
        if i < ms.len() {
            assert(message_matches(ms[i], specs[i]));
        }
    }
}

fn owns(turn: &Turn, agent: &Author) -> (r: bool)
    ensures
        r == is_own(Entry::Turn(*turn), *agent),
{
    match turn.author() {
        Some(author) => author.same(agent),
        None => false,
    }
}

fn own_turn_awaiting(entries: &[Entry], agent: &Author) -> (r: bool)
    requires
        conversation_valid(entries@),
    ensures
        r == own_turn_awaits(entries@, *agent),
{
    let mut i: usize = 0;
    while i < entries.len()
        invariant
            i <= entries@.len(),
            conversation_valid(entries@),
            forall|j: int|
                0 <= j < i ==> !(is_own(#[trigger] entries@[j], *agent) && state_of(
                    entries@[j]->Turn_0.entries(),
                ) is AwaitingToolResults),
        decreases entries@.len() - i,
    {
        match &entries[i] {
            Entry::Turn(turn) => {
                assert(entries@[i as int] is Turn);
                if owns(turn, agent) {
                    match turn.state() {
                        TurnState::AwaitingToolResults { .. } => {
                            return true;
                        },
                        _ => {},
                    }
                }
            },
            Entry::UserInput(_) => {},
        }
        i = i + 1;
    }
    false
}

proof fn lemma_last_own_at(entries: Seq<Entry>, agent: Author, i: int)
    requires
        0 <= i <= entries.len(),
        forall|j: int| i <= j < entries.len() ==> !is_own(#[trigger] entries[j], agent),
    ensures
        last_own(entries, agent) == last_own(entries.take(i), agent),
    decreases entries.len(),
{
    if i < entries.len() {
        assert(!is_own(entries[entries.len() - 1], agent));
        assert(entries.drop_last().take(i) =~= entries.take(i));
        lemma_last_own_at(entries.drop_last(), agent, i);
    } else {
        assert(entries.take(i) =~= entries);
    }
}

fn last_own_index(entries: &[Entry], agent: &Author) -> (r: Option<usize>)
    ensures
        match r {
            Some(i) => last_own(entries@, *agent) == Some(i as int),
            None => last_own(entries@, *agent) is None,
        },
{
    let mut i = entries.len();
    while i > 0
        invariant
            i <= entries@.len(),
            forall|j: int| i <= j < entries@.len() ==> !is_own(#[trigger] entries@[j], *agent),
        decreases i,
    {
        let own = match &entries[i - 1] {
            Entry::Turn(turn) => owns(turn, agent),
            Entry::UserInput(_) => false,
        };
        if own {
            proof {
                lemma_last_own_at(entries@, *agent, i as int);
                assert(entries@.take(i as int).last() == entries@[i - 1]);
            }
            return Some(i - 1);
        }
        i = i - 1;
    }
    proof {
        lemma_last_own_at(entries@, *agent, 0);
    }
    None
}

fn relay_boundary(entries: &[Entry], agent: &Author) -> (r: Option<usize>)
    requires
        conversation_valid(entries@),
    ensures
        match r {
            Some(start) => relay_start(entries@, *agent) == Some(start as int),
            None => relay_start(entries@, *agent) is None,
        },
{
    let index = match last_own_index(entries, agent) {
        Some(index) => index,
        None => {
            return None;
        },
    };
    proof {
        lemma_last_own_is_own(entries@, *agent);
    }
    match &entries[index] {
        Entry::Turn(turn) => {
            assert(entries@[index as int] is Turn);
            match turn.state() {
                TurnState::Finished { .. } => None,
                _ => if index + 1 == entries.len() {
                    None
                } else {
                    Some(index + 1)
                },
            }
        },
        Entry::UserInput(_) => None,
    }
}

proof fn lemma_last_own_is_own(entries: Seq<Entry>, agent: Author)
    ensures
        last_own(entries, agent) matches Some(i) ==> 0 <= i < entries.len() && is_own(entries[i], agent),
    decreases entries.len(),
{
    if entries.len() > 0 && !is_own(entries.last(), agent) {
        lemma_last_own_is_own(entries.drop_last(), agent);
    }
}

fn clone_blocks(blocks: &[crate::block::AssistantBlock]) -> (r: Vec<crate::block::AssistantBlock>)
    ensures
        r@ == blocks@,
{
    let mut out: Vec<crate::block::AssistantBlock> = Vec::new();
    for i in 0..blocks.len()
        invariant
            out@ == blocks@.take(i as int),
    {
        out.push(blocks[i].clone());
        assert(out@ =~= blocks@.take(i + 1));
    }
    assert(blocks@.take(blocks@.len() as int) =~= blocks@);
    out
}

fn result_message(results: &crate::tool_results::ToolResults) -> (r: WireMessage)
    ensures
        message_matches(r, WireSpec::User(result_blocks_of(results.entries()))),
{
    let entries = results.results();
    let mut content: Vec<WireUserBlock> = Vec::new();
    for i in 0..entries.len()
        invariant
            entries@ == results.entries(),
            blocks_match(content@, result_blocks_of(entries@.take(i as int))),
    {
        let result = entries[i].clone();
        content.push(WireUserBlock::ToolResult(result));
        proof {
            let specs = result_blocks_of(entries@.take(i + 1));
            assert forall|k: int| 0 <= k < content@.len() implies block_matches(
                #[trigger] content@[k],
                specs[k],
            ) by {
                if k < i {
                    assert(block_matches(content@[k], result_blocks_of(entries@.take(i as int))[k]));
                }
            }
        }
    }
    assert(entries@.take(entries@.len() as int) =~= entries@);
    WireMessage::User { content }
}

/// An own turn verbatim.
fn render_own_turn(turn: &Turn, messages: &mut Vec<WireMessage>, Ghost(specs): Ghost<Seq<WireSpec>>)
    requires
        messages_match(old(messages)@, specs),
    ensures
        messages_match(final(messages)@, specs + own_turn_messages(turn.entries())),
{
    let items = turn.items();
    for i in 0..items.len()
        invariant
            items@ == turn.entries(),
            messages_match(messages@, specs + own_turn_messages(items@.take(i as int))),
    {
        assert(items@.take(i + 1).drop_last() =~= items@.take(i as int));
        let ghost before = specs + own_turn_messages(items@.take(i as int));
        let message = match &items[i] {
            TurnItem::Step(step) => WireMessage::Assistant { content: clone_blocks(step.content()) },
            TurnItem::ToolResults(results) => result_message(results),
        };
        proof {
            lemma_messages_match_push(
                messages@,
                before,
                message,
                own_turn_messages(items@.take(i + 1)).last(),
            );
            assert(before.push(own_turn_messages(items@.take(i + 1)).last()) =~= specs
                + own_turn_messages(items@.take(i + 1)));
        }
        messages.push(message);
    }
    assert(items@.take(items@.len() as int) =~= items@);
}

fn concat_user_messages(messages: Vec<WireMessage>, Ghost(specs): Ghost<Seq<WireSpec>>) -> (r: Vec<
    WireMessage,
>)
    requires
        messages_match(messages@, specs),
    ensures
        messages_match(r@, concat_users(specs)),
{
    let ghost all = messages@;
    let mut rest = messages;
    let mut merged: Vec<WireMessage> = Vec::new();
    let ghost mut k: int = 0;
    while rest.len() > 0
        invariant
            0 <= k <= all.len(),
            k + rest@.len() == all.len(),
            rest@ == all.skip(k),
            messages_match(all, specs),
            messages_match(merged@, concat_users(specs.take(k))),
        decreases rest@.len(),
    {
        let m = rest.remove(0);
        assert(m == all[k]);
        assert(rest@ =~= all.skip(k + 1));
        assert(specs.take(k + 1).drop_last() =~= specs.take(k));
        assert(message_matches(m, specs[k]));
        let ghost acc = concat_users(specs.take(k));
        let ghost before = merged@;
        match m {
            WireMessage::User { content } => {
                let n = merged.len();
                let last_is_user = n > 0 && match &merged[n - 1] {
                    WireMessage::User { .. } => true,
                    _ => false,
                };
                if last_is_user {
                    assert(message_matches(merged@[n - 1], acc[n - 1]));
                    match merged.pop() {
                        Some(WireMessage::User { content: prev }) => {
                            let mut prev = prev;
                            let mut incoming = content;
                            let ghost prev_blocks = prev@;
                            let ghost incoming_blocks = incoming@;
                            prev.append(&mut incoming);
                            proof {
                                lemma_blocks_match_concat(
                                    prev_blocks,
                                    acc.last()->User_0,
                                    incoming_blocks,
                                    specs[k]->User_0,
                                );
                            }
                            merged.push(WireMessage::User { content: prev });
                            proof {
                                let expected = merge_step(acc, specs[k]);
                                assert forall|i: int| 0 <= i < merged@.len() implies message_matches(
                                    #[trigger] merged@[i],
                                    expected[i],
                                ) by {
                                    if i < n - 1 {
                                        assert(message_matches(before[i], acc[i]));
                                    }
                                }
                            }
                        },
                        _ => {},
                    }
                } else {
                    proof {
                        if n > 0 {
                            assert(message_matches(merged@[n - 1], acc[n - 1]));
                        }
                        lemma_messages_match_push(before, acc, WireMessage::User { content }, specs[k]);
                    }
                    merged.push(WireMessage::User { content });
                }
            },
            other => {
                proof {
                    lemma_messages_match_push(before, acc, other, specs[k]);
                }
                merged.push(other);
            },
        }
        proof {
            k = k + 1;
        }
    }
    assert(specs.take(k) =~= specs);
    merged
}

fn partition_results(content: Vec<WireUserBlock>, Ghost(specs): Ghost<Seq<WireBlockSpec>>) -> (r: Vec<
    WireUserBlock,
>)
    requires
        blocks_match(content@, specs),
    ensures
        blocks_match(r@, result_part(specs) + other_part(specs)),
{
    let ghost all = content@;
    let mut rest = content;
    let mut results: Vec<WireUserBlock> = Vec::new();
    let mut others: Vec<WireUserBlock> = Vec::new();
    let ghost mut k: int = 0;
    while rest.len() > 0
        invariant
            0 <= k <= all.len(),
            k + rest@.len() == all.len(),
            rest@ == all.skip(k),
            blocks_match(all, specs),
            blocks_match(results@, result_part(specs.take(k))),
            blocks_match(others@, other_part(specs.take(k))),
        decreases rest@.len(),
    {
        let block = rest.remove(0);
        assert(block == all[k]);
        assert(rest@ =~= all.skip(k + 1));
        assert(specs.take(k + 1).drop_last() =~= specs.take(k));
        assert(block_matches(block, specs[k]));
        let ghost rb = results@;
        let ghost ob = others@;
        match block {
            WireUserBlock::ToolResult(result) => {
                results.push(WireUserBlock::ToolResult(result));
                proof {
                    lemma_blocks_match_concat(
                        rb,
                        result_part(specs.take(k)),
                        seq![WireUserBlock::ToolResult(result)],
                        seq![specs[k]],
                    );
                    assert(rb + seq![WireUserBlock::ToolResult(result)] =~= results@);
                    assert(result_part(specs.take(k)) + seq![specs[k]] =~= result_part(specs.take(k + 1)));
                }
            },
            other => {
                others.push(other);
                proof {
                    lemma_blocks_match_concat(
                        ob,
                        other_part(specs.take(k)),
                        seq![other],
                        seq![specs[k]],
                    );
                    assert(ob + seq![other] =~= others@);
                    assert(other_part(specs.take(k)) + seq![specs[k]] =~= other_part(specs.take(k + 1)));
                }
            },
        }
        proof {
            k = k + 1;
        }
    }
    assert(specs.take(k) =~= specs);
    let ghost rb = results@;
    let ghost ob = others@;
    results.append(&mut others);
    proof {
        lemma_blocks_match_concat(rb, result_part(specs), ob, other_part(specs));
    }
    results
}

fn merge_user_messages_exec(messages: Vec<WireMessage>, Ghost(specs): Ghost<Seq<WireSpec>>) -> (r: Vec<
    WireMessage,
>)
    requires
        messages_match(messages@, specs),
    ensures
        messages_match(r@, merge_user_messages(specs)),
{
    let merged = concat_user_messages(messages, Ghost(specs));
    let ghost mspecs = concat_users(specs);
    let ghost all = merged@;
    let mut rest = merged;
    let mut out: Vec<WireMessage> = Vec::new();
    let ghost mut k: int = 0;
    while rest.len() > 0
        invariant
            0 <= k <= all.len(),
            k + rest@.len() == all.len(),
            rest@ == all.skip(k),
            messages_match(all, mspecs),
            messages_match(out@, mspecs.take(k).map_values(|m: WireSpec| results_first(m))),
        decreases rest@.len(),
    {
        let m = rest.remove(0);
        assert(m == all[k]);
        assert(rest@ =~= all.skip(k + 1));
        assert(message_matches(m, mspecs[k]));
        let ghost before = out@;
        let next = match m {
            WireMessage::User { content } => WireMessage::User {
                content: partition_results(content, Ghost(mspecs[k]->User_0)),
            },
            other => other,
        };
        proof {
            lemma_messages_match_push(
                before,
                mspecs.take(k).map_values(|m: WireSpec| results_first(m)),
                next,
                results_first(mspecs[k]),
            );
            assert(mspecs.take(k).map_values(|m: WireSpec| results_first(m)).push(
                results_first(mspecs[k]),
            ) =~= mspecs.take(k + 1).map_values(|m: WireSpec| results_first(m)));
        }
        out.push(next);
        proof {
            k = k + 1;
        }
    }
    assert(mspecs.take(k) =~= mspecs);
    out
}

proof fn lemma_last_user_at(specs: Seq<WireSpec>, i: int)
    requires
        0 <= i <= specs.len(),
        forall|j: int| i <= j < specs.len() ==> !(#[trigger] specs[j] is User),
    ensures
        last_user(specs) == last_user(specs.take(i)),
    decreases specs.len(),
{
    if i < specs.len() {
        assert(!(specs[specs.len() - 1] is User));
        assert(specs.drop_last().take(i) =~= specs.take(i));
        lemma_last_user_at(specs.drop_last(), i);
    } else {
        assert(specs.take(i) =~= specs);
    }
}

proof fn lemma_last_user_is_user(specs: Seq<WireSpec>)
    ensures
        last_user(specs) matches Some(i) ==> 0 <= i < specs.len() && specs[i] is User,
    decreases specs.len(),
{
    if specs.len() > 0 && !(specs.last() is User) {
        lemma_last_user_is_user(specs.drop_last());
    }
}

fn last_user_index(messages: &Vec<WireMessage>, Ghost(specs): Ghost<Seq<WireSpec>>) -> (r: Option<usize>)
    requires
        messages_match(messages@, specs),
    ensures
        match r {
            Some(i) => last_user(specs) == Some(i as int),
            None => last_user(specs) is None,
        },
{
    let mut i = messages.len();
    while i > 0
        invariant
            i <= messages@.len(),
            messages_match(messages@, specs),
            forall|j: int| i <= j < specs.len() ==> !(#[trigger] specs[j] is User),
        decreases i,
    {
        assert(message_matches(messages@[i - 1], specs[i - 1]));
        let user = match &messages[i - 1] {
            WireMessage::User { .. } => true,
            _ => false,
        };
        if user {
            proof {
                lemma_last_user_at(specs, i as int);
                assert(specs.take(i as int).last() == specs[i - 1]);
            }
            return Some(i - 1);
        }
        i = i - 1;
    }
    proof {
        lemma_last_user_at(specs, 0);
    }
    None
}

fn image_content(images: Vec<Image>) -> (r: Vec<WireUserBlock>)
    ensures
        blocks_match(r@, image_blocks(images@)),
{
    let ghost all = images@;
    let mut rest = images;
    let mut out: Vec<WireUserBlock> = Vec::new();
    let ghost mut k: int = 0;
    while rest.len() > 0
        invariant
            0 <= k <= all.len(),
            k + rest@.len() == all.len(),
            rest@ == all.skip(k),
            blocks_match(out@, image_blocks(all.take(k))),
        decreases rest@.len(),
    {
        let image = rest.remove(0);
        assert(image == all[k]);
        assert(rest@ =~= all.skip(k + 1));
        let ghost before = out@;
        out.push(WireUserBlock::Image(image));
        proof {
            lemma_blocks_match_concat(
                before,
                image_blocks(all.take(k)),
                seq![WireUserBlock::Image(image)],
                seq![WireBlockSpec::Image(image)],
            );
            assert(before + seq![WireUserBlock::Image(image)] =~= out@);
            assert(image_blocks(all.take(k)) + seq![WireBlockSpec::Image(image)] =~= image_blocks(
                all.take(k + 1),
            ));
            k = k + 1;
        }
    }
    assert(all.take(k) =~= all);
    out
}

/// Folds the entries from `start` on into one relay message; their images
/// go onto the last user message.
fn build_relay(
    entries: &[Entry],
    start: usize,
    merged: &mut Vec<WireMessage>,
    Ghost(specs): Ghost<Seq<WireSpec>>,
) -> (r: WireMessage)
    requires
        conversation_valid(entries@),
        start <= entries@.len(),
        messages_match(old(merged)@, specs),
    ensures
        message_matches(r, WireSpec::Relay(relay_texts(entries@.skip(start as int)))),
        messages_match(final(merged)@, with_images(specs, relay_images(entries@.skip(start as int)))),
{
    let ghost tail = entries@.skip(start as int);
    let mut texts: Vec<Text> = Vec::new();
    let mut images: Vec<Image> = Vec::new();
    let mut i = start;
    while i < entries.len()
        invariant
            start <= i <= entries@.len(),
            tail == entries@.skip(start as int),
            conversation_valid(entries@),
            texts@.map_values(|t: Text| t@) == relay_texts(tail.take(i - start)),
            images@ == relay_images(tail.take(i - start)),
        decreases entries@.len() - i,
    {
        assert(tail.take(i - start + 1).drop_last() =~= tail.take(i - start));
        assert(tail.take(i - start + 1).last() == entries@[i as int]);
        let ghost texts_before = texts@;
        match &entries[i] {
            Entry::UserInput(input) => {
                let (framed, more) = user_frame_parts(input);
                let text = framed_text(
                    framed,
                    Ghost(author_text(input.author_of())),
                    Ghost(source_role(input.source_of())),
                    Ghost(source_kind(input.source_of())),
                    Ghost(join(user_texts(input.blocks()), paragraph_break())),
                );
                texts.push(text);
                let mut more = more;
                images.append(&mut more);
            },
            Entry::Turn(turn) => {
                assert(entries@[i as int] is Turn);
                let framed = agent_frame_text(turn);
                let text = framed_text(
                    framed,
                    Ghost(author_text(turn.author_of())),
                    Ghost("agent"@),
                    Ghost(None),
                    Ghost(join(agent_parts(turn.entries()), paragraph_break())),
                );
                texts.push(text);
                assert(images@ =~= relay_images(tail.take(i - start + 1)));
            },
        }
        assert(texts@.map_values(|t: Text| t@) =~= relay_texts(tail.take(i - start + 1)));
        i = i + 1;
    }
    assert(tail.take(i - start) =~= tail);
    if images.len() > 0 {
        match last_user_index(merged, Ghost(specs)) {
            Some(j) => {
                proof {
                    lemma_last_user_is_user(specs);
                    assert(message_matches(merged@[j as int], specs[j as int]));
                }
                let ghost before = merged@;
                let ghost image_list = images@;
                let extra = image_content(images);
                match &mut merged[j] {
                    WireMessage::User { content } => {
                        let ghost old_content = content@;
                        let mut extra = extra;
                        let ghost extra_blocks = extra@;
                        content.append(&mut extra);
                        proof {
                            lemma_blocks_match_concat(
                                old_content,
                                specs[j as int]->User_0,
                                extra_blocks,
                                image_blocks(image_list),
                            );
                        }
                    },
                    _ => {},
                }
                proof {
                    let expected = with_images(specs, image_list);
                    assert forall|k: int| 0 <= k < merged@.len() implies message_matches(
                        #[trigger] merged@[k],
                        expected[k],
                    ) by {
                        if k != j {
                            assert(message_matches(before[k], specs[k]));
                        }
                    }
                }
            },
            None => {},
        }
    }
    WireMessage::Relay { content: texts }
}

/// Renders a conversation as the wire messages that `perspective.agent`
/// sees.
pub fn render(conversation: &Conversation, perspective: &Perspective) -> (r: Result<
    Vec<WireMessage>,
    MessageError,
>)
    ensures
        match render_spec(conversation.entries_of(), perspective.agent) {
            Ok(specs) => r is Ok && messages_match(r->Ok_0@, specs),
            Err(e) => r == Err::<Vec<WireMessage>, MessageError>(e),
        },
{
    let agent = &perspective.agent;
    let entries = conversation.entries();
    if own_turn_awaiting(entries, agent) {
        return Err(MessageError::TurnAwaitingResults);
    }
    let boundary = relay_boundary(entries, agent);
    let head_end = match boundary {
        Some(start) => start,
        None => entries.len(),
    };
    proof {
        lemma_last_own_is_own(entries@, *agent);
    }
    let mut messages: Vec<WireMessage> = Vec::new();
    for i in 0..head_end
        invariant
            head_end <= entries@.len(),
            conversation_valid(entries@),
            messages_match(messages@, head_messages(entries@.take(i as int), *agent)),
    {
        assert(entries@.take(i + 1).drop_last() =~= entries@.take(i as int));
        assert(entries@.take(i + 1).last() == entries@[i as int]);
        let ghost before = head_messages(entries@.take(i as int), *agent);
        match &entries[i] {
            Entry::Turn(turn) => {
                if owns(turn, agent) {
                    render_own_turn(turn, &mut messages, Ghost(before));
                } else {
                    let message = render_agent_frame(turn);
                    proof {
                        lemma_messages_match_push(messages@, before, message, agent_message(*turn));
                        assert(before.push(agent_message(*turn)) =~= before + seq![agent_message(*turn)]);
                    }
                    messages.push(message);
                }
            },
            Entry::UserInput(input) => {
                let message = render_user_frame(input);
                proof {
                    lemma_messages_match_push(messages@, before, message, user_message(*input));
                    assert(before.push(user_message(*input)) =~= before + seq![user_message(*input)]);
                }
                messages.push(message);
            },
        }
    }
    let ghost head = entries@.take(head_end as int);
    let ghost merged_specs = merge_user_messages(head_messages(head, *agent));
    let mut merged = merge_user_messages_exec(messages, Ghost(head_messages(head, *agent)));
    let ghost all_specs = if boundary is Some {
        with_images(merged_specs, relay_images(entries@.skip(head_end as int))).push(
            WireSpec::Relay(relay_texts(entries@.skip(head_end as int))),
        )
    } else {
        merged_specs
    };
    match boundary {
        Some(start) => {
            let relay = build_relay(entries, start, &mut merged, Ghost(merged_specs));
            proof {
                lemma_messages_match_push(
                    merged@,
                    with_images(merged_specs, relay_images(entries@.skip(start as int))),
                    relay,
                    WireSpec::Relay(relay_texts(entries@.skip(start as int))),
                );
            }
            merged.push(relay);
        },
        None => {
            assert(head =~= entries@);
        },
    }
    assert(messages_match(merged@, all_specs));
    if merged.len() == 0 {
        return Err(MessageError::EmptyRender);
    }
    assert(message_matches(merged@[0], all_specs[0]));
    match &merged[0] {
        WireMessage::User { .. } => Ok(merged),
        _ => Err(MessageError::RenderStartsWithAssistant),
    }
}

} // verus!
