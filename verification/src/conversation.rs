use vstd::prelude::*;

use crate::block::ToolResult;
use crate::error::MessageError;
use crate::step::{Step, lemma_filter_map_empty, lemma_filter_map_last};
use crate::strings::{decimal, push_decimal};
use crate::turn::{
    StateView, Turn, copied_items, push_result_outcome, push_step_outcome, state_of, turn_text,
};
use crate::user_input::{input_text, UserInput};
use crate::value::TurnId;

verus! {

pub const SCHEMA_VERSION: &'static str = "br-llm-messages/1";

#[derive(Debug, PartialEq)]
pub enum Entry {
    UserInput(UserInput),
    Turn(Turn),
}

/// `a` is a copy of `b`: an input with the same source, author and blocks,
/// or a copy of the same turn.
pub open spec fn copied_entry(a: Entry, b: Entry) -> bool {
    match b {
        Entry::UserInput(x) => a matches Entry::UserInput(y) && y.source_of() == x.source_of()
            && y.author_of() == x.author_of() && y.blocks() == x.blocks(),
        Entry::Turn(x) => a matches Entry::Turn(y) && y.turn_id() == x.turn_id() && y.author_of()
            == x.author_of() && copied_items(y.entries(), x.entries()) && (x.wf() ==> y.wf())
            && state_of(y.entries()) == state_of(x.entries()),
    }
}

impl Clone for Entry {
    fn clone(&self) -> (r: Self)
        ensures
            copied_entry(r, *self),
    {
        match self {
            Entry::UserInput(input) => Entry::UserInput(input.clone()),
            Entry::Turn(turn) => Entry::Turn(turn.clone()),
        }
    }
}

/// Entry `i` is a turn with id `id`.
pub open spec fn is_turn_with(entries: Seq<Entry>, i: int, id: Seq<char>) -> bool {
    &&& 0 <= i < entries.len()
    &&& entries[i] is Turn
    &&& entries[i]->Turn_0.turn_id()@ == id
}

pub open spec fn has_turn_with(entries: Seq<Entry>, id: Seq<char>) -> bool {
    exists|i: int| #[trigger] is_turn_with(entries, i, id)
}

/// `new` is `old` with only the turn at `i` changed, keeping its id and
/// author.
pub open spec fn turn_replaced(old: Seq<Entry>, new: Seq<Entry>, i: int) -> bool {
    &&& new.len() == old.len()
    &&& forall|j: int| 0 <= j < old.len() && j != i ==> #[trigger] new[j] == old[j]
    &&& old[i] is Turn
    &&& new[i] is Turn
    &&& new[i]->Turn_0.turn_id() == old[i]->Turn_0.turn_id()
    &&& new[i]->Turn_0.author_of() == old[i]->Turn_0.author_of()
}

/// Every turn is well formed and no two turns share an id.
pub open spec fn conversation_valid(entries: Seq<Entry>) -> bool {
    &&& forall|i: int|
        0 <= i < entries.len() && #[trigger] entries[i] is Turn ==> entries[i]->Turn_0.wf()
    &&& forall|i: int, j: int|
        0 <= i < j < entries.len() && #[trigger] entries[i] is Turn && #[trigger] entries[j] is Turn
            ==> entries[i]->Turn_0.turn_id()@ != entries[j]->Turn_0.turn_id()@
}

/// The turns that are not finished, in order.
pub open spec fn open_turns_in(entries: Seq<Entry>) -> Seq<Turn>
    decreases entries.len(),
{
    if entries.len() == 0 {
        Seq::empty()
    } else {
        let rest = open_turns_in(entries.drop_last());
        match entries.last() {
            Entry::Turn(turn) => if state_of(turn.entries()) is Finished {
                rest
            } else {
                rest.push(turn)
            },
            Entry::UserInput(_) => rest,
        }
    }
}

/// How an entry shows in the display text of a conversation.
pub open spec fn entry_text(entry: Entry) -> Seq<char> {
    match entry {
        Entry::UserInput(input) => input_text(input.source_of(), input.author_of()),
        Entry::Turn(turn) => turn_text(turn.turn_id(), turn.author_of(), turn.entries()),
    }
}

/// One indented line per entry, in order.
pub open spec fn entry_lines(entries: Seq<Entry>) -> Seq<char>
    decreases entries.len(),
{
    if entries.len() == 0 {
        Seq::empty()
    } else {
        entry_lines(entries.drop_last()) + "  "@ + entry_text(entries.last()) + "\n"@
    }
}

/// The display text of a conversation: a header line with the number of
/// entries, then a line for each entry.
pub open spec fn conversation_text(entries: Seq<Entry>) -> Seq<char> {
    "conversation ("@ + decimal(entries.len()) + " entries)\n"@ + entry_lines(entries)
}

/// The entry is a turn that is not finished: it awaits tool results or its
/// next step.
pub open spec fn is_open_turn(entry: Entry) -> bool {
    entry is Turn && !(state_of(entry->Turn_0.entries()) is Finished)
}

/// `open_turns()` lists exactly the turns that are not finished (those that
/// await tool results and those that await their next step), in entry order.
pub proof fn lemma_open_turns_are_unfinished(entries: Seq<Entry>)
    ensures
        open_turns_in(entries) == entries.filter(|e: Entry| is_open_turn(e)).map_values(
            |e: Entry| e->Turn_0,
        ),
    decreases entries.len(),
{
    let keep = |e: Entry| is_open_turn(e);
    let f = |e: Entry| e->Turn_0;
    if entries.len() == 0 {
        lemma_filter_map_empty(entries, keep, f);
    } else {
        lemma_open_turns_are_unfinished(entries.drop_last());
        lemma_filter_map_last(entries, keep, f);
    }
}

/// Equality of two strings, character for character.
fn str_equal(a: &str, b: &str) -> (r: bool)
    ensures
        r == (a@ == b@),
{
    let left = a.to_owned();
    let right = b.to_owned();
    left == right
}

/// A conversation: user inputs and turns, in the order they happened.
#[derive(Debug, PartialEq)]
pub struct Conversation {
    entries: Vec<Entry>,
}

impl Clone for Conversation {
    fn clone(&self) -> (r: Self)
        ensures
            r.entries_of().len() == self.entries_of().len(),
            forall|i: int|
                0 <= i < self.entries_of().len() ==> copied_entry(
                    #[trigger] r.entries_of()[i],
                    self.entries_of()[i],
                ),
    {
        proof {
            use_type_invariant(self);
        }
        let mut entries: Vec<Entry> = Vec::new();
        for i in 0..self.entries.len()
            invariant
                conversation_valid(self.entries@),
                entries@.len() == i,
                forall|k: int| 0 <= k < i ==> copied_entry(#[trigger] entries@[k], self.entries@[k]),
        {
            entries.push(self.entries[i].clone());
        }
        proof {
            assert forall|a: int, b: int|
                0 <= a < b < entries@.len() && #[trigger] entries@[a] is Turn
                    && #[trigger] entries@[b] is Turn implies entries@[a]->Turn_0.turn_id()@
                != entries@[b]->Turn_0.turn_id()@ by {
                assert(copied_entry(entries@[a], self.entries@[a]));
                assert(copied_entry(entries@[b], self.entries@[b]));
            }
            assert forall|i: int|
                0 <= i < entries@.len() && #[trigger] entries@[i] is Turn implies entries@[i]->Turn_0.wf() by {
                assert(copied_entry(entries@[i], self.entries@[i]));
            }
        }
        Conversation { entries }
    }
}

impl Default for Conversation {
    fn default() -> (r: Self)
        ensures
            r.entries_of() == Seq::<Entry>::empty(),
    {
        Conversation::new()
    }
}

impl Conversation {
    #[verifier::type_invariant]
    closed spec fn valid(self) -> bool {
        conversation_valid(self.entries@)
    }

    pub closed spec fn entries_of(self) -> Seq<Entry> {
        self.entries@
    }

    pub fn new() -> (r: Conversation)
        ensures
            r.entries_of() == Seq::<Entry>::empty(),
    {
        Conversation { entries: Vec::new() }
    }

    pub fn push_input(&mut self, input: UserInput)
        ensures
            final(self).entries_of() == old(self).entries_of().push(Entry::UserInput(input)),
    {
        proof {
            use_type_invariant(&*self);
        }
        let mut entries = Vec::new();
        std::mem::swap(&mut entries, &mut self.entries);
        entries.push(Entry::UserInput(input));
        proof {
            assert(forall|i: int| 0 <= i < entries@.len() - 1 ==> entries@[i] == old(self).entries@[i]);
        }
        self.entries = entries;
    }

    fn find_turn(&self, turn_id: &TurnId) -> (r: Option<usize>)
        ensures
            match r {
                Some(i) => is_turn_with(self.entries_of(), i as int, turn_id@) && forall|j: int|
                    0 <= j < i ==> !#[trigger] is_turn_with(self.entries_of(), j, turn_id@),
                None => !has_turn_with(self.entries_of(), turn_id@),
            },
    {
        let mut i: usize = 0;
        while i < self.entries.len()
            invariant
                i <= self.entries@.len(),
                forall|j: int| 0 <= j < i ==> !#[trigger] is_turn_with(self.entries@, j, turn_id@),
            decreases self.entries@.len() - i,
        {
            match &self.entries[i] {
                Entry::Turn(turn) => {
                    if turn.id().same(turn_id) {
                        return Some(i);
                    }
                },
                Entry::UserInput(_) => {},
            }
            i = i + 1;
        }
        None
    }

    /// Adds a turn, refused with `DuplicateTurnId` (and nothing changed)
    /// when a turn with the same id is already present.
    pub fn push_turn(&mut self, turn: Turn) -> (r: Result<(), MessageError>)
        ensures
            match r {
                Ok(()) => !has_turn_with(old(self).entries_of(), turn.turn_id()@)
                    && final(self).entries_of() == old(self).entries_of().push(Entry::Turn(turn)),
                Err(e) => has_turn_with(old(self).entries_of(), turn.turn_id()@) && e == (
                MessageError::DuplicateTurnId { id: turn.turn_id() }) && final(self).entries_of()
                    == old(self).entries_of(),
            },
    {
        proof {
            use_type_invariant(&*self);
            use_type_invariant(&turn);
        }
        if self.find_turn(turn.id()).is_some() {
            return Err(MessageError::DuplicateTurnId { id: turn.id().clone() });
        }
        let mut entries = Vec::new();
        std::mem::swap(&mut entries, &mut self.entries);
        let ghost before = entries@;
        entries.push(Entry::Turn(turn));
        proof {
            assert forall|i: int|
                0 <= i < before.len() && #[trigger] before[i] is Turn implies before[i]->Turn_0.turn_id()@
                != turn.turn_id()@ by {
                assert(!is_turn_with(before, i, turn.turn_id()@));
            }
            assert(forall|i: int| 0 <= i < before.len() ==> entries@[i] == before[i]);
        }
        self.entries = entries;
        Ok(())
    }

    /// Records a tool result on the turn with the given id.
    pub fn push_result(&mut self, turn_id: &TurnId, result: ToolResult) -> (r: Result<
        (),
        MessageError,
    >)
        ensures
            match r {
                Err(MessageError::TurnNotFound { id }) => !has_turn_with(
                    old(self).entries_of(),
                    turn_id@,
                ) && id == *turn_id && final(self).entries_of() == old(self).entries_of(),
                _ => exists|i: int|
                    #![trigger is_turn_with(old(self).entries_of(), i, turn_id@)]
                    is_turn_with(old(self).entries_of(), i, turn_id@) && (forall|j: int|
                        0 <= j < i ==> !#[trigger] is_turn_with(old(self).entries_of(), j, turn_id@))
                        && turn_replaced(old(self).entries_of(), final(self).entries_of(), i)
                        && push_result_outcome(
                        old(self).entries_of()[i]->Turn_0.entries(),
                        result,
                        final(self).entries_of()[i]->Turn_0.entries(),
                        r,
                    ),
            },
    {
        proof {
            use_type_invariant(&*self);
        }
        let i = match self.find_turn(turn_id) {
            Some(i) => i,
            None => {
                return Err(MessageError::TurnNotFound { id: turn_id.clone() });
            },
        };
        let mut entries = Vec::new();
        std::mem::swap(&mut entries, &mut self.entries);
        let ghost before = entries@;
        let r = match &mut entries[i] {
            Entry::Turn(turn) => turn.push_result(result),
            Entry::UserInput(_) => Err(MessageError::TurnNotFound { id: turn_id.clone() }),
        };
        proof {
            assert forall|a: int, b: int|
                0 <= a < b < entries@.len() && #[trigger] entries@[a] is Turn
                    && #[trigger] entries@[b] is Turn implies entries@[a]->Turn_0.turn_id()@
                != entries@[b]->Turn_0.turn_id()@ by {
                assert(before[a] is Turn && before[b] is Turn);
            }
        }
        self.entries = entries;
        r
    }
    /// Records the next step of the turn with the given id.
    pub fn push_step(&mut self, turn_id: &TurnId, step: Step) -> (r: Result<
        (),
        MessageError,
    >)
        ensures
            match r {
                Err(MessageError::TurnNotFound { id }) => !has_turn_with(
                    old(self).entries_of(),
                    turn_id@,
                ) && id == *turn_id && final(self).entries_of() == old(self).entries_of(),
                _ => exists|i: int|
                    #![trigger is_turn_with(old(self).entries_of(), i, turn_id@)]
                    is_turn_with(old(self).entries_of(), i, turn_id@) && (forall|j: int|
                        0 <= j < i ==> !#[trigger] is_turn_with(old(self).entries_of(), j, turn_id@))
                        && turn_replaced(old(self).entries_of(), final(self).entries_of(), i)
                        && push_step_outcome(
                        old(self).entries_of()[i]->Turn_0.entries(),
                        step,
                        final(self).entries_of()[i]->Turn_0.entries(),
                        r,
                    ),
            },
    {
        proof {
            use_type_invariant(&*self);
        }
        let i = match self.find_turn(turn_id) {
            Some(i) => i,
            None => {
                return Err(MessageError::TurnNotFound { id: turn_id.clone() });
            },
        };
        let mut entries = Vec::new();
        std::mem::swap(&mut entries, &mut self.entries);
        let ghost before = entries@;
        let r = match &mut entries[i] {
            Entry::Turn(turn) => turn.push_step(step),
            Entry::UserInput(_) => Err(MessageError::TurnNotFound { id: turn_id.clone() }),
        };
        proof {
            assert forall|a: int, b: int|
                0 <= a < b < entries@.len() && #[trigger] entries@[a] is Turn
                    && #[trigger] entries@[b] is Turn implies entries@[a]->Turn_0.turn_id()@
                != entries@[b]->Turn_0.turn_id()@ by {
                assert(before[a] is Turn && before[b] is Turn);
            }
        }
        self.entries = entries;
        r
    }

    /// The first turn with the given id, if any.
    pub fn turn(&self, turn_id: &TurnId) -> (r: Option<&Turn>)
        ensures
            match r {
                Some(turn) => exists|i: int|
                    #![trigger is_turn_with(self.entries_of(), i, turn_id@)]
                    is_turn_with(self.entries_of(), i, turn_id@) && (forall|j: int|
                        0 <= j < i ==> !#[trigger] is_turn_with(self.entries_of(), j, turn_id@))
                        && *turn == self.entries_of()[i]->Turn_0,
                None => !has_turn_with(self.entries_of(), turn_id@),
            },
    {
        match self.find_turn(turn_id) {
            Some(i) => match &self.entries[i] {
                Entry::Turn(turn) => Some(turn),
                Entry::UserInput(_) => None,
            },
            None => None,
        }
    }

    /// The turns that are not finished, in order.
    pub fn open_turns(&self) -> (r: Vec<&Turn>)
        ensures
            r@.map_values(|t: &Turn| *t) == open_turns_in(self.entries_of()),
            r@.map_values(|t: &Turn| *t) == self.entries_of().filter(|e: Entry| is_open_turn(e)).map_values(
                |e: Entry| e->Turn_0,
            ),
    {
        proof {
            lemma_open_turns_are_unfinished(self.entries@);
            use_type_invariant(self);
        }
        let mut out: Vec<&Turn> = Vec::new();
        for i in 0..self.entries.len()
            invariant
                conversation_valid(self.entries@),
                out@.map_values(|t: &Turn| *t) == open_turns_in(self.entries@.take(i as int)),
        {
            assert(self.entries@.take(i + 1).drop_last() =~= self.entries@.take(i as int));
            let ghost before = out@;
            match &self.entries[i] {
                Entry::Turn(turn) => {
                    assert(self.entries@[i as int] is Turn);
                    match turn.state() {
                        crate::turn::TurnState::Finished { .. } => {},
                        _ => {
                            out.push(turn);
                        },
                    }
                },
                Entry::UserInput(_) => {},
            }
            assert(out@.map_values(|t: &Turn| *t) =~= open_turns_in(self.entries@.take(i + 1)));
        }
        assert(self.entries@.take(self.entries@.len() as int) =~= self.entries@);
        out
    }

    /// The display text of the conversation.
    pub fn to_string(&self) -> (r: String)
        ensures
            r@ == conversation_text(self.entries_of()),
    {
        proof {
            use_type_invariant(self);
        }
        let mut out = "conversation (".to_owned();
        push_decimal(&mut out, self.entries.len());
        out.append(" entries)\n");
        let ghost head = out@;
        for i in 0..self.entries.len()
            invariant
                conversation_valid(self.entries@),
                out@ == head + entry_lines(self.entries@.take(i as int)),
        {
            assert(self.entries@.take(i + 1).drop_last() =~= self.entries@.take(i as int));
            out.append("  ");
            match &self.entries[i] {
                Entry::UserInput(input) => out.append(input.to_string().as_str()),
                Entry::Turn(turn) => {
                    assert(self.entries@[i as int] is Turn);
                    out.append(turn.to_string().as_str());
                },
            }
            out.append("\n");
            assert(out@ =~= head + entry_lines(self.entries@.take(i + 1)));
        }
        assert(self.entries@.take(self.entries@.len() as int) =~= self.entries@);
        out
    }

    pub fn entries(&self) -> (r: &[Entry])
        ensures
            r@ == self.entries_of(),
            conversation_valid(r@),
    {
        proof {
            use_type_invariant(self);
        }
        self.entries.as_slice()
    }

    /// Rebuilds a conversation from recorded entries: refused with
    /// `SchemaMismatch` unless the schema is `SCHEMA_VERSION`, then with
    /// `DuplicateTurnId` for the first turn whose id an earlier turn carries.
    /// The entries of a conversation, under `SCHEMA_VERSION`, are always
    /// accepted.
    pub fn from_entries(schema: &str, entries: Vec<Entry>) -> (r: Result<Conversation, MessageError>)
        ensures
            match r {
                Ok(conversation) => schema@ == SCHEMA_VERSION@ && conversation.entries_of()
                    == entries@,
                Err(e) => if schema@ != SCHEMA_VERSION@ {
                    e matches MessageError::SchemaMismatch { found } && found@ == schema@
                } else {
                    exists|j: int|
                        #![trigger entries@[j]]
                        0 <= j < entries@.len() && entries@[j] is Turn && has_turn_with(
                            entries@.take(j),
                            entries@[j]->Turn_0.turn_id()@,
                        ) && (forall|k: int|
                            0 <= k < j && #[trigger] entries@[k] is Turn ==> !has_turn_with(
                                entries@.take(k),
                                entries@[k]->Turn_0.turn_id()@,
                            )) && e == (MessageError::DuplicateTurnId {
                            id: entries@[j]->Turn_0.turn_id(),
                        })
                },
            },
            schema@ == SCHEMA_VERSION@ && conversation_valid(entries@) ==> r is Ok,
    {
        let expected = SCHEMA_VERSION;
        if !str_equal(schema, expected) {
            return Err(MessageError::SchemaMismatch { found: schema.to_owned() });
        }
        let ghost all = entries@;
        let mut rest = entries;
        let mut conversation = Conversation::new();
        let ghost mut k: int = 0;
        while rest.len() > 0
            invariant
                0 <= k <= all.len(),
                k + rest@.len() == all.len(),
                rest@ == all.skip(k),
                all == entries@,
                schema@ == SCHEMA_VERSION@,
                conversation.entries_of() == all.take(k),
                forall|i: int|
                    0 <= i < k && #[trigger] all[i] is Turn ==> !has_turn_with(
                        all.take(i),
                        all[i]->Turn_0.turn_id()@,
                    ),
            decreases rest@.len(),
        {
            let entry = rest.remove(0);
            assert(entry == all[k]);
            assert(rest@ =~= all.skip(k + 1));
            assert(all.take(k).push(all[k]) =~= all.take(k + 1));
            match entry {
                Entry::UserInput(input) => {
                    conversation.push_input(input);
                },
                Entry::Turn(turn) => {
                    assert(all[k] is Turn);
                    match conversation.push_turn(turn) {
                        Ok(()) => {},
                        Err(e) => {
                            proof {
                                if conversation_valid(all) {
                                    let i = choose|i: int|
                                        #[trigger] is_turn_with(all.take(k), i, all[k]->Turn_0.turn_id()@);
                                    assert(all.take(k)[i] == all[i]);
                                    assert(all[i] is Turn && all[k] is Turn);
                                }
                            }
                            return Err(e);
                        },
                    }
                },
            }
            proof {
                k = k + 1;
            }
        }
        assert(all.take(k) =~= all);
        Ok(conversation)
    }
}

} // verus!
