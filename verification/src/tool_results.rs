use vstd::prelude::*;

use crate::block::{ToolResult, same_result};
use crate::error::MessageError;
use crate::value::ToolCallId;

verus! {

/// The tool-call ids of the results, in order.
pub open spec fn result_ids(results: Seq<ToolResult>) -> Seq<Seq<char>> {
    results.map_values(|r: ToolResult| r.tool_call_id@)
}

pub open spec fn distinct(ids: Seq<Seq<char>>) -> bool {
    forall|i: int, j: int| 0 <= i < j < ids.len() ==> ids[i] != ids[j]
}

/// Result `j` carries an id that an earlier result already carries.
pub open spec fn repeats_earlier_result(results: Seq<ToolResult>, j: int) -> bool {
    &&& 0 <= j < results.len()
    &&& result_ids(results).take(j).contains(results[j].tool_call_id@)
}

/// Results collected for one step, at most one per tool-call id, in the
/// order they arrived.
#[derive(Debug, PartialEq)]
pub struct ToolResults {
    results: Vec<ToolResult>,
}

impl Clone for ToolResults {
    fn clone(&self) -> (r: Self)
        ensures
            r.entries().len() == self.entries().len(),
            forall|i: int|
                0 <= i < self.entries().len() ==> same_result(#[trigger] r.entries()[i], self.entries()[i]),
            result_ids(r.entries()) == result_ids(self.entries()),
    {
        proof {
            use_type_invariant(self);
        }
        let mut results: Vec<ToolResult> = Vec::new();
        for i in 0..self.results.len()
            invariant
                results@.len() == i,
                forall|k: int| 0 <= k < i ==> same_result(#[trigger] results@[k], self.results@[k]),
        {
            results.push(self.results[i].clone());
        }
        assert(result_ids(results@) =~= result_ids(self.results@));
        ToolResults { results }
    }
}

impl ToolResults {
    #[verifier::type_invariant]
    closed spec fn unique(self) -> bool {
        distinct(result_ids(self.results@))
    }

    pub closed spec fn entries(self) -> Seq<ToolResult> {
        self.results@
    }

    pub fn empty() -> (r: ToolResults)
        ensures
            r.entries() == Seq::<ToolResult>::empty(),
    {
        ToolResults { results: Vec::new() }
    }

    /// Adds a result, refused with `DuplicateToolResultId` (and nothing
    /// changed) when a result with the same id is already held.
    pub fn push(&mut self, result: ToolResult) -> (r: Result<(), MessageError>)
        ensures
            match r {
                Ok(()) => {
                    &&& !result_ids(old(self).entries()).contains(result.tool_call_id@)
                    &&& final(self).entries() == old(self).entries().push(result)
                },
                Err(e) => {
                    &&& result_ids(old(self).entries()).contains(result.tool_call_id@)
                    &&& e == (MessageError::DuplicateToolResultId { id: result.tool_call_id })
                    &&& final(self).entries() == old(self).entries()
                },
            },
    {
        proof {
            use_type_invariant(&*self);
        }
        if self.contains(&result.tool_call_id) {
            return Err(MessageError::DuplicateToolResultId { id: result.tool_call_id });
        }
        let ghost before = self.results@;
        let mut results = Vec::new();
        std::mem::swap(&mut results, &mut self.results);
        results.push(result);
        proof {
            let ids = result_ids(before).push(result.tool_call_id@);
            assert(result_ids(results@) =~= ids);
            assert forall|i: int, j: int| 0 <= i < j < ids.len() implies ids[i] != ids[j] by {
                if j == ids.len() - 1 {
                    assert(result_ids(before)[i] == ids[i]);
                }
            }
        }
        self.results = results;
        Ok(())
    }

    pub fn contains(&self, id: &ToolCallId) -> (r: bool)
        ensures
            r == result_ids(self.entries()).contains(id@),
    {
        let mut i: usize = 0;
        while i < self.results.len()
            invariant
                i <= self.results@.len(),
                forall|k: int| 0 <= k < i ==> self.results@[k].tool_call_id@ != id@,
            decreases self.results@.len() - i,
        {
            if self.results[i].tool_call_id.same(id) {
                assert(result_ids(self.results@)[i as int] == id@);
                return true;
            }
            i = i + 1;
        }
        proof {
            if result_ids(self.results@).contains(id@) {
                let k = choose|k: int|
                    0 <= k < result_ids(self.results@).len() && result_ids(self.results@)[k]
                        == id@;
                assert(self.results@[k].tool_call_id@ == id@);
            }
        }
        false
    }

    pub fn ids(&self) -> (r: Vec<&ToolCallId>)
        ensures
            r@.map_values(|id: &ToolCallId| *id) == self.entries().map_values(
                |r: ToolResult| r.tool_call_id,
            ),
    {
        let mut out: Vec<&ToolCallId> = Vec::new();
        for i in 0..self.results.len()
            invariant
                out@.len() == i,
                out@.map_values(|id: &ToolCallId| *id) == self.results@.take(i as int).map_values(
                    |r: ToolResult| r.tool_call_id,
                ),
        {
            let ghost before = out@;
            let entry = &self.results[i];
            out.push(&entry.tool_call_id);
            assert forall|k: int| 0 <= k < i implies *out@[k] == self.results@[k].tool_call_id by {
                assert(out@[k] == before[k]);
                assert(before.map_values(|id: &ToolCallId| *id)[k] == self.results@.take(
                    i as int,
                ).map_values(|r: ToolResult| r.tool_call_id)[k]);
            }
            assert(*out@[i as int] == self.results@[i as int].tool_call_id);
            assert(self.results@.take(i + 1)[i as int] == self.results@[i as int]);
            assert(out@.map_values(|id: &ToolCallId| *id) =~= self.results@.take(
                i + 1,
            ).map_values(|r: ToolResult| r.tool_call_id));
        }
        assert(self.results@.take(self.results@.len() as int) =~= self.results@);
        out
    }

    pub fn results(&self) -> (r: &[ToolResult])
        ensures
            r@ == self.entries(),
            distinct(result_ids(self.entries())),
    {
        proof {
            use_type_invariant(self);
        }
        self.results.as_slice()
    }

    pub fn into_results(self) -> (r: Vec<ToolResult>)
        ensures
            r@ == self.entries(),
            distinct(result_ids(r@)),
    {
        proof {
            use_type_invariant(&self);
        }
        self.results
    }

    pub fn is_empty(&self) -> (r: bool)
        ensures
            r == (self.entries().len() == 0),
    {
        self.results.len() == 0
    }

    pub fn len(&self) -> (r: usize)
        ensures
            r == self.entries().len(),
    {
        self.results.len()
    }

    /// Collects the results in order, refused with `DuplicateToolResultId`
    /// carrying the first id that repeats an earlier one.
    pub fn from_results(results: Vec<ToolResult>) -> (r: Result<ToolResults, MessageError>)
        ensures
            match r {
                Ok(collected) => distinct(result_ids(results@)) && collected.entries() == results@,
                Err(e) => exists|j: int|
                    #![trigger repeats_earlier_result(results@, j)]
                    repeats_earlier_result(results@, j) && (forall|k: int|
                        0 <= k < j ==> !#[trigger] repeats_earlier_result(results@, k)) && e == (
                    MessageError::DuplicateToolResultId { id: results@[j].tool_call_id }),
            },
    {
        let ghost all = results@;
        let n = results.len();
        let mut collected = ToolResults::empty();
        let mut rest = results;
        let mut k: usize = 0;
        while rest.len() > 0
            invariant
                k + rest@.len() == all.len(),
                n == all.len(),
                all == results@,
                collected.entries() == all.take(k as int),
                rest@ == all.skip(k as int),
                forall|j: int| 0 <= j < k ==> !#[trigger] repeats_earlier_result(all, j),
            decreases rest@.len(),
        {
            let result = rest.remove(0);
            assert(result == all[k as int]);
            assert(result_ids(all).take(k as int) =~= result_ids(all.take(k as int)));
            match collected.push(result) {
                Ok(()) => {},
                Err(e) => {
                    assert(repeats_earlier_result(all, k as int));
                    assert(e == (MessageError::DuplicateToolResultId { id: all[k as int].tool_call_id }));
                    assert(all == results@);
                    assert(exists|j: int|
                    #![trigger repeats_earlier_result(all, j)]
                    repeats_earlier_result(all, j) && (forall|k: int|
                        0 <= k < j ==> !#[trigger] repeats_earlier_result(all, k)) && e == (
                    MessageError::DuplicateToolResultId { id: all[j].tool_call_id }));
                    return Err(e);
                },
            }
            assert(all.take(k as int).push(all[k as int]) =~= all.take(k + 1));
            assert(rest@ =~= all.skip(k + 1));
            k = k + 1;
        }
        assert(all.take(k as int) =~= all);
        proof {
            assert forall|i: int, j: int|
                0 <= i < j < result_ids(all).len() implies result_ids(all)[i] != result_ids(
                all,
            )[j] by {
                assert(!repeats_earlier_result(all, j));
                assert(result_ids(all).take(j)[i] == result_ids(all)[i]);
            }
        }
        Ok(collected)
    }
}

impl Default for ToolResults {
    fn default() -> (r: Self)
        ensures
            r.entries() == Seq::<ToolResult>::empty(),
    {
        ToolResults::empty()
    }
}

} // verus!
