//! The context budget of a task.
use vstd::prelude::*;
use crate::text;

verus! {

/// Context budget allocation for a task, in tokens.
#[derive(Debug, Clone, Copy, PartialEq, Eq, Structural)]
pub struct ContextBudget {
    pub total_tokens: usize,
    pub working_memory: usize,
    pub architecture: usize,
    pub active_files: usize,
    pub dependency_expansion: usize,
    pub code: usize,
    pub tool_output: usize,
}

/// `percent` percent of `total`, rounded down.
pub open spec fn share(total: nat, percent: nat) -> nat {
    total * percent / 100
}

/// The token estimate of a text: a quarter of its UTF-8 byte length, plus one.
pub open spec fn tokens_of(s: Seq<char>) -> nat {
    text::byte_len(s) / 4 + 1
}

impl ContextBudget {
    /// The split of `total`: working memory 10%, architecture 15%, active files 20%,
    /// dependency expansion 20%, code 20%, tool output 15%.
    pub open spec fn splits(self, total: nat) -> bool {
        &&& self.total_tokens == total
        &&& self.working_memory == share(total, 10)
        &&& self.architecture == share(total, 15)
        &&& self.active_files == share(total, 20)
        &&& self.dependency_expansion == share(total, 20)
        &&& self.code == share(total, 20)
        &&& self.tool_output == share(total, 15)
    }

    pub fn for_total(total: usize) -> (r: ContextBudget)
        requires
            total * 20 <= usize::MAX,
        ensures
            r.splits(total as nat),
    {
        ContextBudget {
            total_tokens: total,
            working_memory: total * 10 / 100,
            architecture: total * 15 / 100,
            active_files: total * 20 / 100,
            dependency_expansion: total * 20 / 100,
            code: total * 20 / 100,
            tool_output: total * 15 / 100,
        }
    }

    pub fn estimate_tokens(text: &str) -> (r: usize)
        ensures
            r == tokens_of(text@),
    {
        text::str_byte_len(text) / 4 + 1
    }
}

/// Budget law: the slices of a budget never add up to more than its total.
pub proof fn lemma_slices_within_total(b: ContextBudget, total: nat)
    requires
        b.splits(total),
    ensures
        b.working_memory + b.architecture + b.active_files + b.dependency_expansion + b.code
            + b.tool_output <= b.total_tokens,
{
    assert(share(total, 10) * 100 <= total * 10) by (nonlinear_arith);
    assert(share(total, 15) * 100 <= total * 15) by (nonlinear_arith);
    assert(share(total, 20) * 100 <= total * 20) by (nonlinear_arith);
    assert((share(total, 10) + share(total, 15) + share(total, 20) + share(total, 20) + share(
        total,
        20,
    ) + share(total, 15)) * 100 <= total * 100) by (nonlinear_arith)
        requires
            share(total, 10) * 100 <= total * 10,
            share(total, 15) * 100 <= total * 15,
            share(total, 20) * 100 <= total * 20,
    ;
}

} // verus!
