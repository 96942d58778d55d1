//! The L0 to L6 memory hierarchy.
use vstd::prelude::*;

verus! {

/// L0 through L6 memory hierarchy levels.
#[derive(Debug, Clone, Copy, PartialEq, Eq, Structural, Hash, PartialOrd, Ord)]
pub enum MemoryLevel {
    L0Working,
    L1ActiveSymbols,
    L2Module,
    L3Subsystem,
    L4Architecture,
    L5Historical,
    L6Repository,
}

impl MemoryLevel {
    /// The level's number: 0 for L0 up to 6 for L6.
    pub open spec fn rank(self) -> nat {
        match self {
            MemoryLevel::L0Working => 0,
            MemoryLevel::L1ActiveSymbols => 1,
            MemoryLevel::L2Module => 2,
            MemoryLevel::L3Subsystem => 3,
            MemoryLevel::L4Architecture => 4,
            MemoryLevel::L5Historical => 5,
            MemoryLevel::L6Repository => 6,
        }
    }

    /// The level's human-readable label.
    pub open spec fn label_text(self) -> Seq<char> {
        match self {
            MemoryLevel::L0Working => "L0 Working Memory"@,
            MemoryLevel::L1ActiveSymbols => "L1 Active Symbols"@,
            MemoryLevel::L2Module => "L2 Module Memory"@,
            MemoryLevel::L3Subsystem => "L3 Subsystem Memory"@,
            MemoryLevel::L4Architecture => "L4 Architecture Memory"@,
            MemoryLevel::L5Historical => "L5 Historical Memory"@,
            MemoryLevel::L6Repository => "L6 Repository Memory"@,
        }
    }

    /// Token budget a level receives by default.
    pub open spec fn budget_of(self) -> nat {
        match self {
            MemoryLevel::L0Working => 20_000,
            MemoryLevel::L1ActiveSymbols => 30_000,
            MemoryLevel::L2Module => 40_000,
            MemoryLevel::L3Subsystem => 30_000,
            MemoryLevel::L4Architecture => 30_000,
            MemoryLevel::L5Historical => 20_000,
            MemoryLevel::L6Repository => 10_000,
        }
    }

    pub fn label(self) -> (r: &'static str)
        ensures
            r@ == self.label_text(),
    {
        match self {
            MemoryLevel::L0Working => "L0 Working Memory",
            MemoryLevel::L1ActiveSymbols => "L1 Active Symbols",
            MemoryLevel::L2Module => "L2 Module Memory",
            MemoryLevel::L3Subsystem => "L3 Subsystem Memory",
            MemoryLevel::L4Architecture => "L4 Architecture Memory",
            MemoryLevel::L5Historical => "L5 Historical Memory",
            MemoryLevel::L6Repository => "L6 Repository Memory",
        }
    }

    pub fn default_token_budget(self) -> (r: usize)
        ensures
            r == self.budget_of(),
    {
        match self {
            MemoryLevel::L0Working => 20_000,
            MemoryLevel::L1ActiveSymbols => 30_000,
            MemoryLevel::L2Module => 40_000,
            MemoryLevel::L3Subsystem => 30_000,
            MemoryLevel::L4Architecture => 30_000,
            MemoryLevel::L5Historical => 20_000,
            MemoryLevel::L6Repository => 10_000,
        }
    }
}

} // verus!
