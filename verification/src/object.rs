//! The universal memory object.
use vstd::prelude::*;
use crate::clock::{self, Timestamp};
use crate::compression::CompressedText;
use crate::hierarchy::MemoryLevel;
use crate::memory::Confidence;

verus! {

/// What a memory object describes.
#[derive(Debug, Clone, Copy, PartialEq, Eq, Structural)]
pub enum MemoryKind {
    Working,
    Symbol,
    Module,
    Subsystem,
    Architecture,
    Historical,
    Repository,
    Patch,
    Execution,
}

impl MemoryKind {
    /// All kinds, in declaration order.
    pub const ALL: [MemoryKind; 9] = [
        MemoryKind::Working,
        MemoryKind::Symbol,
        MemoryKind::Module,
        MemoryKind::Subsystem,
        MemoryKind::Architecture,
        MemoryKind::Historical,
        MemoryKind::Repository,
        MemoryKind::Patch,
        MemoryKind::Execution,
    ];

    /// The kind's name as stored.
    pub open spec fn name_of(self) -> Seq<char> {
        match self {
            MemoryKind::Working => "working"@,
            MemoryKind::Symbol => "symbol"@,
            MemoryKind::Module => "module"@,
            MemoryKind::Subsystem => "subsystem"@,
            MemoryKind::Architecture => "architecture"@,
            MemoryKind::Historical => "historical"@,
            MemoryKind::Repository => "repository"@,
            MemoryKind::Patch => "patch"@,
            MemoryKind::Execution => "execution"@,
        }
    }

    /// The hierarchy level objects of this kind live at.
    pub open spec fn level_of(self) -> MemoryLevel {
        match self {
            MemoryKind::Working => MemoryLevel::L0Working,
            MemoryKind::Symbol => MemoryLevel::L1ActiveSymbols,
            MemoryKind::Module => MemoryLevel::L2Module,
            MemoryKind::Subsystem => MemoryLevel::L3Subsystem,
            MemoryKind::Architecture => MemoryLevel::L4Architecture,
            MemoryKind::Historical => MemoryLevel::L5Historical,
            MemoryKind::Repository => MemoryLevel::L6Repository,
            MemoryKind::Patch => MemoryLevel::L5Historical,
            MemoryKind::Execution => MemoryLevel::L5Historical,
        }
    }

    pub fn as_str(self) -> (r: &'static str)
        ensures
            r@ == self.name_of(),
    {
        match self {
            MemoryKind::Working => "working",
            MemoryKind::Symbol => "symbol",
            MemoryKind::Module => "module",
            MemoryKind::Subsystem => "subsystem",
            MemoryKind::Architecture => "architecture",
            MemoryKind::Historical => "historical",
            MemoryKind::Repository => "repository",
            MemoryKind::Patch => "patch",
            MemoryKind::Execution => "execution",
        }
    }

    pub fn level(self) -> (r: MemoryLevel)
        ensures
            r == self.level_of(),
    {
        match self {
            MemoryKind::Working => MemoryLevel::L0Working,
            MemoryKind::Symbol => MemoryLevel::L1ActiveSymbols,
            MemoryKind::Module => MemoryLevel::L2Module,
            MemoryKind::Subsystem => MemoryLevel::L3Subsystem,
            MemoryKind::Architecture => MemoryLevel::L4Architecture,
            MemoryKind::Historical => MemoryLevel::L5Historical,
            MemoryKind::Repository => MemoryLevel::L6Repository,
            MemoryKind::Patch | MemoryKind::Execution => MemoryLevel::L5Historical,
        }
    }
}

/// Universal memory object stored at every hierarchy layer.
/// `importance` and `risk` are fractions in thousandths (500 stands for 0.5).
#[derive(Debug, Clone)]
pub struct MemoryObject {
    pub id: String,
    pub kind: MemoryKind,
    pub path: Option<String>,
    pub text: CompressedText,
    pub dependencies: Vec<String>,
    pub symbols: Vec<String>,
    pub hash: String,
    pub updated_at: Timestamp,
    pub importance: u32,
    pub confidence: Option<Confidence>,
    pub risk: u32,
    pub git_commit: Option<String>,
}

impl MemoryObject {
    /// A fresh object: no path, no text, no links, importance 0.5, risk 0, stamped now.
    pub open spec fn fresh(self, id: Seq<char>, kind: MemoryKind, hash: Seq<char>) -> bool {
        &&& self.id@ == id
        &&& self.kind == kind
        &&& self.path is None
        &&& self.text.raw is None
        &&& self.text.summary is None
        &&& self.text.ultra_summary is None
        &&& self.text.keywords@.len() == 0
        &&& self.text.embedding is None
        &&& self.dependencies@.len() == 0
        &&& self.symbols@.len() == 0
        &&& self.hash@ == hash
        &&& self.importance == 500
        &&& self.confidence is None
        &&& self.risk == 0
        &&& self.git_commit is None
    }

    pub fn new(id: String, kind: MemoryKind, hash: String) -> (r: MemoryObject)
        ensures
            r.fresh(id@, kind, hash@),
            r.id == id,
            r.hash == hash,
    {
        MemoryObject {
            id,
            kind,
            path: None,
            text: CompressedText {
                raw: None,
                summary: None,
                ultra_summary: None,
                keywords: Vec::new(),
                embedding: None,
            },
            dependencies: Vec::new(),
            symbols: Vec::new(),
            hash,
            updated_at: clock::now(),
            importance: 500,
            confidence: None,
            risk: 0,
            git_commit: None,
        }
    }
}

} // verus!
