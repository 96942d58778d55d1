//! Reflection events and revision-checked records, with their provenance.
use vstd::prelude::*;
use crate::clock::Timestamp;
use crate::text;

verus! {

/// What a stored statement claims.
#[derive(Debug, Clone, Copy, PartialEq, Eq, Structural)]
pub enum RecordKind {
    Observation,
    Hypothesis,
    Decision,
}

impl RecordKind {
    /// The kind's stored name.
    pub open spec fn name_of(self) -> Seq<char> {
        match self {
            RecordKind::Observation => "observation"@,
            RecordKind::Hypothesis => "hypothesis"@,
            RecordKind::Decision => "decision"@,
        }
    }

    /// The kind whose stored name is `s`, if any.
    pub open spec fn named(s: Seq<char>) -> Option<RecordKind> {
        if s == "observation"@ {
            Some(RecordKind::Observation)
        } else if s == "hypothesis"@ {
            Some(RecordKind::Hypothesis)
        } else if s == "decision"@ {
            Some(RecordKind::Decision)
        } else {
            None
        }
    }

    pub fn as_str(self) -> (r: &'static str)
        ensures
            r@ == self.name_of(),
    {
        match self {
            RecordKind::Observation => "observation",
            RecordKind::Hypothesis => "hypothesis",
            RecordKind::Decision => "decision",
        }
    }

    /// The kind whose stored name is `s`.
    pub fn from_name(s: &str) -> (r: Option<RecordKind>)
        ensures
            r == RecordKind::named(s@),
    {
        if text::str_eq(s, "observation") {
            Some(RecordKind::Observation)
        } else if text::str_eq(s, "hypothesis") {
            Some(RecordKind::Hypothesis)
        } else if text::str_eq(s, "decision") {
            Some(RecordKind::Decision)
        } else {
            None
        }
    }
}

/// Reading a kind's name back gives the kind.
pub proof fn lemma_kind_name_roundtrip(k: RecordKind)
    ensures
        RecordKind::named(k.name_of()) == Some(k),
{
    reveal_strlit("observation");
    reveal_strlit("hypothesis");
    reveal_strlit("decision");
    assert("observation"@[0] != "hypothesis"@[0]);
    assert("observation"@[0] != "decision"@[0]);
    assert("hypothesis"@[0] != "decision"@[0]);
}

impl std::str::FromStr for RecordKind {
    type Err = ();

    /// The kind whose stored name is `s`; `Err(())` for any other text.
    fn from_str(s: &str) -> (r: Result<Self, Self::Err>)
        ensures
            match RecordKind::named(s@) {
                Some(k) => r == Ok::<RecordKind, ()>(k),
                None => r == Err::<RecordKind, ()>(()),
            },
    {
        match RecordKind::from_name(s) {
            Some(k) => Ok(k),
            None => Err(()),
        }
    }
}

/// Who produced a record or event and what it was derived from.
#[derive(Debug, Clone, Default)]
pub struct Provenance {
    pub project: String,
    pub agent: String,
    pub run_id: String,
    /// URIs, `file:line` refs, or memory object ids the statement draws on.
    pub source_refs: Vec<String>,
    /// Content hash of the source material.
    pub source_hash: Option<String>,
}

/// Input for submitting an event. `submission_id` is the idempotency key.
#[derive(Debug, Clone)]
pub struct EventSubmission {
    pub submission_id: String,
    pub kind: RecordKind,
    pub body: String,
    /// `event_id` of the event this corrects. The corrected event is never modified.
    pub supersedes: Option<String>,
    pub provenance: Provenance,
}

/// An immutable, append-only reflection event.
#[derive(Debug, Clone)]
pub struct ReflectionEvent {
    pub event_id: String,
    pub submission_id: String,
    pub kind: RecordKind,
    pub body: String,
    pub supersedes: Option<String>,
    pub provenance: Provenance,
    pub created_at: Timestamp,
}

/// A mutable record guarded by optimistic revision checks.
#[derive(Debug, Clone)]
pub struct MemoryRecord {
    pub record_id: String,
    pub revision: u64,
    pub kind: RecordKind,
    pub body: String,
    pub provenance: Provenance,
    pub created_at: Timestamp,
    pub updated_at: Timestamp,
}

/// Input for creating a record. Fails if the id is already taken.
#[derive(Debug, Clone)]
pub struct NewRecord {
    pub record_id: String,
    pub kind: RecordKind,
    pub body: String,
    pub provenance: Provenance,
}

/// Input for updating a record; bumps `revision` by one.
#[derive(Debug, Clone)]
pub struct RecordUpdate {
    pub kind: RecordKind,
    pub body: String,
    pub provenance: Provenance,
}

} // verus!
