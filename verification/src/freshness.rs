//! Freshness of stored memory against the current content.
use vstd::prelude::*;
use crate::clock::{self, Timestamp};
use crate::text;

verus! {

/// When and from what content a memory was made. `confidence` is in thousandths.
#[derive(Debug, Clone)]
pub struct Freshness {
    pub last_modified: Timestamp,
    pub git_commit: Option<String>,
    pub hash: String,
    pub confidence: u32,
}

/// How stale a memory is: `score` in thousandths (0 fresh, 1000 stale) and why.
#[derive(Debug, Clone)]
pub struct Staleness {
    pub score: u32,
    pub reason: String,
}

impl Freshness {
    /// Freshness of content with hash `hash`, made now, with full confidence.
    pub fn new(hash: String) -> (r: Freshness)
        ensures
            r.hash == hash,
            r.git_commit is None,
            r.confidence == 1000,
    {
        Freshness { last_modified: clock::now(), git_commit: None, hash, confidence: 1000 }
    }

    /// Fresh (score 0) when the content hash is unchanged, stale (score 1000) otherwise.
    pub fn staleness(&self, current_hash: &str) -> (r: Staleness)
        ensures
            self.hash@ == current_hash@ ==> r.score == 0 && r.reason@ == "hash matches"@,
            self.hash@ != current_hash@ ==> r.score == 1000 && r.reason@ == "content hash changed"@,
    {
        if text::str_eq(self.hash.as_str(), current_hash) {
            Staleness { score: 0, reason: text::owned("hash matches") }
        } else {
            Staleness { score: 1000, reason: text::owned("content hash changed") }
        }
    }
}

} // verus!
