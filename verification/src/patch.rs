//! Patch memory: why a file changed.
use vstd::prelude::*;
use crate::clock::Timestamp;

verus! {

/// A change to a file with its reason and context.
#[derive(Debug, Clone)]
pub struct PatchRecord {
    pub id: String,
    pub path: String,
    pub before_hash: String,
    pub after_hash: String,
    pub reason: String,
    pub related_issue: Option<String>,
    pub related_pr: Option<String>,
    pub author: Option<String>,
    pub date: Timestamp,
    pub future_impact: Option<String>,
}

} // verus!
