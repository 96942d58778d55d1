//! Confidence attached to retrieved memory.
use vstd::prelude::*;

verus! {

/// How far a retrieved item can be trusted and why it was retrieved.
/// `score` is in thousandths (900 stands for 0.9); `distance` holds the bit pattern of an `f32`.
#[derive(Debug, Clone)]
pub struct Confidence {
    pub score: u32,
    pub reason: String,
    pub retrieval_path: Vec<String>,
    pub distance: Option<u32>,
    pub last_verified: Option<String>,
}

impl Confidence {
    /// High confidence: score 0.9.
    pub fn high(reason: String, path: Vec<String>) -> (r: Confidence)
        ensures
            r.score == 900,
            r.reason == reason,
            r.retrieval_path == path,
            r.distance is None,
            r.last_verified is None,
    {
        Confidence { score: 900, reason, retrieval_path: path, distance: None, last_verified: None }
    }

    /// Medium confidence: score 0.6.
    pub fn medium(reason: String, path: Vec<String>) -> (r: Confidence)
        ensures
            r.score == 600,
            r.reason == reason,
            r.retrieval_path == path,
            r.distance is None,
            r.last_verified is None,
    {
        Confidence { score: 600, reason, retrieval_path: path, distance: None, last_verified: None }
    }
}

} // verus!
