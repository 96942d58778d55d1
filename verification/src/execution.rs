//! Execution memory: what the agent did recently.
use vstd::prelude::*;
use crate::clock::Timestamp;
use crate::text;

verus! {

/// How many events the execution memory keeps.
pub const EXECUTION_EVENT_LIMIT: usize = 500;

/// How many of the newest events `recent_paths` looks at.
pub const RECENT_WINDOW: usize = 50;

/// Something the agent did.
#[derive(Debug, Clone)]
pub enum ExecutionEvent {
    OpenedFile { path: String, at: Timestamp },
    Search { query: String, at: Timestamp },
    Command { cmd: String, at: Timestamp },
    TestRun { cmd: String, passed: bool, at: Timestamp },
    Failure { message: String, at: Timestamp },
    ModifiedFile { path: String, at: Timestamp },
}

/// The recent events, oldest first.
#[derive(Debug, Clone)]
pub struct ExecutionMemory {
    pub events: Vec<ExecutionEvent>,
}

impl Default for ExecutionMemory {
    fn default() -> (r: Self)
        ensures
            r.events@.len() == 0,
    {
        ExecutionMemory { events: Vec::new() }
    }
}

/// The newest `EXECUTION_EVENT_LIMIT` events of a log.
pub open spec fn kept_events(s: Seq<ExecutionEvent>) -> Seq<ExecutionEvent> {
    if s.len() > EXECUTION_EVENT_LIMIT {
        s.subrange(s.len() - EXECUTION_EVENT_LIMIT, s.len() as int)
    } else {
        s
    }
}

/// The file an event opened or modified.
pub open spec fn event_path(e: ExecutionEvent) -> Option<Seq<char>> {
    match e {
        ExecutionEvent::OpenedFile { path, .. } => Some(path@),
        ExecutionEvent::ModifiedFile { path, .. } => Some(path@),
        _ => None,
    }
}

/// The newest `RECENT_WINDOW` events, newest first.
pub open spec fn newest_first(s: Seq<ExecutionEvent>) -> Seq<ExecutionEvent> {
    let n = if s.len() < RECENT_WINDOW {
        s.len()
    } else {
        RECENT_WINDOW as nat
    };
    Seq::new(n, |k: int| s[s.len() - 1 - k])
}

/// The files the events opened or modified, each once, in order of first mention.
pub open spec fn distinct_paths(es: Seq<ExecutionEvent>) -> Seq<Seq<char>>
    decreases es.len(),
{
    if es.len() == 0 {
        Seq::empty()
    } else {
        let prev = distinct_paths(es.drop_last());
        match event_path(es.last()) {
            Some(p) => if prev.contains(p) {
                prev
            } else {
                prev.push(p)
            },
            None => prev,
        }
    }
}

/// The recently touched files: those the newest events opened or modified, newest first.
pub open spec fn recent_paths_of(events: Seq<ExecutionEvent>) -> Seq<Seq<char>> {
    distinct_paths(newest_first(events))
}

impl ExecutionMemory {
    /// Appends an event, keeping only the newest `EXECUTION_EVENT_LIMIT` ones.
    pub fn record(&mut self, event: ExecutionEvent)
        ensures
            final(self).events@ == kept_events(old(self).events@.push(event)),
    {
        self.events.push(event);
        if self.events.len() > EXECUTION_EVENT_LIMIT {
            let drop = self.events.len() - EXECUTION_EVENT_LIMIT;
            let mut all: Vec<ExecutionEvent> = Vec::new();
            std::mem::swap(&mut all, &mut self.events);
            let ghost av = all@;
            let mut kept: Vec<ExecutionEvent> = Vec::new();
            let mut skip: usize = drop;
            for e in it: all
                invariant
                    it.seq() == av,
                    skip == if it.index() < drop { drop - it.index() } else { 0 },
                    drop == av.len() - EXECUTION_EVENT_LIMIT,
                    av.len() > EXECUTION_EVENT_LIMIT,
                    it.index() <= drop ==> kept@.len() == 0,
                    it.index() > drop ==> kept@ == av.subrange(drop as int, it.index() as int),
            {
                if skip > 0 {
                    skip -= 1;
                } else {
                    kept.push(e);
                    assert(kept@ =~= av.subrange(drop as int, it.index() + 1));
                }
            }
            self.events = kept;
        }
    }

    /// The recently touched files: those the newest `RECENT_WINDOW` events opened or
    /// modified, newest first, each once.
    pub fn recent_paths(&self) -> (r: Vec<&str>)
        ensures
            r@.map_values(|s: &str| s@) == recent_paths_of(self.events@),
    {
        let ghost es = self.events@;
        let ghost w = newest_first(es);
        let n = self.events.len();
        let m = if n < RECENT_WINDOW {
            n
        } else {
            RECENT_WINDOW
        };
        let mut paths: Vec<&str> = Vec::new();
        let mut k: usize = 0;
        while k < m
            invariant
                k <= m <= n == es.len(),
                es == self.events@,
                w == newest_first(es),
                m == w.len(),
                paths@.map_values(|s: &str| s@) == distinct_paths(w.take(k as int)),
            decreases m - k,
        {
            let ghost pv = paths@.map_values(|s: &str| s@);
            assert(w.take(k + 1).drop_last() =~= w.take(k as int));
            assert(w.take(k + 1).last() == es[n - 1 - k]);
            match &self.events[n - 1 - k] {
                ExecutionEvent::OpenedFile { path, .. } | ExecutionEvent::ModifiedFile { path, .. } => {
                    let p = path.as_str();
                    let mut j: usize = 0;
                    let mut found = false;
                    while j < paths.len()
                        invariant
                            j <= paths@.len(),
                            pv == paths@.map_values(|s: &str| s@),
                            found == exists|i: int| 0 <= i < j && pv[i] == p@,
                        decreases paths@.len() - j,
                    {
                        let same = text::str_eq(paths[j], p);
                        assert(pv[j as int] == paths@[j as int]@);
                        if same {
                            found = true;
                        }
                        j += 1;
                    }
                    if !found {
                        paths.push(p);
                        assert(paths@.map_values(|s: &str| s@) =~= pv.push(p@));
                    }
                },
                _ => {},
            }
            k += 1;
        }
        assert(w.take(m as int) =~= w);
        paths
    }
}

/// The recently touched files are distinct and come from the newest events.
pub proof fn lemma_recent_paths_distinct(events: Seq<ExecutionEvent>)
    ensures
        recent_paths_of(events).no_duplicates(),
        recent_paths_of(events).len() <= RECENT_WINDOW,
{
    lemma_distinct_paths(newest_first(events));
}

proof fn lemma_distinct_paths(es: Seq<ExecutionEvent>)
    ensures
        distinct_paths(es).no_duplicates(),
        distinct_paths(es).len() <= es.len(),
    decreases es.len(),
{
    if es.len() > 0 {
        lemma_distinct_paths(es.drop_last());
    }
}

/// Recording an event keeps the newest events, at most `EXECUTION_EVENT_LIMIT` of them:
/// a suffix of the log with the new event last.
pub proof fn lemma_record_keeps_newest(events: Seq<ExecutionEvent>, e: ExecutionEvent)
    ensures
        ({
            let all = events.push(e);
            let kept = kept_events(all);
            &&& kept.len() == if all.len() > EXECUTION_EVENT_LIMIT {
                EXECUTION_EVENT_LIMIT as nat
            } else {
                all.len()
            }
            &&& kept == all.subrange(all.len() - kept.len(), all.len() as int)
            &&& kept.last() == e
        }),
{
    let all = events.push(e);
    if all.len() <= EXECUTION_EVENT_LIMIT {
        assert(all.subrange(0, all.len() as int) =~= all);
    }
}

} // verus!
