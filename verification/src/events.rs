use vstd::prelude::*;

verus! {

/// One log record as the remote store delivers it. Every field is optional
/// because the store may omit any of them.
pub struct LogEvent {
    /// Milliseconds since the Unix epoch.
    pub timestamp: Option<i64>,
    /// Name of the stream the record came from.
    pub stream_id: Option<String>,
    /// The record's text.
    pub message: Option<String>,
}

/// One page-fetch call: the query parameters plus the continuation token
/// that resumes a paged listing.
pub struct PageRequest {
    pub group: String,
    /// Inclusive lower bound of the time window, milliseconds.
    pub start: Option<i64>,
    /// Exclusive upper bound of the time window, milliseconds.
    pub end: Option<i64>,
    pub pattern: Option<String>,
    /// How many events this page may carry at most.
    pub page_size: usize,
    pub continuation: Option<String>,
}

/// One page handed back by the remote store. An absent `next_token` means
/// no more pages are currently available.
pub struct PageResponse {
    pub events: Vec<LogEvent>,
    pub next_token: Option<String>,
}

pub fn clone_string_opt(s: &Option<String>) -> (r: Option<String>)
    ensures
        r == *s,
{
    match s {
        Some(t) => Some(t.clone()),
        None => None,
    }
}

impl LogEvent {
    pub fn duplicate(&self) -> (r: LogEvent)
        ensures
            r == *self,
    {
        LogEvent {
            timestamp: self.timestamp,
            stream_id: clone_string_opt(&self.stream_id),
            message: clone_string_opt(&self.message),
        }
    }
}

impl PageResponse {
    pub fn duplicate(&self) -> (r: PageResponse)
        ensures
            r.events@ == self.events@,
            r.next_token == self.next_token,
    {
        let mut events: Vec<LogEvent> = Vec::new();
        let mut i: usize = 0;
        while i < self.events.len()
            invariant
                i <= self.events.len(),
                events@ == self.events@.take(i as int),
            decreases self.events.len() - i,
        {
            events.push(self.events[i].duplicate());
            proof {
                assert(events@ =~= self.events@.take(i + 1 as int));
            }
            i = i + 1;
        }
        proof {
            assert(events@ =~= self.events@);
        }
        PageResponse { events, next_token: clone_string_opt(&self.next_token) }
    }
}

} // verus!
