use vstd::prelude::*;

use crate::events::{LogEvent, PageRequest, PageResponse};
use crate::MAX_PAGE_SIZE;

verus! {

/// How far before "now" the first poll of a tail session looks, milliseconds.
pub const TAIL_LOOKBACK_MS: i64 = 60000;

/// How long a caller should wait between polls once the store reports no
/// further page, milliseconds.
pub const TAIL_IDLE_WAIT_MS: u64 = 1000;

/// The watermark after one batch of events has been delivered: one past the
/// timestamp of the last timestamped event, or the old watermark when the
/// batch carries no timestamp at all.
pub open spec fn watermark_after(w: Option<i64>, events: Seq<LogEvent>) -> Option<i64>
    decreases events.len(),
{
    if events.len() == 0 {
        w
    } else {
        match events[events.len() - 1].timestamp {
            Some(t) => Some((t + 1) as i64),
            None => watermark_after(w, events.drop_last()),
        }
    }
}

/// Drives one live-tail session: builds each poll's request from the
/// watermark, delivers every returned event, and advances the watermark so
/// that an already-delivered timestamp is never fetched again.
pub struct LiveTailer {
    group: String,
    pattern: Option<String>,
    watermark: Option<i64>,
    token: Option<String>,
}

impl LiveTailer {
    pub closed spec fn group(&self) -> String {
        self.group
    }

    pub closed spec fn pattern(&self) -> Option<String> {
        self.pattern
    }

    /// The timestamp boundary below which events are assumed delivered;
    /// absent until the first timestamped event arrives.
    pub closed spec fn watermark(&self) -> Option<i64> {
        self.watermark
    }

    /// The continuation token left by the previous poll cycle, if any.
    pub closed spec fn token(&self) -> Option<String> {
        self.token
    }

    pub fn new(group: String, pattern: Option<String>) -> (r: Self)
        ensures
            r.group() == group,
            r.pattern() == pattern,
            r.watermark() is None,
            r.token() is None,
    {
        LiveTailer { group, pattern, watermark: None, token: None }
    }

    /// The request for the next poll: the window starts at the watermark, or
    /// at `now_ms` less the look-back when no event has been seen yet, and
    /// carries the token left by the previous cycle.
    pub fn next_request(&self, now_ms: i64) -> (r: PageRequest)
        requires
            now_ms >= i64::MIN + TAIL_LOOKBACK_MS,
        ensures
            r.group == self.group(),
            r.pattern == self.pattern(),
            r.start == Some(
                match self.watermark() {
                    Some(w) => w,
                    None => (now_ms - TAIL_LOOKBACK_MS) as i64,
                },
            ),
            r.end is None,
            r.page_size == MAX_PAGE_SIZE,
            r.continuation == self.token(),
    {
        let start = match self.watermark {
            Some(w) => w,
            None => now_ms - TAIL_LOOKBACK_MS,
        };
        PageRequest {
            group: self.group.clone(),
            start: Some(start),
            end: None,
            pattern: crate::events::clone_string_opt(&self.pattern),
            page_size: MAX_PAGE_SIZE,
            continuation: crate::events::clone_string_opt(&self.token),
        }
    }

    /// Folds one poll's page in: returns every event for delivery in arrival
    /// order, advances the watermark past each timestamped event, and keeps
    /// the continuation token for the next cycle.
    pub fn ingest(&mut self, page: PageResponse) -> (delivered: Vec<LogEvent>)
        requires
            forall|j: int|
                0 <= j < page.events@.len() && #[trigger] page.events@[j].timestamp is Some
                    ==> page.events@[j].timestamp->Some_0 < i64::MAX,
        ensures
            delivered@ == page.events@,
            final(self).group() == old(self).group(),
            final(self).pattern() == old(self).pattern(),
            final(self).watermark() == watermark_after(old(self).watermark(), page.events@),
            final(self).token() == page.next_token,
    {
        let PageResponse { events, next_token } = page;
        self.token = next_token;
        let n = events.len();
        let mut i: usize = 0;
        while i < n
            invariant
                n == events@.len(),
                i <= n,
                forall|j: int|
                    0 <= j < events@.len() && #[trigger] events@[j].timestamp is Some
                        ==> events@[j].timestamp->Some_0 < i64::MAX,
                self.watermark == watermark_after(old(self).watermark(), events@.take(i as int)),
                self.group == old(self).group(),
                self.pattern == old(self).pattern(),
                self.token == page.next_token,
            decreases n - i,
        {
            proof {
                assert(events@.take(i + 1).drop_last() =~= events@.take(i as int));
                assert(events@.take(i + 1)[i as int] == events@[i as int]);
            }
            if let Some(t) = events[i].timestamp {
                proof {
                    assert(events@[i as int].timestamp is Some);
                }
                self.watermark = Some(t + 1);
            }
            i = i + 1;
        }
        proof {
            assert(events@.take(n as int) =~= events@);
        }
        events
    }

    /// Whether the last poll reported that the store is caught up, so the
    /// caller should wait `TAIL_IDLE_WAIT_MS` before polling again instead of
    /// continuing immediately.
    pub fn should_idle(&self) -> (r: bool)
        ensures
            r == (self.token() is None),
    {
        self.token.is_none()
    }
}

/// Law of the watermark: once a timestamped event has been delivered, the
/// next poll's window start lies strictly past that timestamp, so an
/// already-delivered timestamp is never fetched again — provided the batch
/// was delivered in non-decreasing timestamp order.
pub proof fn lemma_watermark_excludes_delivered(w: Option<i64>, events: Seq<LogEvent>, j: int)
    requires
        0 <= j < events.len(),
        events[j].timestamp is Some,
        forall|a: int, b: int|
            0 <= a < b < events.len() && events[a].timestamp is Some && events[b].timestamp is Some
                ==> events[a].timestamp->Some_0 <= events[b].timestamp->Some_0,
        forall|a: int|
            0 <= a < events.len() && #[trigger] events[a].timestamp is Some
                ==> events[a].timestamp->Some_0 < i64::MAX,
    ensures
        watermark_after(w, events) is Some,
        watermark_after(w, events)->Some_0 > events[j].timestamp->Some_0,
    decreases events.len(),
{
    let n = events.len() as int;
    match events[n - 1].timestamp {
        Some(t) => {
            assert(events[j].timestamp->Some_0 <= t);
        },
        None => {
            assert(j < n - 1);
            assert(events.drop_last()[j] == events[j]);
            lemma_watermark_excludes_delivered(w, events.drop_last(), j);
        },
    }
}

/// The watermark never moves backwards: when every timestamped event of a
/// batch lies at or after the window start the watermark gave, the new
/// watermark lies at or after the old one.
pub proof fn lemma_watermark_monotone(s: i64, events: Seq<LogEvent>)
    requires
        forall|a: int|
            0 <= a < events.len() && #[trigger] events[a].timestamp is Some
                ==> s <= events[a].timestamp->Some_0 < i64::MAX,
    ensures
        watermark_after(Some(s), events) is Some,
        watermark_after(Some(s), events)->Some_0 >= s,
    decreases events.len(),
{
    if events.len() > 0 {
        match events[events.len() - 1].timestamp {
            Some(t) => {
            },
            None => {
                lemma_watermark_monotone(s, events.drop_last());
            },
        }
    }
}

} // verus!
