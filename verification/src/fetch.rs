use vstd::prelude::*;

use crate::events::{LogEvent, PageRequest, PageResponse};
use crate::MAX_PAGE_SIZE;

verus! {

/// How many events a query keeps out of `n` available ones when it is
/// bounded by `limit`: `min(limit, n)` with an absent limit keeping all.
pub open spec fn kept_count(limit: Option<usize>, n: nat) -> nat {
    match limit {
        Some(l) => if (l as nat) < n {
            l as nat
        } else {
            n
        },
        None => n,
    }
}

/// The events of the first `k` pages, in page order.
pub open spec fn events_up_to(pages: Seq<PageResponse>, k: int) -> Seq<LogEvent>
    decreases k,
{
    if k <= 0 {
        Seq::empty()
    } else {
        events_up_to(pages, k - 1) + pages[k - 1].events@
    }
}

/// A page sequence as the remote store serves it for one query: at least one
/// page, every page but the last carries a continuation token, and the last
/// does not.
pub open spec fn pages_wf(pages: Seq<PageResponse>) -> bool {
    &&& pages.len() > 0
    &&& forall|i: int| 0 <= i < pages.len() - 1 ==> pages[i].next_token is Some
    &&& pages[pages.len() - 1].next_token is None
}

/// Earlier page prefixes are prefixes of later ones.
pub proof fn lemma_events_up_to_prefix(pages: Seq<PageResponse>, k: int, m: int)
    requires
        0 <= k <= m,
    ensures
        events_up_to(pages, k).len() <= events_up_to(pages, m).len(),
        events_up_to(pages, k) == events_up_to(pages, m).take(events_up_to(pages, k).len() as int),
    decreases m,
{
    if m == k {
        assert(events_up_to(pages, k) =~= events_up_to(pages, m).take(
            events_up_to(pages, k).len() as int,
        ));
    } else {
        lemma_events_up_to_prefix(pages, k, m - 1);
        assert(events_up_to(pages, k) =~= events_up_to(pages, m).take(
            events_up_to(pages, k).len() as int,
        ));
    }
}

/// Drives one bounded historical query: issues page requests, accumulates
/// the returned events, and stops as soon as the result limit is reached or
/// the store reports no further page.
pub struct BoundedFetcher {
    group: String,
    start: Option<i64>,
    end: Option<i64>,
    pattern: Option<String>,
    limit: Option<usize>,
    events: Vec<LogEvent>,
    token: Option<String>,
    exhausted: bool,
}

impl BoundedFetcher {
    /// The events accumulated so far, in arrival order.
    pub closed spec fn events(&self) -> Seq<LogEvent> {
        self.events@
    }

    pub closed spec fn limit(&self) -> Option<usize> {
        self.limit
    }

    pub closed spec fn group(&self) -> String {
        self.group
    }

    pub closed spec fn start_time(&self) -> Option<i64> {
        self.start
    }

    pub closed spec fn end_time(&self) -> Option<i64> {
        self.end
    }

    pub closed spec fn pattern(&self) -> Option<String> {
        self.pattern
    }

    /// The continuation token the next request would carry.
    pub closed spec fn token(&self) -> Option<String> {
        self.token
    }

    /// Whether the last ingested page reported that no further page is
    /// currently available.
    pub closed spec fn exhausted(&self) -> bool {
        self.exhausted
    }

    /// The accumulated events never exceed the limit.
    pub open spec fn wf(&self) -> bool {
        self.limit() is Some ==> self.events().len() <= self.limit()->Some_0
    }

    /// The query is complete: either the store has no further page, or the
    /// limit has been reached exactly.
    pub open spec fn done(&self) -> bool {
        self.exhausted() || (self.limit() is Some && self.events().len() == self.limit()->Some_0)
    }

    /// How many events the next page may carry: the room left under the
    /// limit, capped at the store's page cap.
    pub open spec fn requested_size(&self) -> usize {
        match self.limit() {
            Some(l) => if l - self.events().len() < MAX_PAGE_SIZE {
                (l - self.events().len()) as usize
            } else {
                MAX_PAGE_SIZE
            },
            None => MAX_PAGE_SIZE,
        }
    }

    pub fn new(
        group: String,
        start: Option<i64>,
        end: Option<i64>,
        pattern: Option<String>,
        limit: Option<usize>,
    ) -> (r: Self)
        ensures
            r.wf(),
            r.events() == Seq::<LogEvent>::empty(),
            r.limit() == limit,
            r.group() == group,
            r.start_time() == start,
            r.end_time() == end,
            r.pattern() == pattern,
            r.token() is None,
            !r.exhausted(),
    {
        let r = BoundedFetcher {
            group,
            start,
            end,
            pattern,
            limit,
            events: Vec::new(),
            token: None,
            exhausted: false,
        };
        proof {
            assert(r.events() =~= Seq::<LogEvent>::empty());
        }
        r
    }

    /// The request for the next page, or `None` when the query is complete
    /// and no further request may be issued.
    pub fn next_request(&self) -> (r: Option<PageRequest>)
        requires
            self.wf(),
        ensures
            r is Some <==> !self.done(),
            r is Some ==> {
                let req = r->Some_0;
                &&& req.group == self.group()
                &&& req.start == self.start_time()
                &&& req.end == self.end_time()
                &&& req.pattern == self.pattern()
                &&& req.page_size == self.requested_size()
                &&& req.page_size > 0
                &&& req.page_size <= MAX_PAGE_SIZE
                &&& req.continuation == self.token()
            },
    {
        if self.exhausted {
            return None;
        }
        let page_size: usize = match self.limit {
            Some(l) => {
                let remaining = l - self.events.len();
                if remaining == 0 {
                    return None;
                }
                if remaining < MAX_PAGE_SIZE {
                    remaining
                } else {
                    MAX_PAGE_SIZE
                }
            },
            None => MAX_PAGE_SIZE,
        };
        Some(
            PageRequest {
                group: self.group.clone(),
                start: self.start,
                end: self.end,
                pattern: crate::events::clone_string_opt(&self.pattern),
                page_size,
                continuation: crate::events::clone_string_opt(&self.token),
            },
        )
    }

    /// Folds one returned page in: appends its events in response order,
    /// cuts the tail off at the limit, and records the continuation token.
    pub fn ingest(&mut self, page: PageResponse)
        requires
            old(self).wf(),
            !old(self).done(),
        ensures
            final(self).wf(),
            final(self).limit() == old(self).limit(),
            final(self).group() == old(self).group(),
            final(self).start_time() == old(self).start_time(),
            final(self).end_time() == old(self).end_time(),
            final(self).pattern() == old(self).pattern(),
            final(self).events() == {
                let combined = old(self).events() + page.events@;
                combined.take(kept_count(old(self).limit(), combined.len()) as int)
            },
            final(self).token() == page.next_token,
            final(self).exhausted() == (page.next_token is None),
            final(self).done() == (page.next_token is None || (old(self).limit() is Some && old(
                self,
            ).events().len() + page.events@.len() >= old(self).limit()->Some_0)),
    {
        let PageResponse { events: mut fresh, next_token } = page;
        self.exhausted = next_token.is_none();
        self.token = next_token;
        let ghost combined = self.events@ + fresh@;
        self.events.append(&mut fresh);
        if let Some(l) = self.limit {
            if self.events.len() >= l {
                self.events.truncate(l);
            }
        }
        proof {
            assert(self.events@ =~= combined.take(kept_count(self.limit, combined.len()) as int));
        }
    }

    /// Hands the accumulated events out, ending the query.
    pub fn into_events(self) -> (r: Vec<LogEvent>)
        ensures
            r@ == self.events(),
    {
        self.events
    }

    /// How many events have been accumulated so far.
    pub fn count(&self) -> (n: usize)
        ensures
            n == self.events().len(),
    {
        self.events.len()
    }
}

/// Runs a whole bounded query against a given page sequence: page `i` of
/// `pages` answers the `i`-th request. Returns the delivered events and how
/// many requests were issued.
///
/// For every limit and every available event count this returns exactly
/// `min(limit, available)` events, in their original order, cutting only the
/// tail; it stops at the first page without a continuation token — with no
/// limit it issues exactly one request per page — and never issues a request
/// that the limit has already made pointless.
pub fn run_bounded_fetch(
    group: String,
    start: Option<i64>,
    end: Option<i64>,
    pattern: Option<String>,
    limit: Option<usize>,
    pages: &Vec<PageResponse>,
) -> (r: (Vec<LogEvent>, usize))
    requires
        pages_wf(pages@),
    ensures
        ({
            let total = events_up_to(pages@, pages@.len() as int);
            &&& r.0@ == total.take(kept_count(limit, total.len()) as int)
            &&& r.1 <= pages@.len()
            &&& (limit is None ==> r.1 == pages@.len())
            &&& (limit is Some && r.1 > 0 ==> events_up_to(pages@, r.1 - 1).len()
                < limit->Some_0)
        }),
{
    let ghost total = events_up_to(pages@, pages@.len() as int);
    let mut fetcher = BoundedFetcher::new(group, start, end, pattern, limit);
    proof {
        if fetcher.done() {
            assert(fetcher.events() =~= total.take(kept_count(limit, total.len()) as int));
        } else {
            assert(fetcher.events() =~= events_up_to(pages@, 0));
        }
    }
    let n = pages.len();
    let mut i: usize = 0;
    loop
        invariant
            pages_wf(pages@),
            total == events_up_to(pages@, pages@.len() as int),
            n == pages@.len(),
            i <= n,
            fetcher.wf(),
            fetcher.limit() == limit,
            !fetcher.done() ==> fetcher.events() == events_up_to(pages@, i as int),
            !fetcher.done() ==> (i == 0 || pages@[i - 1].next_token is Some),
            fetcher.done() ==> fetcher.events() == total.take(
                kept_count(limit, total.len()) as int,
            ),
            limit is None && fetcher.done() ==> i == n,
            limit is Some && i > 0 ==> events_up_to(pages@, i - 1).len() < limit->Some_0,
        ensures
            fetcher.done(),
            limit is None ==> i == n,
        decreases n - i,
    {
        let req = fetcher.next_request();
        if req.is_none() {
            break ;
        }
        proof {
            if i > 0 {
                assert(pages@[i - 1].next_token is Some);
                assert(i - 1 < pages@.len() - 1);
            }
            assert(i < pages@.len());
        }
        let page = pages[i].duplicate();
        let ghost before = fetcher.events();
        fetcher.ingest(page);
        proof {
            let combined = before + pages@[i as int].events@;
            assert(combined =~= events_up_to(pages@, i + 1));
            if !fetcher.done() {
                assert(fetcher.events() =~= events_up_to(pages@, i + 1));
            }
            if fetcher.done() {
                lemma_events_up_to_prefix(pages@, i + 1, pages@.len() as int);
                if fetcher.exhausted() {
                    // The page without a token is the last one.
                    assert(pages@[i as int].next_token is None);
                    if (i as int) < pages@.len() - 1 {
                        assert(pages@[i as int].next_token is Some);
                    }
                    assert(i + 1 == pages@.len());
                    assert(combined =~= total);
                    assert(fetcher.events() =~= total.take(
                        kept_count(limit, total.len()) as int,
                    ));
                } else {
                    // The limit was reached: the kept prefix of what has been
                    // seen equals the kept prefix of everything available.
                    let l = limit->Some_0 as int;
                    assert(combined.len() >= l);
                    assert(fetcher.events() =~= combined.take(l));
                    assert(combined == total.take(combined.len() as int));
                    assert(total.len() >= combined.len());
                    assert(fetcher.events() =~= total.take(
                        kept_count(limit, total.len()) as int,
                    ));
                }
            }
        }
        i = i + 1;
    }
    (fetcher.into_events(), i)
}

} // verus!
