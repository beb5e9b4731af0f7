use vstd::prelude::*;

verus! {

/// One page-listing call for log group names: an optional name prefix plus
/// the continuation token that resumes the listing.
pub struct GroupRequest {
    pub prefix: Option<String>,
    pub continuation: Option<String>,
}

/// One page of group names handed back by the remote store.
pub struct GroupPage {
    pub names: Vec<String>,
    pub next_token: Option<String>,
}

/// The names of the first `k` pages, in page order.
pub open spec fn names_up_to(pages: Seq<GroupPage>, k: int) -> Seq<String>
    decreases k,
{
    if k <= 0 {
        Seq::empty()
    } else {
        names_up_to(pages, k - 1) + pages[k - 1].names@
    }
}

/// A group-listing page sequence as the remote store serves it: at least one
/// page, every page but the last carries a continuation token, and the last
/// does not.
pub open spec fn group_pages_wf(pages: Seq<GroupPage>) -> bool {
    &&& pages.len() > 0
    &&& forall|i: int| 0 <= i < pages.len() - 1 ==> pages[i].next_token is Some
    &&& pages[pages.len() - 1].next_token is None
}

/// Drives one enumeration of the available log groups: walks the cursor
/// until the store reports no further page, accumulating every name.
pub struct GroupLister {
    prefix: Option<String>,
    names: Vec<String>,
    token: Option<String>,
    done: bool,
}

impl GroupLister {
    pub closed spec fn prefix(&self) -> Option<String> {
        self.prefix
    }

    /// The names accumulated so far, in arrival order.
    pub closed spec fn names(&self) -> Seq<String> {
        self.names@
    }

    pub closed spec fn token(&self) -> Option<String> {
        self.token
    }

    /// Whether a page without a continuation token has been seen, which ends
    /// the listing.
    pub closed spec fn done(&self) -> bool {
        self.done
    }

    pub fn new(prefix: Option<String>) -> (r: Self)
        ensures
            r.prefix() == prefix,
            r.names() == Seq::<String>::empty(),
            r.token() is None,
            !r.done(),
    {
        let r = GroupLister { prefix, names: Vec::new(), token: None, done: false };
        proof {
            assert(r.names() =~= Seq::<String>::empty());
        }
        r
    }

    /// The request for the next page, or `None` when the listing is complete.
    pub fn next_request(&self) -> (r: Option<GroupRequest>)
        ensures
            r is Some <==> !self.done(),
            r is Some ==> r->Some_0.prefix == self.prefix() && r->Some_0.continuation
                == self.token(),
    {
        if self.done {
            None
        } else {
            Some(
                GroupRequest {
                    prefix: crate::events::clone_string_opt(&self.prefix),
                    continuation: crate::events::clone_string_opt(&self.token),
                },
            )
        }
    }

    /// Folds one returned page in: appends its names in response order and
    /// ends the listing when the page carries no continuation token.
    pub fn ingest(&mut self, page: GroupPage)
        requires
            !old(self).done(),
        ensures
            final(self).prefix() == old(self).prefix(),
            final(self).names() == old(self).names() + page.names@,
            final(self).token() == page.next_token,
            final(self).done() == (page.next_token is None),
    {
        let GroupPage { names: mut fresh, next_token } = page;
        self.done = next_token.is_none();
        self.token = next_token;
        self.names.append(&mut fresh);
    }

    /// Hands the accumulated names out, ending the enumeration.
    pub fn into_names(self) -> (r: Vec<String>)
        ensures
            r@ == self.names(),
    {
        self.names
    }
}

fn clone_names(names: &Vec<String>) -> (r: Vec<String>)
    ensures
        r@ == names@,
{
    let mut out: Vec<String> = Vec::new();
    let mut i: usize = 0;
    while i < names.len()
        invariant
            i <= names.len(),
            out@ == names@.take(i as int),
        decreases names.len() - i,
    {
        out.push(names[i].clone());
        proof {
            assert(out@ =~= names@.take(i + 1));
        }
        i = i + 1;
    }
    proof {
        assert(out@ =~= names@);
    }
    out
}

/// Runs a whole group enumeration against a given page sequence: page `i`
/// answers the `i`-th request. Returns every name the store holds, in
/// arrival order, and how many requests were issued: one per page, none
/// after the page without a continuation token.
pub fn run_group_listing(prefix: Option<String>, pages: &Vec<GroupPage>) -> (r: (Vec<String>, usize))
    requires
        group_pages_wf(pages@),
    ensures
        r.0@ == names_up_to(pages@, pages@.len() as int),
        r.1 == pages@.len(),
{
    let mut lister = GroupLister::new(prefix);
    let n = pages.len();
    let mut i: usize = 0;
    loop
        invariant
            group_pages_wf(pages@),
            n == pages@.len(),
            i <= n,
            lister.names() == names_up_to(pages@, i as int),
            !lister.done() ==> (i == 0 || pages@[i - 1].next_token is Some),
            lister.done() ==> i == n,
        ensures
            lister.done(),
            i == n,
        decreases n - i,
    {
        let req = lister.next_request();
        if req.is_none() {
            break ;
        }
        proof {
            if i > 0 {
                assert(pages@[i - 1].next_token is Some);
                assert(i - 1 < pages@.len() - 1);
            }
            assert(i < pages@.len());
        }
        let page = GroupPage {
            names: clone_names(&pages[i].names),
            next_token: crate::events::clone_string_opt(&pages[i].next_token),
        };
        lister.ingest(page);
        proof {
            assert(lister.names() =~= names_up_to(pages@, i + 1));
            if lister.done() {
                assert(pages@[i as int].next_token is None);
                if (i as int) < pages@.len() - 1 {
                    assert(pages@[i as int].next_token is Some);
                }
                assert(i + 1 == pages@.len());
            }
        }
        i = i + 1;
    }
    (lister.into_names(), i)
}

} // verus!
