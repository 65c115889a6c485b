//! Pull requests as the hosting service reports them, and the walk over the
//! pages of a search.

use indexmap::IndexSet;
use vstd::prelude::*;

use crate::state::{name_items, name_set_get, name_set_len};
use crate::text::{chars_of, push_text, split_once, split_once_chars, string_of};

verus! {

/// The envelope of every answer: its `data` member.
#[derive(Clone, Debug)]
pub struct Query<T> {
    pub data: T,
}

/// The answer to a lookup of one pull request.
#[derive(Clone, Debug)]
pub struct RepoQueryData {
    pub repository: Repository,
}

#[derive(Clone, Debug)]
pub struct Repository {
    pub pull_request: PullRequest,
}

/// The answer to a search.
#[derive(Clone, Debug)]
pub struct SearchData<T> {
    pub search: T,
}

/// One page of a listing.
#[derive(Clone, Debug)]
pub struct Nodes<T> {
    pub nodes: Vec<T>,
    pub page_info: PageInfo,
}

/// A pull request, with what the changelog reads of it.
#[derive(Clone, Debug)]
pub struct PullRequest {
    pub number: u64,
    pub title: String,
    pub body: String,
    pub labels: Nodes<Label>,
    pub author: Author,
    /// When it was merged, in seconds since the Unix epoch; `None` while unmerged.
    pub merged_at: Option<i64>,
}

#[derive(Clone, Debug)]
pub struct Author {
    pub login: String,
}

/// Where a listing goes on.
#[derive(Clone, Debug)]
pub struct PageInfo {
    pub end_cursor: Option<String>,
    pub has_next_page: bool,
}

#[derive(Clone, Debug)]
pub struct Label {
    pub name: String,
}

/// Walking a listing sorted by update time, newest first, and keeping the
/// merged pull requests until the first one merged at or before `since`:
/// what has been kept, and whether the walk has stopped. Unmerged ones are
/// passed over.
pub open spec fn scan_since(items: Seq<PullRequest>, since: int) -> (Seq<PullRequest>, bool)
    decreases items.len(),
{
    if items.len() == 0 {
        (Seq::empty(), false)
    } else {
        let (kept, stopped) = scan_since(items.drop_last(), since);
        if stopped {
            (kept, true)
        } else {
            match items.last().merged_at {
                None => (kept, false),
                Some(t) => if t > since {
                    (kept.push(items.last()), false)
                } else {
                    (kept, true)
                },
            }
        }
    }
}

/// Once the walk has stopped, later items change nothing: a listing is not
/// scanned past the first pull request merged at or before the bound, even
/// where later pages hold newer ones again.
pub proof fn lemma_stop_is_final(items: Seq<PullRequest>, more: Seq<PullRequest>, since: int)
    requires
        scan_since(items, since).1,
    ensures
        scan_since(items + more, since) == scan_since(items, since),
    decreases more.len(),
{
    if more.len() == 0 {
        assert(items + more =~= items);
    } else {
        lemma_stop_is_final(items, more.drop_last(), since);
        assert((items + more).drop_last() =~= items + more.drop_last());
    }
}

/// Every pull request kept was merged after the bound, and they are kept in
/// listing order.
pub proof fn lemma_kept_after_bound(items: Seq<PullRequest>, since: int)
    ensures
        forall|i: int| 0 <= i < scan_since(items, since).0.len() ==>
            (#[trigger] scan_since(items, since).0[i]).merged_at is Some
            && scan_since(items, since).0[i].merged_at.unwrap() > since,
    decreases items.len(),
{
    if items.len() > 0 {
        lemma_kept_after_bound(items.drop_last(), since);
    }
}

/// What the walk asks for next.
#[derive(Clone, Debug)]
pub enum PageStep {
    /// Fetch the page after this cursor (the first page for `None`).
    Fetch(Option<String>),
    /// The walk is over.
    Done,
}

/// A walk over the pages of a search, newest first, that keeps the pull
/// requests merged after a bound.
pub struct PrPager {
    since: i64,
    kept: Vec<PullRequest>,
    stopped: bool,
    finished: bool,
    seen: Ghost<Seq<PullRequest>>,
}

impl PrPager {
    pub closed spec fn since(&self) -> int {
        self.since as int
    }

    /// The items of all the pages handed in so far, in order.
    pub closed spec fn seen(&self) -> Seq<PullRequest> {
        self.seen@
    }

    /// The pull requests kept so far.
    pub closed spec fn kept(&self) -> Seq<PullRequest> {
        self.kept@
    }

    /// Whether the walk has asked for its last page.
    pub closed spec fn finished(&self) -> bool {
        self.finished
    }

    pub closed spec fn wf(&self) -> bool {
        &&& (self.kept@, self.stopped) == scan_since(self.seen@, self.since as int)
        &&& self.stopped ==> self.finished
    }

    /// A walk that keeps what was merged after `since` (seconds since the epoch).
    pub fn new(since: i64) -> (r: Self)
        ensures
            r.wf(),
            r.since() == since,
            r.seen() == Seq::<PullRequest>::empty(),
            r.kept() == Seq::<PullRequest>::empty(),
            !r.finished(),
    {
        PrPager { since, kept: Vec::new(), stopped: false, finished: false, seen: Ghost(Seq::empty()) }
    }

    /// The first request: the first page.
    pub fn start(&self) -> (r: PageStep)
        ensures
            r == PageStep::Fetch(None),
    {
        PageStep::Fetch(None)
    }

    /// Takes in the next page and says what to fetch next: the page after
    /// its end cursor while the bound is not reached and the listing goes on.
    pub fn accept_page(&mut self, page: Nodes<PullRequest>) -> (r: PageStep)
        requires
            old(self).wf(),
            !old(self).finished(),
        ensures
            final(self).wf(),
            final(self).since() == old(self).since(),
            final(self).seen() == old(self).seen() + page.nodes@,
            final(self).kept() == scan_since(final(self).seen(), final(self).since()).0,
            final(self).finished() <==> (scan_since(final(self).seen(), final(self).since()).1 || !page.page_info.has_next_page),
            r is Done <==> final(self).finished(),
            !final(self).finished() ==> r == PageStep::Fetch(page.page_info.end_cursor),
    {
        let ghost start = self.seen@;
        let ghost all = page.nodes@;
        let has_next = page.page_info.has_next_page;
        let cursor = page.page_info.end_cursor;
        let mut nodes = page.nodes;
        while nodes.len() > 0
            invariant
                (self.kept@, self.stopped) == scan_since(self.seen@, self.since as int),
                start + all == self.seen@ + nodes@,
                self.since == old(self).since,
                !self.finished,
            decreases nodes.len(),
        {
            let ghost prev = self.seen@;
            let ghost rest = nodes@;
            let pr = nodes.remove(0);
            proof {
                assert(rest =~= seq![pr] + nodes@);
                assert(prev + rest =~= prev.push(pr) + nodes@);
            }
            self.seen = Ghost(self.seen@.push(pr));
            proof {
                assert(self.seen@.drop_last() =~= prev);
            }
            if !self.stopped {
                match pr.merged_at {
                    None => {},
                    Some(t) => {
                        if t > self.since {
                            self.kept.push(pr);
                        } else {
                            self.stopped = true;
                        }
                    },
                }
            }
        }
        proof {
            assert(self.seen@ + nodes@ =~= self.seen@);
        }
        if self.stopped || !has_next {
            self.finished = true;
            PageStep::Done
        } else {
            PageStep::Fetch(cursor)
        }
    }

    /// The pull requests kept, in listing order.
    pub fn into_kept(self) -> (r: Vec<PullRequest>)
        ensures
            r@ == self.kept(),
    {
        self.kept
    }
}

/// The bound below which a walk stops, in seconds since the epoch: the given
/// time, plus one second of margin where it is the commit time of a reference
/// (whose clock may lag the service's merge time), at most `i64::MAX`.
pub open spec fn since_bound_spec(timestamp: u64, from_ref: bool) -> int {
    let t = if from_ref { timestamp + 1 } else { timestamp as int };
    if t > i64::MAX { i64::MAX as int } else { t }
}

pub fn since_bound(timestamp: u64, from_ref: bool) -> (r: i64)
    ensures
        r == since_bound_spec(timestamp, from_ref),
{
    let limit: u64 = i64::MAX as u64;
    if timestamp >= limit {
        i64::MAX
    } else if from_ref {
        (timestamp + 1) as i64
    } else {
        timestamp as i64
    }
}

/// The owner and the name of a repository written `owner/name`.
pub fn split_repo(repo: &str) -> (r: Option<(String, String)>)
    ensures
        r is None <==> split_once(repo@, "/"@) is None,
        r matches Some((o, n)) ==> split_once(repo@, "/"@) == Some((o@, n@)),
{
    let cs = chars_of(repo);
    let slash = chars_of("/");
    match split_once_chars(&cs, &slash) {
        Some((o, n)) => {
            proof {
                assert(o@.subrange(0, o@.len() as int) =~= o@);
                assert(n@.subrange(0, n@.len() as int) =~= n@);
            }
            Some((string_of(&o, 0, o.len()), string_of(&n, 0, n.len())))
        },
        None => None,
    }
}

/// The text of a moment, in RFC 3339 with milliseconds and a `Z` suffix.
pub uninterp spec fn rfc3339_millis(secs: int) -> Seq<char>;

/// The seconds from 0000-01-01T00:00:00Z to 9999-12-31T23:59:59Z.
pub open spec fn in_date_range(secs: int) -> bool {
    -62167219200 <= secs <= 253402300799
}

/// Relies on chrono's `DateTime::<Utc>::from_timestamp` (`None` only for
/// seconds outside its range, which spans years far beyond 0000 to 9999) and
/// `to_rfc3339_opts` with `SecondsFormat::Millis` and `Z`: the text depends on
/// the seconds alone.
#[verifier::external_body]
fn format_rfc3339(secs: i64) -> (r: Option<String>)
    ensures
        r matches Some(s) ==> s@ == rfc3339_millis(secs as int),
        in_date_range(secs as int) ==> r is Some,
{
    match chrono::DateTime::<chrono::Utc>::from_timestamp(secs, 0) {
        Some(d) => Some(d.to_rfc3339_opts(chrono::SecondsFormat::Millis, true)),
        None => None,
    }
}

/// Which pull requests a search is limited to.
#[derive(Clone, Debug)]
pub enum PrFilter {
    /// Those still open.
    Open,
    /// Those merged from this moment (seconds since the epoch) until now.
    MergedSince(i64),
}

/// A search for pull requests of a repository.
#[derive(Debug)]
pub struct ListPrs {
    pub max_fetch: u32,
    pub repo: String,
    pub filter: Option<PrFilter>,
    pub ignored_authors: IndexSet<String>,
    pub ignored_labels: IndexSet<String>,
    pub descending: bool,
    pub head: Option<String>,
    pub base: String,
}

/// The moments of `filter` can be written as dates: those of a "merged
/// since" filter, and `now`, lie in the years 0000 to 9999.
pub open spec fn filter_writable(filter: Option<PrFilter>, now: int) -> bool {
    match filter {
        Some(PrFilter::MergedSince(t)) => in_date_range(t as int) && in_date_range(now),
        _ => true,
    }
}

/// Each item of `items` after `prefix`, all run together.
pub open spec fn prefixed_all(items: Seq<Seq<char>>, prefix: Seq<char>) -> Seq<char>
    decreases items.len(),
{
    if items.len() == 0 {
        Seq::empty()
    } else {
        prefixed_all(items.drop_last(), prefix) + prefix + items.last()
    }
}

/// The search text for `l` at the moment `now`.
pub open spec fn search_spec(l: ListPrs, now: int) -> Seq<char> {
    let sort = if l.descending { "desc"@ } else { "asc"@ };
    let head = match l.head {
        Some(h) => " head:"@ + h@,
        None => Seq::empty(),
    };
    let filter = match l.filter {
        Some(PrFilter::MergedSince(t)) => " merged:"@ + rfc3339_millis(t as int) + ".."@ + rfc3339_millis(now),
        Some(PrFilter::Open) => " is:open"@,
        None => Seq::empty(),
    };
    "repo:"@ + l.repo@ + " is:pr  base:"@ + l.base@ + " sort:updated-"@ + sort + head
        + prefixed_all(name_items(l.ignored_authors), " -author:"@)
        + prefixed_all(name_items(l.ignored_labels), " -label:"@)
        + filter
}

/// Appends each item of `items` after `prefix`.
fn push_prefixed(s: &mut String, items: &IndexSet<String>, prefix: &str)
    ensures
        final(s)@ == old(s)@ + prefixed_all(name_items(*items), prefix@),
{
    let n = name_set_len(items);
    let ghost all = name_items(*items);
    let ghost start = s@;
    let mut i: usize = 0;
    proof {
        assert(start + prefixed_all(all.subrange(0, 0), prefix@) =~= start);
    }
    while i < n
        invariant
            n == all.len(),
            all == name_items(*items),
            i <= n,
            s@ == start + prefixed_all(all.subrange(0, i as int), prefix@),
        decreases n - i,
    {
        proof {
            assert(all.subrange(0, i as int + 1).drop_last() =~= all.subrange(0, i as int));
        }
        push_text(s, prefix);
        match name_set_get(items, i) {
            Some(item) => push_text(s, item.as_str()),
            None => {},
        }
        i = i + 1;
        proof {
            assert(s@ =~= start + prefixed_all(all.subrange(0, i as int), prefix@));
        }
    }
    proof {
        assert(all.subrange(0, n as int) =~= all);
    }
}

impl ListPrs {
    /// The search text at the moment `now` (seconds since the epoch): the
    /// repository, base branch and sort order, the head branch if any, the
    /// authors and labels left out, and the filter. `None` only where a
    /// moment of the filter cannot be written as a date.
    pub fn search_string(&self, now: i64) -> (r: Option<String>)
        ensures
            r matches Some(s) ==> s@ == search_spec(*self, now as int),
            filter_writable(self.filter, now as int) ==> r is Some,
    {
        let mut s = String::new();
        push_text(&mut s, "repo:");
        push_text(&mut s, self.repo.as_str());
        push_text(&mut s, " is:pr  base:");
        push_text(&mut s, self.base.as_str());
        push_text(&mut s, " sort:updated-");
        if self.descending {
            push_text(&mut s, "desc");
        } else {
            push_text(&mut s, "asc");
        }
        match &self.head {
            Some(h) => {
                push_text(&mut s, " head:");
                push_text(&mut s, h.as_str());
            },
            None => {},
        }
        let ghost before_lists = s@;
        push_prefixed(&mut s, &self.ignored_authors, " -author:");
        push_prefixed(&mut s, &self.ignored_labels, " -label:");
        let ghost before_filter = s@;
        match &self.filter {
            Some(PrFilter::MergedSince(t)) => {
                let from = format_rfc3339(*t)?;
                let to = format_rfc3339(now)?;
                push_text(&mut s, " merged:");
                push_text(&mut s, from.as_str());
                push_text(&mut s, "..");
                push_text(&mut s, to.as_str());
            },
            Some(PrFilter::Open) => push_text(&mut s, " is:open"),
            None => {},
        }
        proof {
            reveal_strlit("repo:");
            reveal_strlit(" is:pr  base:");
            reveal_strlit(" sort:updated-");
            reveal_strlit("desc");
            reveal_strlit("asc");
            reveal_strlit(" head:");
            reveal_strlit(" merged:");
            reveal_strlit("..");
            reveal_strlit(" is:open");
            assert(s@ =~= search_spec(*self, now as int));
        }
        Some(s)
    }
}

} // verus!
