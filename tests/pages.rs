use crabby_changelog::cli::{AddPr, PrSelection};
use crabby_changelog::github_api::{
    since_bound, split_repo, Author, ListPrs, Nodes, PageInfo, PageStep, PrFilter, PrPager, PullRequest,
};

fn merged(number: u64, at: Option<i64>) -> PullRequest {
    PullRequest {
        number,
        title: String::new(),
        body: String::new(),
        labels: Nodes { nodes: Vec::new(), page_info: PageInfo { end_cursor: None, has_next_page: false } },
        author: Author { login: "a".to_string() },
        merged_at: at,
    }
}

fn page(items: Vec<PullRequest>, next: Option<&str>) -> Nodes<PullRequest> {
    Nodes {
        nodes: items,
        page_info: PageInfo { end_cursor: next.map(|c| c.to_string()), has_next_page: next.is_some() },
    }
}

fn numbers(v: Vec<PullRequest>) -> Vec<u64> {
    v.into_iter().map(|p| p.number).collect()
}

#[test]
fn walk_stops_at_first_item_at_or_before_bound() {
    let mut w = PrPager::new(100);
    assert!(matches!(w.start(), PageStep::Fetch(None)));
    let step = w.accept_page(page(vec![merged(1, Some(300)), merged(2, None), merged(3, Some(200))], Some("c1")));
    assert!(matches!(step, PageStep::Fetch(Some(ref c)) if c == "c1"));
    let step = w.accept_page(page(vec![merged(4, Some(101)), merged(5, Some(100)), merged(6, Some(500))], Some("c2")));
    assert!(matches!(step, PageStep::Done));
    assert_eq!(numbers(w.into_kept()), vec![1, 3, 4]);
}

#[test]
fn walk_ends_with_the_last_page() {
    let mut w = PrPager::new(0);
    let step = w.accept_page(page(vec![merged(9, Some(10))], None));
    assert!(matches!(step, PageStep::Done));
    assert_eq!(numbers(w.into_kept()), vec![9]);
}

#[test]
fn since_bound_adds_margin_for_references() {
    assert_eq!(since_bound(1000, false), 1000);
    assert_eq!(since_bound(1000, true), 1001);
    assert_eq!(since_bound(u64::MAX, true), i64::MAX);
}

#[test]
fn selection_prefers_reference_then_timestamp() {
    let a = AddPr { since_timestamp: Some(5), since_ref: Some("v1".to_string()), prs: vec![1] };
    assert!(matches!(a.selection(), PrSelection::SinceRef(ref g) if g == "v1"));
    let b = AddPr { since_timestamp: Some(5), since_ref: None, prs: vec![1] };
    assert!(matches!(b.selection(), PrSelection::SinceTimestamp(5)));
    let c = AddPr { since_timestamp: None, since_ref: None, prs: vec![1, 2] };
    assert!(matches!(c.selection(), PrSelection::Numbers(ref v) if *v == vec![1, 2]));
}

#[test]
fn split_repo_at_first_slash() {
    assert_eq!(split_repo("owner/name"), Some(("owner".to_string(), "name".to_string())));
    assert_eq!(split_repo("a/b/c"), Some(("a".to_string(), "b/c".to_string())));
    assert_eq!(split_repo("plain"), None);
}

#[test]
fn search_string_exact() {
    let l = ListPrs {
        max_fetch: 100,
        repo: "o/r".to_string(),
        filter: Some(PrFilter::MergedSince(0)),
        ignored_authors: ["bot".to_string()].into_iter().collect(),
        ignored_labels: ["skip".to_string(), "wip".to_string()].into_iter().collect(),
        descending: true,
        head: Some("dev".to_string()),
        base: "main".to_string(),
    };
    assert_eq!(
        l.search_string(86_401).unwrap(),
        "repo:o/r is:pr  base:main sort:updated-desc head:dev -author:bot -label:skip -label:wip merged:1970-01-01T00:00:00.000Z..1970-01-02T00:00:01.000Z"
    );
    let open = ListPrs { filter: Some(PrFilter::Open), descending: false, head: None, ignored_authors: Default::default(), ignored_labels: Default::default(), ..l };
    assert_eq!(open.search_string(0).unwrap(), "repo:o/r is:pr  base:main sort:updated-asc is:open");
}

#[test]
fn walk_does_not_rescan_after_the_bound() {
    let mut w = PrPager::new(300);
    let step = w.accept_page(page(vec![merged(1, Some(500)), merged(2, Some(400))], Some("p2")));
    assert!(matches!(step, PageStep::Fetch(Some(ref c)) if c == "p2"));
    let step = w.accept_page(page(vec![merged(3, Some(300)), merged(4, Some(450))], Some("p3")));
    assert!(matches!(step, PageStep::Done));
    assert_eq!(numbers(w.into_kept()), vec![1, 2]);
}

#[test]
fn search_string_at_the_ends_of_the_date_range() {
    let l = ListPrs {
        max_fetch: 10,
        repo: "o/r".to_string(),
        filter: Some(PrFilter::MergedSince(-62167219200)),
        ignored_authors: Default::default(),
        ignored_labels: Default::default(),
        descending: true,
        head: None,
        base: "main".to_string(),
    };
    assert_eq!(
        l.search_string(253402300799).unwrap(),
        "repo:o/r is:pr  base:main sort:updated-desc merged:0000-01-01T00:00:00.000Z..9999-12-31T23:59:59.000Z"
    );
}
