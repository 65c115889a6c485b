use crabby_changelog::changelog::changelog_changes;
use crabby_changelog::config::Config;
use indexmap::IndexSet;
use crabby_changelog::github_api::{Author, Label, Nodes, PageInfo, PullRequest};
use crabby_changelog::state::ReleaseStateImpl;

fn config(label_groups: &[(&str, &str)], default_group: Option<&str>) -> Config {
    Config {
        main_branch: "main".to_string(),
        changelog_branch: String::new(),
        repo: "o/r".to_string(),
        default_group: default_group.map(|g| g.to_string()),
        release_pr_label: None,
        label_groups: label_groups.iter().map(|(a, b)| (a.to_string(), b.to_string())).collect(),
        template: String::new(),
        groups: IndexSet::new(),
        ignored_labels: IndexSet::new(),
        ignored_authors: IndexSet::new(),
        ignored_title_prefix: IndexSet::new(),
    }
}

fn pull(number: u64, title: &str, body: &str, labels: &[&str]) -> PullRequest {
    PullRequest {
        number,
        title: title.to_string(),
        body: body.to_string(),
        labels: Nodes {
            nodes: labels.iter().map(|l| Label { name: l.to_string() }).collect(),
            page_info: PageInfo { end_cursor: None, has_next_page: false },
        },
        author: Author { login: "dev".to_string() },
        merged_at: None,
    }
}

fn pairs(pr: &PullRequest, cfg: &Config) -> Vec<(String, String)> {
    changelog_changes(pr, cfg).into_iter().map(|c| (c.message, c.group)).collect()
}

fn p(m: &str, g: &str) -> (String, String) {
    (m.to_string(), g.to_string())
}

#[test]
fn title_goes_to_default_group() {
    let cfg = config(&[], Some("misc"));
    let pr = pull(1, "  Improve docs \t", "", &[]);
    assert_eq!(pairs(&pr, &cfg), vec![p("Improve docs", "misc")]);
}

#[test]
fn no_default_group_no_line() {
    let cfg = config(&[], None);
    let pr = pull(1, "Improve docs", "", &[]);
    assert!(pairs(&pr, &cfg).is_empty());
}

#[test]
fn labels_file_title_under_their_groups() {
    let cfg = config(&[("bug", "fix"), ("enhancement", "feat")], Some("misc"));
    let pr = pull(2, "Do things", "", &["enhancement", "unrelated", "bug"]);
    assert_eq!(pairs(&pr, &cfg), vec![p("Do things", "feat"), p("Do things", "fix")]);
}

#[test]
fn tagged_line_maps_its_tag() {
    let cfg = config(&[("bugfix", "fix")], Some("misc"));
    let body = "Some text\r\n  changelog[bugfix]: repaired parser  \nmore";
    let pr = pull(3, "Title", body, &[]);
    assert_eq!(pairs(&pr, &cfg), vec![p(": repaired parser", "fix")]);
}

#[test]
fn unknown_tag_is_its_own_group() {
    let cfg = config(&[], Some("misc"));
    let pr = pull(4, "Title", "changelog[perf]: faster", &[]);
    assert_eq!(pairs(&pr, &cfg), vec![p(": faster", "perf")]);
}

#[test]
fn untagged_line_replaces_title_as_main_message() {
    let cfg = config(&[("bug", "fix")], Some("misc"));
    let pr = pull(5, "Title", "changelog: better message\n", &["bug"]);
    assert_eq!(pairs(&pr, &cfg), vec![p(": better message", "fix")]);
}

#[test]
fn declared_line_suppresses_default_group() {
    let cfg = config(&[], Some("misc"));
    let pr = pull(6, "Title", "changelog: message", &[]);
    assert!(pairs(&pr, &cfg).is_empty());
}

#[test]
fn line_without_colon_is_ignored() {
    let cfg = config(&[], Some("misc"));
    let pr = pull(7, "Title", "see changelog for details\nchangelog[x] no colon", &[]);
    assert_eq!(pairs(&pr, &cfg), vec![p("Title", "misc")]);
}

#[test]
fn changelog_entries_use_the_pull_request_number() {
    let cfg = config(&[("bug", "fix")], None);
    let pr = pull(12, "Crash", "", &["bug"]);
    let mut st = ReleaseStateImpl::new();
    pr.changelog_entries(&cfg, &mut st);
    let other = pull(13, "Crash", "", &["bug"]);
    other.changelog_entries(&cfg, &mut st);
    let es = st.entries();
    assert_eq!(es.len(), 1);
    assert_eq!(es[0].pr, vec![12, 13]);
    assert!(st.author_list().is_empty());
}
