use crabby_changelog::changelog::changelog_changes;
use crabby_changelog::config::Config;
use indexmap::IndexSet;
use crabby_changelog::github_api::{Author, Label, Nodes, PageInfo, PullRequest};
use crabby_changelog::map_to_list::{deserialize, load, save, serialize, FlatTuple};
use crabby_changelog::one_or_many::{OneOrMany, OneOrManyImpl, StateError};
use crabby_changelog::state::{Change, ReleaseState, ReleaseStateImpl};

fn change(message: &str, group: &str) -> Change {
    Change { message: message.to_string(), group: group.to_string() }
}

fn config(label_groups: &[(&str, &str)], default_group: Option<&str>) -> Config {
    Config {
        main_branch: "main".to_string(),
        changelog_branch: String::new(),
        repo: "o/r".to_string(),
        default_group: default_group.map(|g| g.to_string()),
        release_pr_label: None,
        label_groups: label_groups.iter().map(|(a, b)| (a.to_string(), b.to_string())).collect(),
        template: String::new(),
        groups: IndexSet::new(),
        ignored_labels: IndexSet::new(),
        ignored_authors: IndexSet::new(),
        ignored_title_prefix: IndexSet::new(),
    }
}

fn pull(number: u64, title: &str, body: &str, labels: &[&str], login: &str) -> PullRequest {
    PullRequest {
        number,
        title: title.to_string(),
        body: body.to_string(),
        labels: Nodes {
            nodes: labels.iter().map(|l| Label { name: l.to_string() }).collect(),
            page_info: PageInfo { end_cursor: None, has_next_page: false },
        },
        author: Author { login: login.to_string() },
        merged_at: None,
    }
}

fn record(message: Option<&str>, group: Option<&str>, pr: Option<OneOrManyImpl>) -> FlatTuple {
    FlatTuple { message: message.map(|m| m.to_string()), group: group.map(|g| g.to_string()), pr }
}

fn keys(st: &ReleaseState) -> Vec<(String, String)> {
    st.entries().into_iter().map(|e| (e.message, e.group)).collect()
}

#[test]
fn same_change_twice_merges_references() {
    let mut st = ReleaseStateImpl::new();
    st.insert_pr_change(change("Fix it", "fix"), 7);
    st.insert_pr_change(change("Fix it", "fix"), 3);
    st.insert_pr_change(change("Fix it", "fix"), 7);
    let es = st.entries();
    assert_eq!(es.len(), 1);
    assert_eq!(es[0].pr, vec![7, 3]);
}

#[test]
fn single_reference_is_a_bare_number_in_compact_mode() {
    let mut set = OneOrMany::new();
    set.insert(42);
    let w = set.to_serializable(true);
    assert!(matches!(w, OneOrManyImpl::One(42)));
    let back = OneOrMany::from_serializable(&w).ok().unwrap();
    assert_eq!(back.to_vec(), vec![42]);
    assert!(matches!(set.to_serializable(false), OneOrManyImpl::Many(ref v) if *v == vec![42]));
}

#[test]
fn several_references_are_an_array_and_a_scalar_still_loads() {
    let mut set = OneOrMany::new();
    set.insert(5);
    set.insert(9);
    let w = set.to_serializable(true);
    assert!(matches!(w, OneOrManyImpl::Many(ref v) if *v == vec![5, 9]));
    let back = OneOrMany::from_serializable(&w).ok().unwrap();
    assert_eq!(back.to_vec(), vec![5, 9]);
    let scalar = OneOrMany::from_serializable(&OneOrManyImpl::One(11)).ok().unwrap();
    assert_eq!(scalar.to_vec(), vec![11]);
}

#[test]
fn array_with_repeats_keeps_first_occurrences() {
    let set = OneOrMany::from_serializable(&OneOrManyImpl::Many(vec![3, 1, 3, 2, 1])).ok().unwrap();
    assert_eq!(set.to_vec(), vec![3, 1, 2]);
    assert!(set.contains(2));
    assert!(!set.contains(4));
}

#[test]
fn other_shape_is_a_malformed_reference() {
    let r = OneOrMany::from_serializable(&OneOrManyImpl::Other);
    assert_eq!(r.err(), Some(StateError::MalformedReference));
}

#[test]
fn keys_keep_first_seen_order() {
    let mut st = ReleaseStateImpl::new();
    st.insert_pr_change(change("a", "fix"), 1);
    st.insert_pr_change(change("b", "feat"), 2);
    st.insert_pr_change(change("a", "fix"), 3);
    st.insert_pr_change(change("c", "fix"), 4);
    assert_eq!(
        keys(&st),
        vec![
            ("a".to_string(), "fix".to_string()),
            ("b".to_string(), "feat".to_string()),
            ("c".to_string(), "fix".to_string())
        ]
    );
    let records = serialize(&st, true);
    let messages: Vec<String> = records.iter().map(|r| r.message.clone().unwrap()).collect();
    assert_eq!(messages, vec!["a", "b", "c"]);
    assert!(matches!(records[0].pr, Some(OneOrManyImpl::Many(ref v)) if *v == vec![1, 3]));
    assert!(matches!(records[1].pr, Some(OneOrManyImpl::One(2))));
}

#[test]
fn groups_differing_in_case_are_distinct() {
    let mut st = ReleaseStateImpl::new();
    st.insert_pr_change(change("a", "Fix"), 1);
    st.insert_pr_change(change("a", "fix"), 2);
    st.insert_pr_change(change("a", ""), 3);
    assert_eq!(st.len(), 3);
}

#[test]
fn render_view_sorts_by_configured_group_order() {
    let mut st = ReleaseStateImpl::new();
    st.insert_pr_change(change("one", "feat"), 1);
    st.insert_pr_change(change("two", "other"), 2);
    st.insert_pr_change(change("three", "fix"), 3);
    st.insert_pr_change(change("four", "feat"), 4);
    let order: IndexSet<String> = ["fix", "feat"].iter().map(|g| g.to_string()).collect();
    let view = st.render_view(&order);
    let got: Vec<(String, String)> = view.iter().map(|c| (c.message.clone(), c.group.clone())).collect();
    assert_eq!(
        got,
        vec![
            ("three".to_string(), "fix".to_string()),
            ("one".to_string(), "feat".to_string()),
            ("four".to_string(), "feat".to_string()),
            ("two".to_string(), "other".to_string())
        ]
    );
    assert_eq!(keys(&st)[0].0, "one");
    let ctx = st.to_tera_ctx();
    let in_order: Vec<String> = ctx.changes.iter().map(|c| c.message.clone()).collect();
    assert_eq!(in_order, vec!["one", "two", "three", "four"]);
    assert_eq!(ctx.changes[0].pr, vec![1]);
}

#[test]
fn unknown_groups_keep_insertion_order_last() {
    let mut st = ReleaseStateImpl::new();
    st.insert_pr_change(change("x", "zeta"), 1);
    st.insert_pr_change(change("y", "alpha"), 2);
    st.insert_pr_change(change("z", "fix"), 3);
    let view = st.render_view(&["fix".to_string()].into_iter().collect());
    let got: Vec<String> = view.iter().map(|c| c.message.clone()).collect();
    assert_eq!(got, vec!["z", "x", "y"]);
}

#[test]
fn author_recorded_once_even_without_lines() {
    let cfg = config(&[], None);
    let pr = pull(8, "Tidy up", "nothing to see", &[], "alice");
    assert!(changelog_changes(&pr, &cfg).is_empty());
    let mut st = ReleaseStateImpl::new();
    st.add_pr_changes(&pr, &cfg);
    assert_eq!(st.len(), 0);
    assert_eq!(st.author_list(), vec!["alice"]);
    st.add_pr_changes(&pr, &cfg);
    assert_eq!(st.author_list(), vec!["alice"]);
}

#[test]
fn record_missing_message_is_corrupt_state() {
    let records = vec![
        record(Some("ok"), Some("fix"), Some(OneOrManyImpl::One(1))),
        record(None, Some("fix"), Some(OneOrManyImpl::One(2))),
    ];
    assert_eq!(deserialize(&records).err(), Some(StateError::CorruptState));
    assert_eq!(load(&records, &vec!["a".to_string()]).err(), Some(StateError::CorruptState));
}

#[test]
fn record_missing_group_or_pr_is_corrupt_state() {
    let no_group = vec![record(Some("m"), None, Some(OneOrManyImpl::One(1)))];
    assert_eq!(deserialize(&no_group).err(), Some(StateError::CorruptState));
    let no_pr = vec![record(Some("m"), Some("g"), None)];
    assert_eq!(deserialize(&no_pr).err(), Some(StateError::CorruptState));
}

#[test]
fn malformed_reference_fails_the_load() {
    let records = vec![record(Some("m"), Some("g"), Some(OneOrManyImpl::Other))];
    assert_eq!(deserialize(&records).err(), Some(StateError::MalformedReference));
}

#[test]
fn later_record_with_same_key_wins_on_load() {
    let records = vec![
        record(Some("m"), Some("g"), Some(OneOrManyImpl::Many(vec![1, 2]))),
        record(Some("n"), Some("g"), Some(OneOrManyImpl::One(5))),
        record(Some("m"), Some("g"), Some(OneOrManyImpl::One(3))),
    ];
    let st = deserialize(&records).ok().unwrap();
    let es = st.entries();
    assert_eq!(es.len(), 2);
    assert_eq!(es[0].message, "m");
    assert_eq!(es[0].pr, vec![3]);
    assert_eq!(es[1].pr, vec![5]);
}

#[test]
fn save_then_load_gives_the_same_state() {
    let mut st = ReleaseStateImpl::new();
    st.insert_pr_change(change("a", "fix"), 1);
    st.insert_pr_change(change("b", "feat"), 2);
    st.insert_pr_change(change("b", "feat"), 4);
    st.record_author("bob".to_string());
    st.record_author("amy".to_string());
    st.record_author("bob".to_string());
    for compact in [true, false] {
        let (records, authors) = save(&st, compact);
        let back = load(&records, &authors).ok().unwrap();
        assert_eq!(keys(&back), keys(&st));
        assert_eq!(back.entries()[1].pr, vec![2, 4]);
        assert_eq!(back.author_list(), vec!["bob", "amy"]);
    }
}

#[test]
fn load_collapses_repeated_authors() {
    let authors = vec!["x".to_string(), "y".to_string(), "x".to_string()];
    let st = load(&Vec::new(), &authors).ok().unwrap();
    assert_eq!(st.author_list(), vec!["x", "y"]);
    assert_eq!(st.len(), 0);
}

#[test]
fn default_state_is_empty() {
    let st = ReleaseState::default();
    assert_eq!(st.len(), 0);
    assert!(st.author_list().is_empty());
    assert!(serialize(&st, true).is_empty());
}
