use crabby_changelog::tera_functions::{
    extract_pr, extract_pr_from_args, extract_repo, make_pr_list_md, make_pr_md_link, make_pr_url,
    md_pr_link, pr_list_md, pr_url, upper_first, PrArg, PrArgError, PrListArg, RepoArg,
};

#[test]
fn pr_url_exact() {
    assert_eq!(pr_url(42, "owner/repo"), "https://github.com/owner/repo/pull/42");
    assert_eq!(pr_url(0, "a/b"), "https://github.com/a/b/pull/0");
    assert_eq!(pr_url(u64::MAX, "a/b"), "https://github.com/a/b/pull/18446744073709551615");
}

#[test]
fn md_pr_link_exact() {
    assert_eq!(md_pr_link(7, "o/r"), "[#7](https://github.com/o/r/pull/7)");
}

#[test]
fn pr_list_md_exact() {
    assert_eq!(pr_list_md(&vec![], "o/r"), "");
    assert_eq!(pr_list_md(&vec![1], "o/r"), "([#1](https://github.com/o/r/pull/1))");
    assert_eq!(
        pr_list_md(&vec![1, 20], "o/r"),
        "([#1](https://github.com/o/r/pull/1), [#20](https://github.com/o/r/pull/20))"
    );
}

#[test]
fn extract_pr_forms() {
    assert_eq!(extract_pr(&PrArg::Number(5)), Ok(5));
    assert_eq!(extract_pr(&PrArg::Text("123".to_string())), Ok(123));
    assert_eq!(extract_pr(&PrArg::Text("#123".to_string())), Ok(123));
    assert_eq!(extract_pr(&PrArg::Text("+9".to_string())), Ok(9));
    assert_eq!(extract_pr(&PrArg::Text("#".to_string())), Err(PrArgError::InvalidPr));
    assert_eq!(extract_pr(&PrArg::Text("12a".to_string())), Err(PrArgError::InvalidPr));
    assert_eq!(extract_pr(&PrArg::Text("18446744073709551616".to_string())), Err(PrArgError::InvalidPr));
    assert_eq!(extract_pr(&PrArg::Text("18446744073709551615".to_string())), Ok(u64::MAX));
    assert_eq!(extract_pr(&PrArg::Other), Err(PrArgError::InvalidPr));
}

#[test]
fn missing_and_bad_arguments() {
    assert_eq!(extract_pr_from_args(&None), Err(PrArgError::MissingPr));
    assert_eq!(extract_repo(&Some(RepoArg::Other), "d/r"), Err(PrArgError::InvalidRepo));
    assert_eq!(extract_repo(&None, "d/r"), Ok("d/r".to_string()));
    assert_eq!(make_pr_url(&None, &Some(RepoArg::Other), "d/r"), Err(PrArgError::InvalidRepo));
    assert_eq!(make_pr_url(&None, &None, "d/r"), Err(PrArgError::MissingPr));
    assert_eq!(make_pr_list_md(&Some(PrListArg::Other), &None, "d/r"), Err(PrArgError::InvalidPrList));
    let bad = PrListArg::List(vec![PrArg::Number(1), PrArg::Other]);
    assert_eq!(make_pr_list_md(&Some(bad), &None, "d/r"), Err(PrArgError::InvalidPr));
    assert_eq!(PrArgError::MissingPr.message(), "required argument 'pr' is missing");
}

#[test]
fn helpers_with_arguments() {
    let repo = Some(RepoArg::Text("x/y".to_string()));
    assert_eq!(make_pr_url(&Some(PrArg::Text("#3".to_string())), &repo, "d/r"), Ok("https://github.com/x/y/pull/3".to_string()));
    assert_eq!(make_pr_md_link(&Some(PrArg::Number(4)), &None, "d/r"), Ok("[#4](https://github.com/d/r/pull/4)".to_string()));
    let list = PrListArg::List(vec![PrArg::Number(1), PrArg::Text("2".to_string())]);
    assert_eq!(
        make_pr_list_md(&Some(list), &None, "d/r"),
        Ok("([#1](https://github.com/d/r/pull/1), [#2](https://github.com/d/r/pull/2))".to_string())
    );
}

#[test]
fn upper_first_changes_the_first_character() {
    assert_eq!(upper_first("hello world"), "Hello world");
    assert_eq!(upper_first(""), "");
    assert_eq!(upper_first("ßa"), "SSa");
    assert_eq!(upper_first("éte"), "Éte");
}
