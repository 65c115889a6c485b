//! The values behind the template helpers: links to pull requests, and the
//! reading of their arguments.

use vstd::prelude::*;

use crate::text::{chars_of, decimal, parse_u64, parse_u64_spec, push_decimal, push_text};

verus! {

/// The address of pull request `pr` of `repo`.
pub open spec fn pr_url_spec(pr: u64, repo: Seq<char>) -> Seq<char> {
    "https://github.com/"@ + repo + "/pull/"@ + decimal(pr as nat)
}

/// A Markdown link to pull request `pr` of `repo`, titled `#pr`.
pub open spec fn md_pr_link_spec(pr: u64, repo: Seq<char>) -> Seq<char> {
    "[#"@ + decimal(pr as nat) + "]("@ + pr_url_spec(pr, repo) + ")"@
}

/// The links to `prs`, separated by `", "`.
pub open spec fn joined_links(prs: Seq<u64>, repo: Seq<char>) -> Seq<char>
    decreases prs.len(),
{
    if prs.len() == 0 {
        Seq::empty()
    } else if prs.len() == 1 {
        md_pr_link_spec(prs[0], repo)
    } else {
        joined_links(prs.drop_last(), repo) + ", "@ + md_pr_link_spec(prs.last(), repo)
    }
}

/// The links to `prs` in parentheses, or nothing when there are none.
pub open spec fn pr_list_md_spec(prs: Seq<u64>, repo: Seq<char>) -> Seq<char> {
    if prs.len() == 0 {
        Seq::empty()
    } else {
        "("@ + joined_links(prs, repo) + ")"@
    }
}

/// The address of pull request `pr` of `repo`.
pub fn pr_url(pr: u64, repo: &str) -> (r: String)
    ensures
        r@ == pr_url_spec(pr, repo@),
{
    let mut s = String::new();
    push_text(&mut s, "https://github.com/");
    push_text(&mut s, repo);
    push_text(&mut s, "/pull/");
    push_decimal(&mut s, pr);
    proof {
        reveal_strlit("https://github.com/");
        reveal_strlit("/pull/");
        assert(s@ =~= pr_url_spec(pr, repo@));
    }
    s
}

/// A Markdown link to pull request `pr` of `repo`, titled `#pr`.
pub fn md_pr_link(pr: u64, repo: &str) -> (r: String)
    ensures
        r@ == md_pr_link_spec(pr, repo@),
{
    let mut s = String::new();
    push_text(&mut s, "[#");
    push_decimal(&mut s, pr);
    push_text(&mut s, "](");
    let url = pr_url(pr, repo);
    push_text(&mut s, url.as_str());
    push_text(&mut s, ")");
    proof {
        reveal_strlit("[#");
        reveal_strlit("](");
        reveal_strlit(")");
        assert(s@ =~= md_pr_link_spec(pr, repo@));
    }
    s
}

/// The links to `prs` in parentheses, separated by `", "`; empty when there
/// are none.
pub fn pr_list_md(prs: &Vec<u64>, repo: &str) -> (r: String)
    ensures
        r@ == pr_list_md_spec(prs@, repo@),
{
    let mut s = String::new();
    if prs.len() == 0 {
        return s;
    }
    push_text(&mut s, "(");
    let mut i: usize = 0;
    while i < prs.len()
        invariant
            i <= prs@.len(),
            prs@.len() > 0,
            s@ == "("@ + joined_links(prs@.subrange(0, i as int), repo@),
        decreases prs.len() - i,
    {
        let ghost pre = s@;
        let ghost sub = prs@.subrange(0, i as int + 1);
        proof {
            assert(sub.drop_last() =~= prs@.subrange(0, i as int));
        }
        if i > 0 {
            push_text(&mut s, ", ");
        }
        let link = md_pr_link(prs[i], repo);
        push_text(&mut s, link.as_str());
        proof {
            reveal_strlit(", ");
            if i == 0 {
                assert(joined_links(prs@.subrange(0, 0), repo@) =~= Seq::empty());
                assert(s@ =~= "("@ + joined_links(sub, repo@));
            } else {
                assert(s@ =~= "("@ + joined_links(sub, repo@));
            }
        }
        i = i + 1;
    }
    push_text(&mut s, ")");
    proof {
        assert(prs@.subrange(0, prs@.len() as int) =~= prs@);
    }
    s
}

/// A template argument that should name a pull request.
#[derive(Clone, Debug)]
pub enum PrArg {
    /// A non-negative integer.
    Number(u64),
    /// A string: digits, optionally after `#`.
    Text(String),
    /// A value of any other kind.
    Other,
}

/// A template argument that should name a repository.
#[derive(Clone, Debug)]
pub enum RepoArg {
    Text(String),
    Other,
}

/// A template argument that should list pull requests.
#[derive(Clone, Debug)]
pub enum PrListArg {
    List(Vec<PrArg>),
    Other,
}

/// Why a template helper refused its arguments.
#[derive(Clone, Copy, Debug, PartialEq, Eq, Structural)]
pub enum PrArgError {
    MissingPr,
    InvalidPr,
    InvalidPrList,
    InvalidRepo,
}

/// The message shown for each error.
pub open spec fn error_text(e: PrArgError) -> Seq<char> {
    match e {
        PrArgError::MissingPr => "required argument 'pr' is missing"@,
        PrArgError::InvalidPr => "argument 'pr' must be a number (optionally prefixed with #)"@,
        PrArgError::InvalidPrList => "argument 'pr' must be a a list of numbers (optionally prefixed with #)"@,
        PrArgError::InvalidRepo => "argument 'repo' must be a string"@,
    }
}

impl PrArgError {
    /// The message shown for this error.
    pub fn message(&self) -> (r: &'static str)
        ensures
            r@ == error_text(*self),
    {
        match self {
            PrArgError::MissingPr => "required argument 'pr' is missing",
            PrArgError::InvalidPr => "argument 'pr' must be a number (optionally prefixed with #)",
            PrArgError::InvalidPrList => "argument 'pr' must be a a list of numbers (optionally prefixed with #)",
            PrArgError::InvalidRepo => "argument 'repo' must be a string",
        }
    }
}

/// The pull request that an argument names: a number, or a string of digits
/// with or without a leading `#`.
pub open spec fn pr_of(arg: PrArg) -> Option<u64> {
    match arg {
        PrArg::Number(n) => Some(n),
        PrArg::Text(t) => match parse_u64_spec(t@) {
            Some(n) => Some(n),
            None => if t@.len() > 0 && t@[0] == '#' {
                parse_u64_spec(t@.drop_first())
            } else {
                None
            },
        },
        PrArg::Other => None,
    }
}

/// Reads the pull request that `val` names.
pub fn extract_pr(val: &PrArg) -> (r: Result<u64, PrArgError>)
    ensures
        pr_of(*val) matches Some(n) ==> r == Ok::<u64, PrArgError>(n),
        pr_of(*val) is None ==> r == Err::<u64, PrArgError>(PrArgError::InvalidPr),
{
    match val {
        PrArg::Number(n) => Ok(*n),
        PrArg::Text(t) => {
            let cs = chars_of(t.as_str());
            proof {
                assert(cs@.subrange(0, cs@.len() as int) =~= cs@);
            }
            match parse_u64(&cs, 0) {
                Some(n) => Ok(n),
                None => {
                    if cs.len() > 0 && cs[0] == '#' {
                        proof {
                            assert(cs@.subrange(1, cs@.len() as int) =~= cs@.drop_first());
                        }
                        match parse_u64(&cs, 1) {
                            Some(n) => Ok(n),
                            None => Err(PrArgError::InvalidPr),
                        }
                    } else {
                        Err(PrArgError::InvalidPr)
                    }
                },
            }
        },
        PrArg::Other => Err(PrArgError::InvalidPr),
    }
}

/// Reads the `pr` argument, which must be present.
pub fn extract_pr_from_args(pr: &Option<PrArg>) -> (r: Result<u64, PrArgError>)
    ensures
        r == pr_arg_result(*pr),
{
    match pr {
        Some(a) => extract_pr(a),
        None => Err(PrArgError::MissingPr),
    }
}

/// The repository that the `repo` argument names, or `default` without one.
pub open spec fn repo_of(repo: Option<RepoArg>, default: Seq<char>) -> Option<Seq<char>> {
    match repo {
        Some(RepoArg::Text(t)) => Some(t@),
        Some(RepoArg::Other) => None,
        None => Some(default),
    }
}

/// Reads the `repo` argument, falling back on `default`.
pub fn extract_repo(repo: &Option<RepoArg>, default: &str) -> (r: Result<String, PrArgError>)
    ensures
        repo_of(*repo, default@) matches Some(s) ==> (r matches Ok(t) && t@ == s),
        repo_of(*repo, default@) is None ==> r == Err::<String, PrArgError>(PrArgError::InvalidRepo),
{
    match repo {
        Some(RepoArg::Text(t)) => Ok(t.clone()),
        Some(RepoArg::Other) => Err(PrArgError::InvalidRepo),
        None => Ok(default.to_owned()),
    }
}

/// A result with its text as plain characters.
pub open spec fn string_result(r: Result<String, PrArgError>) -> Result<Seq<char>, PrArgError> {
    match r {
        Ok(s) => Ok(s@),
        Err(e) => Err(e),
    }
}

/// The pull request that the `pr` argument names, or why it names none.
pub open spec fn pr_arg_result(pr: Option<PrArg>) -> Result<u64, PrArgError> {
    match pr {
        None => Err(PrArgError::MissingPr),
        Some(a) => match pr_of(a) {
            Some(n) => Ok(n),
            None => Err(PrArgError::InvalidPr),
        },
    }
}

/// What the link helpers give: the address, or with `markdown` a Markdown
/// link; the repository is read before the pull request.
pub open spec fn link_result(pr: Option<PrArg>, repo: Option<RepoArg>, default: Seq<char>, markdown: bool) -> Result<Seq<char>, PrArgError> {
    match repo_of(repo, default) {
        None => Err(PrArgError::InvalidRepo),
        Some(rp) => match pr_arg_result(pr) {
            Err(e) => Err(e),
            Ok(n) => Ok(if markdown { md_pr_link_spec(n, rp) } else { pr_url_spec(n, rp) }),
        },
    }
}

/// What the list helper gives; the repository is read before the list.
pub open spec fn list_result(prs: Option<PrListArg>, repo: Option<RepoArg>, default: Seq<char>) -> Result<Seq<char>, PrArgError> {
    match repo_of(repo, default) {
        None => Err(PrArgError::InvalidRepo),
        Some(rp) => match prs {
            None => Err(PrArgError::MissingPr),
            Some(PrListArg::Other) => Err(PrArgError::InvalidPrList),
            Some(PrListArg::List(v)) => match prs_of(v@) {
                None => Err(PrArgError::InvalidPr),
                Some(ns) => Ok(pr_list_md_spec(ns, rp)),
            },
        },
    }
}

/// What the `pr_url` helper gives: the repository is read first, then the
/// pull request.
pub fn make_pr_url(pr: &Option<PrArg>, repo: &Option<RepoArg>, default_repo: &str) -> (r: Result<String, PrArgError>)
    ensures
        string_result(r) == link_result(*pr, *repo, default_repo@, false),
{
    let repo = extract_repo(repo, default_repo)?;
    let pr = extract_pr_from_args(pr)?;
    Ok(pr_url(pr, repo.as_str()))
}

/// What the `pr_md_link` helper gives: the repository is read first, then
/// the pull request.
pub fn make_pr_md_link(pr: &Option<PrArg>, repo: &Option<RepoArg>, default_repo: &str) -> (r: Result<String, PrArgError>)
    ensures
        string_result(r) == link_result(*pr, *repo, default_repo@, true),
{
    let repo = extract_repo(repo, default_repo)?;
    let pr = extract_pr_from_args(pr)?;
    Ok(md_pr_link(pr, repo.as_str()))
}

/// The pull requests that all of `args` name, if each names one.
pub open spec fn prs_of(args: Seq<PrArg>) -> Option<Seq<u64>>
    decreases args.len(),
{
    if args.len() == 0 {
        Some(Seq::empty())
    } else {
        match (prs_of(args.drop_last()), pr_of(args.last())) {
            (Some(s), Some(n)) => Some(s.push(n)),
            _ => None,
        }
    }
}

/// What the `pr_list_md` helper gives: the repository is read first, then
/// each pull request of the list.
pub fn make_pr_list_md(prs: &Option<PrListArg>, repo: &Option<RepoArg>, default_repo: &str) -> (r: Result<String, PrArgError>)
    ensures
        string_result(r) == list_result(*prs, *repo, default_repo@),
{
    let rp = extract_repo(repo, default_repo)?;
    let args = match prs {
        Some(PrListArg::List(v)) => v,
        Some(PrListArg::Other) => return Err(PrArgError::InvalidPrList),
        None => return Err(PrArgError::MissingPr),
    };
    let mut numbers: Vec<u64> = Vec::new();
    let mut i: usize = 0;
    while i < args.len()
        invariant
            i <= args@.len(),
            *prs == Some(PrListArg::List(*args)),
            repo_of(*repo, default_repo@) == Some(rp@),
            prs_of(args@.subrange(0, i as int)) == Some(numbers@),
        decreases args.len() - i,
    {
        proof {
            assert(args@.subrange(0, i as int + 1).drop_last() =~= args@.subrange(0, i as int));
        }
        let n = match extract_pr(&args[i]) {
            Ok(n) => n,
            Err(_) => {
                proof {
                    let sub = args@.subrange(0, i as int + 1);
                    assert(sub.last() == args@[i as int]);
                    assert(prs_of(sub) is None);
                    lemma_prs_of_extends(args@, i as int + 1);
                }
                return Err(PrArgError::InvalidPr);
            },
        };
        numbers.push(n);
        i = i + 1;
    }
    proof {
        assert(args@.subrange(0, args@.len() as int) =~= args@);
    }
    Ok(pr_list_md(&numbers, rp.as_str()))
}

/// A prefix that names no list of pull requests makes the whole fail.
proof fn lemma_prs_of_extends(args: Seq<PrArg>, n: int)
    requires
        0 <= n <= args.len(),
        prs_of(args.subrange(0, n)) is None,
    ensures
        prs_of(args) is None,
    decreases args.len() - n,
{
    if n < args.len() {
        assert(args.subrange(0, n + 1).drop_last() =~= args.subrange(0, n));
        lemma_prs_of_extends(args, n + 1);
    } else {
        assert(args.subrange(0, n) =~= args);
    }
}

/// The upper-case form of a character (one or more characters).
pub uninterp spec fn upper_of(c: char) -> Seq<char>;

/// Relies on `char::to_uppercase`, collected: the result depends on the
/// character alone.
#[verifier::external_body]
fn char_to_upper(c: char) -> (r: String)
    ensures
        r@ == upper_of(c),
{
    c.to_uppercase().collect()
}

/// `s` with its first character replaced by `first`; empty for an empty `s`.
pub open spec fn upper_first_spec(first: Seq<char>, s: Seq<char>) -> Seq<char> {
    if s.len() == 0 {
        Seq::empty()
    } else {
        first + s.drop_first()
    }
}

/// `s` with its first character replaced by `first`, the form it takes in
/// upper case; empty for an empty `s`.
pub fn replace_first(first: &str, s: &Vec<char>) -> (r: String)
    ensures
        r@ == upper_first_spec(first@, s@),
{
    if s.len() == 0 {
        return String::new();
    }
    let mut r = String::new();
    push_text(&mut r, first);
    let mut i: usize = 1;
    while i < s.len()
        invariant
            1 <= i <= s@.len(),
            r@ == first@ + s@.subrange(1, i as int),
        decreases s.len() - i,
    {
        crate::text::push_char(&mut r, s[i]);
        i = i + 1;
        assert(r@ =~= first@ + s@.subrange(1, i as int));
    }
    assert(s@.subrange(1, s@.len() as int) =~= s@.drop_first());
    r
}

/// `value` with its first character in upper case.
pub fn upper_first(value: &str) -> (r: String)
    ensures
        value@.len() == 0 ==> r@.len() == 0,
        value@.len() > 0 ==> r@ == upper_of(value@[0]) + value@.drop_first(),
{
    let cs = chars_of(value);
    if cs.len() == 0 {
        return String::new();
    }
    let first = char_to_upper(cs[0]);
    replace_first(first.as_str(), &cs)
}

} // verus!
