//! Which changelog lines a pull request contributes, read from its body,
//! title and labels, and how they enter the release state.

use vstd::prelude::*;

use crate::config::{lookup_group, Config};
use crate::github_api::{Label, PullRequest};
use crate::one_or_many::set_insert;
use crate::state::{entries_wf, insert_all, lemma_insert_all_twice, Change, EntryView, ReleaseStateImpl};
use crate::text::{
    chars_of, chars_view, lines, slice_chars, split_lines, split_once, split_once_chars, string_of, trim,
    trim_chars,
};

verus! {

/// A changelog line as plain values: (message, group).
pub type Pair = (Seq<char>, Seq<char>);

/// The group a `[tag]` stands for: the group its name maps to, else the tag itself.
pub open spec fn tag_group(pairs: Seq<(String, String)>, tag: Seq<char>) -> Seq<char> {
    match lookup_group(pairs, tag) {
        Some(g) => g,
        None => tag,
    }
}

/// After the word `changelog`: an optional `[tag]`, and what follows it.
pub open spec fn tag_split(rem: Seq<char>, pairs: Seq<(String, String)>) -> (Option<Seq<char>>, Seq<char>) {
    if rem.len() > 0 && rem[0] == '[' {
        match split_once(rem.drop_first(), "]"@) {
            Some((g, r)) => (Some(tag_group(pairs, g)), r),
            None => (None, rem),
        }
    } else {
        (None, rem)
    }
}

/// What one line of a body declares: a line holding `changelog`, then an
/// optional `[tag]`, then a colon, gives the tag's group (if any) and the
/// message, which runs from the colon to the end of the trimmed line.
pub open spec fn line_entry(line: Seq<char>, pairs: Seq<(String, String)>) -> Option<(Option<Seq<char>>, Seq<char>)> {
    match split_once(trim(line), "changelog"@) {
        None => None,
        Some((_, rem)) => {
            let (group, rest) = tag_split(rem, pairs);
            if rest.len() > 0 && rest[0] == ':' {
                Some((group, rest))
            } else {
                None
            }
        },
    }
}

/// Scanning the lines of a body: the tagged lines found, the last untagged
/// message, and whether any line declared a change.
pub open spec fn body_scan(ls: Seq<Seq<char>>, pairs: Seq<(String, String)>) -> (Seq<Pair>, Option<Seq<char>>, bool)
    decreases ls.len(),
{
    if ls.len() == 0 {
        (Seq::empty(), None, false)
    } else {
        let (out, main, tagged) = body_scan(ls.drop_last(), pairs);
        match line_entry(ls.last(), pairs) {
            None => (out, main, tagged),
            Some((Some(g), m)) => (out.push((m, g)), main, true),
            Some((None, m)) => (out, Some(m), true),
        }
    }
}

/// The main message filed under the group of each label that maps to one,
/// in label order.
pub open spec fn label_entries(labels: Seq<Label>, pairs: Seq<(String, String)>, main: Seq<char>) -> Seq<Pair>
    decreases labels.len(),
{
    if labels.len() == 0 {
        Seq::empty()
    } else {
        let prev = label_entries(labels.drop_last(), pairs, main);
        match lookup_group(pairs, labels.last().name@) {
            Some(g) => prev.push((main, g)),
            None => prev,
        }
    }
}

/// The changelog lines of `pr`, in the order they are added: the tagged
/// lines of its body; then its main message (the last untagged line of the
/// body, else its trimmed title) under each label group; and, where the body
/// declared nothing and no label matched, under the default group.
pub open spec fn classify(pr: PullRequest, config: Config) -> Seq<Pair> {
    let pairs = config.label_groups@;
    let (out, main0, tagged) = body_scan(lines(pr.body@), pairs);
    let main = match main0 {
        Some(m) => m,
        None => trim(pr.title@),
    };
    let ls = label_entries(pr.labels.nodes@, pairs, main);
    if !tagged && ls.len() == 0 && config.default_group is Some {
        (out + ls).push((main, config.default_group.unwrap()@))
    } else {
        out + ls
    }
}

pub open spec fn changes_view(v: Seq<Change>) -> Seq<Pair> {
    v.map_values(|c: Change| c@)
}

/// Each line paired with the pull request `n`.
pub open spec fn with_pr(ps: Seq<Pair>, n: u64) -> Seq<((Seq<char>, Seq<char>), u64)> {
    ps.map_values(|p: Pair| (p, n))
}

pub open spec fn line_entry_view(r: Option<(Option<String>, Vec<char>)>) -> Option<(Option<Seq<char>>, Seq<char>)> {
    match r {
        None => None,
        Some((None, m)) => Some((None, m@)),
        Some((Some(g), m)) => Some((Some(g@), m@)),
    }
}

/// What the line `line` declares, if anything.
pub fn changelog_line(line: &Vec<char>, config: &Config) -> (r: Option<(Option<String>, Vec<char>)>)
    ensures
        line_entry_view(r) == line_entry(line@, config.label_groups@),
{
    let t = trim_chars(line);
    let word = chars_of("changelog");
    let rem = match split_once_chars(&t, &word) {
        Some((_, rem)) => rem,
        None => return None,
    };
    let mut group: Option<String> = None;
    let mut rest = rem;
    let ghost rem_v = rest@;
    if rest.len() > 0 && rest[0] == '[' {
        let inner = slice_chars(&rest, 1, rest.len());
        let close = chars_of("]");
        proof {
            assert(inner@ =~= rem_v.drop_first());
        }
        match split_once_chars(&inner, &close) {
            Some((g, r)) => {
                let tag = string_of(&g, 0, g.len());
                proof {
                    assert(g@.subrange(0, g@.len() as int) =~= g@);
                }
                group = match config.label_group(&tag) {
                    Some(mapped) => Some(mapped),
                    None => Some(tag),
                };
                rest = r;
            },
            None => {},
        }
    }
    proof {
        reveal_strlit("]");
        let (sg, sr) = tag_split(rem_v, config.label_groups@);
        assert(sr == rest@);
        assert(sg is None <==> group is None);
        assert(group matches Some(g) ==> sg == Some(g@));
    }
    if rest.len() > 0 && rest[0] == ':' {
        Some((group, rest))
    } else {
        None
    }
}

/// The changelog lines of `pr`, in the order they are added to the state.
pub fn changelog_changes(pr: &PullRequest, config: &Config) -> (r: Vec<Change>)
    ensures
        changes_view(r@) == classify(*pr, *config),
{
    let pairs = Ghost(config.label_groups@);
    let body = chars_of(pr.body.as_str());
    let ls = split_lines(&body);
    let mut out: Vec<Change> = Vec::new();
    let mut main: Option<Vec<char>> = None;
    let mut tagged = false;
    let mut i: usize = 0;
    while i < ls.len()
        invariant
            pairs@ == config.label_groups@,
            chars_view(ls@) == lines(pr.body@),
            i <= ls@.len(),
            ({
                let (o, m, t) = body_scan(chars_view(ls@).subrange(0, i as int), pairs@);
                &&& changes_view(out@) == o
                &&& (m is None <==> main is None)
                &&& (main matches Some(mm) ==> m == Some(mm@))
                &&& t == tagged
            }),
        decreases ls.len() - i,
    {
        proof {
            let sub = chars_view(ls@).subrange(0, i as int + 1);
            assert(sub.drop_last() =~= chars_view(ls@).subrange(0, i as int));
            assert(sub.last() == ls@[i as int]@);
        }
        let ghost old_out = out@;
        match changelog_line(&ls[i], config) {
            None => {},
            Some((Some(g), m)) => {
                let message = string_of(&m, 0, m.len());
                proof {
                    assert(m@.subrange(0, m@.len() as int) =~= m@);
                }
                out.push(Change { message, group: g });
                tagged = true;
                proof {
                    assert(changes_view(out@) =~= changes_view(old_out).push((m@, g@)));
                }
            },
            Some((None, m)) => {
                main = Some(m);
                tagged = true;
            },
        }
        i = i + 1;
    }
    proof {
        assert(chars_view(ls@).subrange(0, ls@.len() as int) =~= chars_view(ls@));
    }
    let main_msg: String = match main {
        Some(m) => {
            proof {
                assert(m@.subrange(0, m@.len() as int) =~= m@);
            }
            string_of(&m, 0, m.len())
        },
        None => {
            let title = chars_of(pr.title.as_str());
            let t = trim_chars(&title);
            proof {
                assert(t@.subrange(0, t@.len() as int) =~= t@);
            }
            string_of(&t, 0, t.len())
        },
    };
    let ghost body_out = changes_view(out@);
    let labels = &pr.labels.nodes;
    let mut matched = false;
    let mut j: usize = 0;
    while j < labels.len()
        invariant
            pairs@ == config.label_groups@,
            j <= labels@.len(),
            *labels == pr.labels.nodes,
            changes_view(out@) == body_out + label_entries(labels@.subrange(0, j as int), pairs@, main_msg@),
            matched == (label_entries(labels@.subrange(0, j as int), pairs@, main_msg@).len() > 0),
        decreases labels.len() - j,
    {
        proof {
            let sub = labels@.subrange(0, j as int + 1);
            assert(sub.drop_last() =~= labels@.subrange(0, j as int));
        }
        let ghost old_out = out@;
        match config.label_group(&labels[j].name) {
            Some(g) => {
                matched = true;
                out.push(Change { message: main_msg.clone(), group: g });
                proof {
                    assert(changes_view(out@) =~= changes_view(old_out).push((main_msg@, g@)));
                }
            },
            None => {},
        }
        j = j + 1;
    }
    proof {
        assert(labels@.subrange(0, labels@.len() as int) =~= labels@);
    }
    if !tagged && !matched {
        match &config.default_group {
            Some(g) => {
                let ghost old_out = out@;
                out.push(Change { message: main_msg, group: g.clone() });
                proof {
                    assert(changes_view(out@) =~= changes_view(old_out).push((main_msg@, g@)));
                }
            },
            None => {},
        }
    }
    out
}

impl PullRequest {
    /// Adds the changelog lines of this pull request to `dst`, each with this
    /// pull request's number.
    pub fn changelog_entries(&self, config: &Config, dst: &mut ReleaseStateImpl)
        requires
            old(dst).wf(),
        ensures
            final(dst).wf(),
            final(dst).changes_view() == insert_all(old(dst).changes_view(), with_pr(classify(*self, *config), self.number)),
            final(dst).authors_view() == old(dst).authors_view(),
    {
        let changes = changelog_changes(self, config);
        let ghost start = dst.changes_view();
        let ghost ops = with_pr(changes_view(changes@), self.number);
        let mut i: usize = 0;
        while i < changes.len()
            invariant
                i <= changes@.len(),
                ops == with_pr(changes_view(changes@), self.number),
                dst.wf(),
                dst.changes_view() == insert_all(start, ops.subrange(0, i as int)),
                dst.authors_view() == old(dst).authors_view(),
            decreases changes.len() - i,
        {
            proof {
                assert(ops.subrange(0, i as int + 1).drop_last() =~= ops.subrange(0, i as int));
            }
            let c = Change { message: changes[i].message.clone(), group: changes[i].group.clone() };
            dst.insert_pr_change(c, self.number);
            i = i + 1;
        }
        proof {
            assert(ops.subrange(0, changes@.len() as int) =~= ops);
        }
    }
}

impl ReleaseStateImpl {
    /// Takes in one processed pull request: its changelog lines, and its
    /// author, who is recorded even when it has no lines.
    pub fn add_pr_changes(&mut self, pr: &PullRequest, config: &Config)
        requires
            old(self).wf(),
        ensures
            final(self).wf(),
            final(self).changes_view() == insert_all(old(self).changes_view(), with_pr(classify(*pr, *config), pr.number)),
            final(self).authors_view() == set_insert(old(self).authors_view(), pr.author.login@),
    {
        pr.changelog_entries(config, self);
        self.record_author(pr.author.login.clone());
    }
}

/// Processing the same pull request twice leaves the state as processing it
/// once: the same lines, in the same order, with the same numbers, and its
/// author recorded once.
pub proof fn lemma_process_twice(es: Seq<EntryView>, authors: Seq<Seq<char>>, pr: PullRequest, config: Config)
    requires
        entries_wf(es),
        authors.no_duplicates(),
    ensures
        ({
            let ops = with_pr(classify(pr, config), pr.number);
            insert_all(insert_all(es, ops), ops) == insert_all(es, ops)
        }),
        set_insert(set_insert(authors, pr.author.login@), pr.author.login@) == set_insert(authors, pr.author.login@),
{
    lemma_insert_all_twice(es, with_pr(classify(pr, config), pr.number));
    crate::one_or_many::lemma_set_insert_idempotent(authors, pr.author.login@);
}

/// An author is recorded once however often their pull requests are
/// processed, and is recorded even for a pull request without lines.
pub proof fn lemma_author_recorded_once(authors: Seq<Seq<char>>, login: Seq<char>)
    requires
        authors.no_duplicates(),
    ensures
        set_insert(set_insert(authors, login), login) == set_insert(authors, login),
        set_insert(authors, login).contains(login),
        set_insert(authors, login).no_duplicates(),
{
    crate::one_or_many::lemma_set_insert_idempotent(authors, login);
    crate::one_or_many::lemma_set_insert_no_duplicates(authors, login);
}

} // verus!
