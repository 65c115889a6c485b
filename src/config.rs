//! The project's changelog configuration, as plain values.

use indexmap::IndexSet;
use vstd::prelude::*;

verus! {

/// How pull requests are found and filed, and how the changelog is rendered.
#[derive(Debug)]
pub struct Config {
    pub main_branch: String,
    pub changelog_branch: String,
    pub repo: String,
    /// The group of a pull request whose lines name none and whose labels map to none.
    pub default_group: Option<String>,
    pub release_pr_label: Option<String>,
    /// Pairs of (label or tag, group); the first pair for a name counts.
    pub label_groups: Vec<(String, String)>,
    pub template: String,
    /// The groups in the order in which they are rendered.
    pub groups: IndexSet<String>,
    pub ignored_labels: IndexSet<String>,
    pub ignored_authors: IndexSet<String>,
    pub ignored_title_prefix: IndexSet<String>,
}

/// The group that `name` maps to in `pairs`: the first pair for it.
pub open spec fn lookup_group(pairs: Seq<(String, String)>, name: Seq<char>) -> Option<Seq<char>>
    decreases pairs.len(),
{
    if pairs.len() == 0 {
        None
    } else if pairs[0].0@ == name {
        Some(pairs[0].1@)
    } else {
        lookup_group(pairs.drop_first(), name)
    }
}

impl Config {
    /// The group that the label or tag `name` maps to.
    pub fn label_group(&self, name: &String) -> (r: Option<String>)
        ensures
            r is None <==> lookup_group(self.label_groups@, name@) is None,
            r matches Some(g) ==> lookup_group(self.label_groups@, name@) == Some(g@),
    {
        let n = self.label_groups.len();
        let mut i: usize = 0;
        proof {
            assert(self.label_groups@.subrange(0, n as int) =~= self.label_groups@);
        }
        while i < n
            invariant
                n == self.label_groups@.len(),
                i <= n,
                lookup_group(self.label_groups@.subrange(i as int, n as int), name@) == lookup_group(self.label_groups@, name@),
            decreases n - i,
        {
            proof {
                assert(self.label_groups@.subrange(i as int, n as int).drop_first() =~= self.label_groups@.subrange(i + 1, n as int));
            }
            if self.label_groups[i].0 == *name {
                return Some(self.label_groups[i].1.clone());
            }
            i = i + 1;
        }
        None
    }
}

} // verus!
