//! A small ordered set of pull-request numbers, and its wire shape: a bare
//! scalar when it holds one number (in compact mode), an array otherwise.

use indexmap::IndexSet;
use vstd::prelude::*;

verus! {

#[verifier::external_type_specification]
#[verifier::external_body]
#[verifier::reject_recursive_types(T)]
#[verifier::reject_recursive_types(S)]
pub struct ExIndexSet<T, S>(IndexSet<T, S>);

/// The items of a set of numbers, in insertion order.
pub uninterp spec fn pr_ids(s: IndexSet<u64>) -> Seq<u64>;

/// `s` with `x` added at the end, unless it is already there.
pub open spec fn set_insert<A>(s: Seq<A>, x: A) -> Seq<A> {
    if s.contains(x) {
        s
    } else {
        s.push(x)
    }
}

/// The first occurrence of each item of `s`, in order.
pub open spec fn dedup<A>(s: Seq<A>) -> Seq<A>
    decreases s.len(),
{
    if s.len() == 0 {
        s
    } else {
        set_insert(dedup(s.drop_last()), s.last())
    }
}

pub proof fn lemma_set_insert_no_duplicates<A>(s: Seq<A>, x: A)
    requires
        s.no_duplicates(),
    ensures
        set_insert(s, x).no_duplicates(),
        forall|y: A| set_insert(s, x).contains(y) <==> (s.contains(y) || y == x),
{
    if !s.contains(x) {
        assert forall|y: A| s.push(x).contains(y) <==> (s.contains(y) || y == x) by {
            if s.push(x).contains(y) {
                let i = choose|i: int| 0 <= i < s.push(x).len() && s.push(x)[i] == y;
                if i < s.len() {
                    assert(s[i] == y);
                }
            }
            if s.contains(y) {
                let i = choose|i: int| 0 <= i < s.len() && s[i] == y;
                assert(s.push(x)[i] == y);
            }
            if y == x {
                assert(s.push(x)[s.len() as int] == y);
            }
        }
    }
}

pub proof fn lemma_dedup_no_duplicates<A>(s: Seq<A>)
    ensures
        dedup(s).no_duplicates(),
        forall|y: A| dedup(s).contains(y) <==> s.contains(y),
    decreases s.len(),
{
    if s.len() > 0 {
        lemma_dedup_no_duplicates(s.drop_last());
        lemma_set_insert_no_duplicates(dedup(s.drop_last()), s.last());
        assert forall|y: A| s.contains(y) <==> (s.drop_last().contains(y) || y == s.last()) by {
            if s.contains(y) {
                let i = choose|i: int| 0 <= i < s.len() && s[i] == y;
                if i < s.len() - 1 {
                    assert(s.drop_last()[i] == y);
                }
            }
            if s.drop_last().contains(y) {
                let i = choose|i: int| 0 <= i < s.drop_last().len() && s.drop_last()[i] == y;
                assert(s[i] == y);
            }
            if y == s.last() {
                assert(s[s.len() - 1] == y);
            }
        }
    }
}

/// Inserting an item twice is inserting it once, and leaves it present.
pub proof fn lemma_set_insert_idempotent<A>(s: Seq<A>, x: A)
    ensures
        set_insert(set_insert(s, x), x) == set_insert(s, x),
        set_insert(s, x).contains(x),
{
    if !s.contains(x) {
        assert(s.push(x)[s.len() as int] == x);
    }
}

/// Removing repeats from a sequence without any changes nothing.
pub proof fn lemma_dedup_identity<A>(s: Seq<A>)
    requires
        s.no_duplicates(),
    ensures
        dedup(s) == s,
    decreases s.len(),
{
    if s.len() > 0 {
        let t = s.drop_last();
        assert(t.no_duplicates());
        lemma_dedup_identity(t);
        assert(!t.contains(s.last())) by {
            if t.contains(s.last()) {
                let i = choose|i: int| 0 <= i < t.len() && t[i] == s.last();
                assert(s[i] == s[s.len() - 1]);
            }
        }
        assert(t.push(s.last()) =~= s);
    }
}

/// Relies on `IndexSet::new`: the new set is empty.
#[verifier::external_body]
fn id_set_new() -> (r: IndexSet<u64>)
    ensures
        pr_ids(r) == Seq::<u64>::empty(),
{
    IndexSet::new()
}

/// Relies on `IndexSet::insert`: a number already present leaves the set and
/// its order unchanged and gives `false`; a new one goes last and gives `true`.
#[verifier::external_body]
fn id_set_insert(s: &mut IndexSet<u64>, id: u64) -> (added: bool)
    ensures
        added == !pr_ids(*old(s)).contains(id),
        pr_ids(*final(s)) == set_insert(pr_ids(*old(s)), id),
{
    s.insert(id)
}

/// Relies on `IndexSet::len`: the number of items.
#[verifier::external_body]
fn id_set_len(s: &IndexSet<u64>) -> (n: usize)
    ensures
        n == pr_ids(*s).len(),
{
    s.len()
}

/// Relies on `IndexSet::get_index`: the item at a position, in insertion order.
#[verifier::external_body]
fn id_set_get(s: &IndexSet<u64>, i: usize) -> (r: Option<&u64>)
    ensures
        i < pr_ids(*s).len() ==> r == Some(&pr_ids(*s)[i as int]),
        i >= pr_ids(*s).len() ==> r is None,
{
    s.get_index(i)
}

/// Relies on `Clone` for `IndexSet`: the copy holds the same items in the same order.
#[verifier::external_body]
fn id_set_clone(s: &IndexSet<u64>) -> (r: IndexSet<u64>)
    ensures
        pr_ids(r) == pr_ids(*s),
{
    s.clone()
}

/// Why a persisted release state could not be loaded.
#[derive(Clone, Copy, Debug, PartialEq, Eq, Structural)]
pub enum StateError {
    /// A record lacks one of its required fields.
    CorruptState,
    /// A reference field has a shape that is neither a number nor an array of numbers.
    MalformedReference,
}

/// The shape in which a set of pull-request numbers is written and read.
#[derive(Clone, Debug)]
pub enum OneOrManyImpl {
    /// A single number.
    One(u64),
    /// An array of numbers.
    Many(Vec<u64>),
    /// A value of any other shape (a table, a string, a nested array).
    Other,
}

/// The wire shape for the numbers `s`: a bare number when compact mode is on
/// and there is exactly one, else the whole array.
pub open spec fn wire_shape_ok(w: OneOrManyImpl, s: Seq<u64>, compact: bool) -> bool {
    if compact && s.len() == 1 {
        w == OneOrManyImpl::One(s[0])
    } else {
        w matches OneOrManyImpl::Many(v) && v@ == s
    }
}

/// What reading the wire shape `w` yields: a singleton for a bare number, the
/// distinct numbers of an array in first-seen order, nothing for another shape.
pub open spec fn wire_ids(w: OneOrManyImpl) -> Option<Seq<u64>> {
    match w {
        OneOrManyImpl::One(x) => Some(seq![x]),
        OneOrManyImpl::Many(v) => Some(dedup(v@)),
        OneOrManyImpl::Other => None,
    }
}

/// An insertion-ordered set of pull-request numbers.
#[derive(Debug)]
pub struct OneOrMany {
    ids: IndexSet<u64>,
}

impl View for OneOrMany {
    type V = Seq<u64>;

    closed spec fn view(&self) -> Seq<u64> {
        pr_ids(self.ids)
    }
}

impl Clone for OneOrMany {
    fn clone(&self) -> Self {
        self.duplicate()
    }
}

impl OneOrMany {
    /// Each number occurs once.
    pub open spec fn wf(&self) -> bool {
        self@.no_duplicates()
    }

    pub fn new() -> (r: Self)
        ensures
            r.wf(),
            r@ == Seq::<u64>::empty(),
    {
        OneOrMany { ids: id_set_new() }
    }

    /// Adds `id` at the end unless it is present; tells whether it was added.
    pub fn insert(&mut self, id: u64) -> (added: bool)
        requires
            old(self).wf(),
        ensures
            final(self).wf(),
            final(self)@ == set_insert(old(self)@, id),
            added == !old(self)@.contains(id),
    {
        proof {
            lemma_set_insert_no_duplicates(self@, id);
        }
        id_set_insert(&mut self.ids, id)
    }

    pub fn len(&self) -> (n: usize)
        ensures
            n == self@.len(),
    {
        id_set_len(&self.ids)
    }

    pub fn contains(&self, id: u64) -> (r: bool)
        ensures
            r == self@.contains(id),
    {
        let n = self.len();
        let mut i: usize = 0;
        while i < n
            invariant
                n == self@.len(),
                i <= n,
                forall|j: int| 0 <= j < i ==> self@[j] != id,
            decreases n - i,
        {
            if self.get(i) == id {
                return true;
            }
            i = i + 1;
        }
        false
    }

    /// The number at position `i`.
    pub fn get(&self, i: usize) -> (r: u64)
        requires
            i < self@.len(),
        ensures
            r == self@[i as int],
    {
        match id_set_get(&self.ids, i) {
            Some(r) => *r,
            None => 0,
        }
    }

    /// The numbers, in insertion order.
    pub fn to_vec(&self) -> (v: Vec<u64>)
        ensures
            v@ == self@,
    {
        let n = self.len();
        let mut v: Vec<u64> = Vec::new();
        let mut i: usize = 0;
        while i < n
            invariant
                n == self@.len(),
                i <= n,
                v@ == self@.subrange(0, i as int),
            decreases n - i,
        {
            v.push(self.get(i));
            i = i + 1;
            assert(v@ =~= self@.subrange(0, i as int));
        }
        assert(v@ =~= self@);
        v
    }

    /// A copy holding the same numbers in the same order.
    pub fn duplicate(&self) -> (r: Self)
        ensures
            r@ == self@,
    {
        OneOrMany { ids: id_set_clone(&self.ids) }
    }

    /// The shape in which this set is written.
    pub fn to_serializable(&self, compact: bool) -> (r: OneOrManyImpl)
        ensures
            wire_shape_ok(r, self@, compact),
    {
        if compact && self.len() == 1 {
            OneOrManyImpl::One(self.get(0))
        } else {
            OneOrManyImpl::Many(self.to_vec())
        }
    }

    /// The set of the numbers in `v`, in first-seen order.
    pub fn from_numbers(v: &Vec<u64>) -> (r: Self)
        ensures
            r.wf(),
            r@ == dedup(v@),
    {
        let mut r = OneOrMany::new();
        let mut i: usize = 0;
        while i < v.len()
            invariant
                i <= v@.len(),
                r.wf(),
                r@ == dedup(v@.subrange(0, i as int)),
            decreases v.len() - i,
        {
            r.insert(v[i]);
            proof {
                let s = v@.subrange(0, i as int + 1);
                assert(s.drop_last() =~= v@.subrange(0, i as int));
            }
            i = i + 1;
        }
        assert(v@.subrange(0, v@.len() as int) =~= v@);
        r
    }

    /// Reads a set from its wire shape: a bare number gives a singleton, an
    /// array its distinct numbers in first-seen order.
    pub fn from_serializable(w: &OneOrManyImpl) -> (r: Result<Self, StateError>)
        ensures
            wire_ids(*w) is None ==> r == Err::<Self, StateError>(StateError::MalformedReference),
            wire_ids(*w) matches Some(s) ==> r matches Ok(set) && set.wf() && set@ == s,
    {
        match w {
            OneOrManyImpl::One(x) => {
                let mut r = OneOrMany::new();
                r.insert(*x);
                assert(r@ =~= seq![*x]);
                Ok(r)
            },
            OneOrManyImpl::Many(v) => Ok(OneOrMany::from_numbers(v)),
            OneOrManyImpl::Other => Err(StateError::MalformedReference),
        }
    }
}

} // verus!
