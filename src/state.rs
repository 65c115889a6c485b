//! The release state: changelog entries keyed by (message, group), each with
//! the pull requests behind it, and the authors who contributed.

use indexmap::{IndexMap, IndexSet};
use vstd::prelude::*;

use crate::one_or_many::{
    dedup, lemma_set_insert_no_duplicates, set_insert, OneOrMany,
};

verus! {

#[verifier::external_type_specification]
#[verifier::external_body]
#[verifier::reject_recursive_types(K)]
#[verifier::reject_recursive_types(V)]
#[verifier::reject_recursive_types(S)]
pub struct ExIndexMap<K, V, S>(IndexMap<K, V, S>);

/// One changelog line: its text and the group it is filed under.
#[derive(Clone, Debug, PartialEq, Eq, Hash)]
pub struct Change {
    pub message: String,
    pub group: String,
}

impl View for Change {
    type V = (Seq<char>, Seq<char>);

    open spec fn view(&self) -> (Seq<char>, Seq<char>) {
        (self.message@, self.group@)
    }
}

/// The pull requests behind one changelog line.
#[derive(Clone, Debug)]
pub struct ChangeMeta {
    pub pr: OneOrMany,
}

/// An entry of the state as plain values: message, group, pull-request numbers.
pub type EntryView = (Seq<char>, Seq<char>, Seq<u64>);

pub open spec fn entry_key(e: EntryView) -> (Seq<char>, Seq<char>) {
    (e.0, e.1)
}

/// The entries of a change map, in insertion order.
pub uninterp spec fn change_entries(m: IndexMap<Change, ChangeMeta>) -> Seq<EntryView>;

/// The items of a set of names, in insertion order.
pub uninterp spec fn name_items(s: IndexSet<String>) -> Seq<Seq<char>>;

/// Relies on `IndexMap::new`: the new map is empty.
#[verifier::external_body]
fn change_map_new() -> (r: IndexMap<Change, ChangeMeta>)
    ensures
        change_entries(r) == Seq::<EntryView>::empty(),
{
    IndexMap::new()
}

/// Relies on `IndexMap::len`: the number of entries.
#[verifier::external_body]
fn change_map_len(m: &IndexMap<Change, ChangeMeta>) -> (n: usize)
    ensures
        n == change_entries(*m).len(),
{
    m.len()
}

/// Relies on `IndexMap::get_index_of`: the position of the entry whose key is
/// equal to `k`, if there is one. Keys are compared by the derived `Eq` of
/// `Change`, which holds when both strings are equal.
#[verifier::external_body]
fn change_map_index_of(m: &IndexMap<Change, ChangeMeta>, k: &Change) -> (r: Option<usize>)
    ensures
        r matches Some(i) ==> i < change_entries(*m).len() && entry_key(change_entries(*m)[i as int]) == k@,
        r is None ==> forall|i: int| 0 <= i < change_entries(*m).len() ==> entry_key(#[trigger] change_entries(*m)[i]) != k@,
{
    m.get_index_of(k)
}

/// Relies on `IndexMap::get_index`: the entry at a position, in insertion order.
#[verifier::external_body]
fn change_map_get(m: &IndexMap<Change, ChangeMeta>, i: usize) -> (r: Option<(&Change, &ChangeMeta)>)
    ensures
        i < change_entries(*m).len() ==> r is Some,
        i < change_entries(*m).len() ==> r.unwrap().0@ == entry_key(change_entries(*m)[i as int]),
        i < change_entries(*m).len() ==> r.unwrap().1.pr@ == change_entries(*m)[i as int].2,
        i >= change_entries(*m).len() ==> r is None,
{
    m.get_index(i)
}

/// The entries after `IndexMap::insert` of key `k` with numbers `v`: an equal
/// key keeps its place and takes the new value; a new key goes last.
pub open spec fn overwrite(es: Seq<EntryView>, k: (Seq<char>, Seq<char>), v: Seq<u64>) -> Seq<EntryView> {
    match index_of_key(es, k) {
        Some(i) => es.update(i, (k.0, k.1, v)),
        None => es.push((k.0, k.1, v)),
    }
}

/// The position of the entry with key `k`, if there is one.
pub open spec fn index_of_key(es: Seq<EntryView>, k: (Seq<char>, Seq<char>)) -> Option<int> {
    if exists|i: int| 0 <= i < es.len() && entry_key(#[trigger] es[i]) == k {
        Some(choose|i: int| 0 <= i < es.len() && entry_key(#[trigger] es[i]) == k)
    } else {
        None
    }
}

/// Relies on `IndexMap::insert`: an entry with an equal key keeps its place in
/// the order and takes the new value; otherwise the pair is added last.
#[verifier::external_body]
fn change_map_insert(m: &mut IndexMap<Change, ChangeMeta>, k: Change, v: ChangeMeta)
    ensures
        change_entries(*final(m)) == overwrite(change_entries(*old(m)), k@, v.pr@),
{
    m.insert(k, v);
}

/// The position of `g` in `order`, or the length of `order` where it is absent.
pub open spec fn rank_of(order: Seq<Seq<char>>, g: Seq<char>) -> nat
    decreases order.len(),
{
    if order.len() == 0 {
        0
    } else if order[0] == g {
        0
    } else {
        1 + rank_of(order.drop_first(), g)
    }
}

/// The entries of `es` whose group has rank `r` or more, grouped by rank in
/// increasing order, each group in the order of `es`.
pub open spec fn ranks_from(es: Seq<EntryView>, order: Seq<Seq<char>>, r: nat) -> Seq<EntryView>
    decreases order.len() + 1 - r,
{
    if r > order.len() {
        Seq::empty()
    } else {
        es.filter(in_rank(order, r)) + ranks_from(es, order, r + 1)
    }
}

/// Whether an entry's group has rank `r` in `order`.
pub open spec fn in_rank(order: Seq<Seq<char>>, r: nat) -> spec_fn(EntryView) -> bool {
    |e: EntryView| rank_of(order, e.1) == r
}

proof fn lemma_rank_bound(order: Seq<Seq<char>>, g: Seq<char>)
    ensures
        rank_of(order, g) <= order.len(),
    decreases order.len(),
{
    if order.len() > 0 && order[0] != g {
        lemma_rank_bound(order.drop_first(), g);
    }
}

proof fn lemma_filter_count(s: Seq<EntryView>, p: spec_fn(EntryView) -> bool, y: EntryView)
    ensures
        s.filter(p).to_multiset().count(y) == (if p(y) { s.to_multiset().count(y) } else { 0 }),
    decreases s.len(),
{
    broadcast use vstd::seq_lib::group_to_multiset_ensures;
    reveal(Seq::filter);
    if s.len() == 0 {
        assert(s.filter(p) =~= s);
    } else {
        lemma_filter_count(s.drop_last(), p, y);
        assert(s.drop_last().push(s.last()) =~= s);
    }
}

proof fn lemma_filter_keeps_all(s: Seq<EntryView>, p: spec_fn(EntryView) -> bool)
    requires
        forall|i: int| 0 <= i < s.len() ==> p(#[trigger] s[i]),
    ensures
        s.filter(p) == s,
    decreases s.len(),
{
    reveal(Seq::filter);
    if s.len() > 0 {
        lemma_filter_keeps_all(s.drop_last(), p);
        assert(p(s[s.len() - 1]));
        assert(s.drop_last().push(s.last()) =~= s);
    }
}

proof fn lemma_filter_keeps_none(s: Seq<EntryView>, p: spec_fn(EntryView) -> bool)
    requires
        forall|i: int| 0 <= i < s.len() ==> !p(#[trigger] s[i]),
    ensures
        s.filter(p) == Seq::<EntryView>::empty(),
    decreases s.len(),
{
    reveal(Seq::filter);
    if s.len() > 0 {
        lemma_filter_keeps_none(s.drop_last(), p);
        assert(!p(s[s.len() - 1]));
    } else {
        assert(s =~= Seq::<EntryView>::empty());
    }
}

proof fn lemma_ranks_from(es: Seq<EntryView>, order: Seq<Seq<char>>, r: nat)
    ensures
        forall|i: int| 0 <= i < ranks_from(es, order, r).len() ==> rank_of(order, (#[trigger] ranks_from(es, order, r)[i]).1) >= r,
        forall|i: int, j: int| 0 <= i < j < ranks_from(es, order, r).len()
            ==> rank_of(order, (#[trigger] ranks_from(es, order, r)[i]).1) <= rank_of(order, (#[trigger] ranks_from(es, order, r)[j]).1),
        forall|y: EntryView| #[trigger] ranks_from(es, order, r).to_multiset().count(y)
            == (if rank_of(order, y.1) >= r { es.to_multiset().count(y) } else { 0 }),
        forall|r0: nat| #[trigger] ranks_from(es, order, r).filter(in_rank(order, r0))
            == (if r <= r0 { es.filter(in_rank(order, r0)) } else { Seq::<EntryView>::empty() }),
    decreases order.len() + 1 - r,
{
    broadcast use vstd::seq_lib::group_filter_ensures;
    let x = ranks_from(es, order, r);
    if r > order.len() {
        assert(x =~= Seq::<EntryView>::empty());
        assert forall|y: EntryView| #[trigger] x.to_multiset().count(y)
            == (if rank_of(order, y.1) >= r { es.to_multiset().count(y) } else { 0 }) by {
            lemma_rank_bound(order, y.1);
            broadcast use vstd::seq_lib::group_to_multiset_ensures;
        }
        assert forall|r0: nat| #[trigger] x.filter(in_rank(order, r0))
            == (if r <= r0 { es.filter(in_rank(order, r0)) } else { Seq::<EntryView>::empty() }) by {
            lemma_filter_keeps_none(x, in_rank(order, r0));
            if r <= r0 {
                assert forall|i: int| 0 <= i < es.len() implies !in_rank(order, r0)(#[trigger] es[i]) by {
                    lemma_rank_bound(order, es[i].1);
                }
                lemma_filter_keeps_none(es, in_rank(order, r0));
            }
        }
    } else {
        let f = es.filter(in_rank(order, r));
        let rest = ranks_from(es, order, r + 1);
        lemma_ranks_from(es, order, r + 1);
        assert(x == f + rest);
        assert forall|i: int| 0 <= i < f.len() implies rank_of(order, (#[trigger] f[i]).1) == r by {
            assert(in_rank(order, r)(f[i]));
        }
        assert forall|i: int| 0 <= i < x.len() implies rank_of(order, (#[trigger] x[i]).1) >= r by {
            if i >= f.len() {
                assert(x[i] == rest[i - f.len()]);
            }
        }
        assert forall|i: int, j: int| 0 <= i < j < x.len()
            implies rank_of(order, (#[trigger] x[i]).1) <= rank_of(order, (#[trigger] x[j]).1) by {
            if j < f.len() {
                assert(x[i] == f[i] && x[j] == f[j]);
            } else if i < f.len() {
                assert(x[i] == f[i] && x[j] == rest[j - f.len()]);
            } else {
                assert(x[i] == rest[i - f.len()] && x[j] == rest[j - f.len()]);
            }
        }
        vstd::seq_lib::lemma_multiset_commutative(f, rest);
        assert forall|y: EntryView| #[trigger] x.to_multiset().count(y)
            == (if rank_of(order, y.1) >= r { es.to_multiset().count(y) } else { 0 }) by {
            lemma_filter_count(es, in_rank(order, r), y);
        }
        assert forall|r0: nat| #[trigger] x.filter(in_rank(order, r0))
            == (if r <= r0 { es.filter(in_rank(order, r0)) } else { Seq::<EntryView>::empty() }) by {
            Seq::filter_distributes_over_add(f, rest, in_rank(order, r0));
            assert(rest.filter(in_rank(order, r0)) == (if r + 1 <= r0 { es.filter(in_rank(order, r0)) } else { Seq::<EntryView>::empty() }));
            if r0 == r {
                lemma_filter_keeps_all(f, in_rank(order, r0));
                assert(f + Seq::<EntryView>::empty() =~= f);
            } else {
                assert forall|i: int| 0 <= i < f.len() implies !in_rank(order, r0)(#[trigger] f[i]) by {
                    assert(rank_of(order, f[i].1) == r);
                }
                lemma_filter_keeps_none(f, in_rank(order, r0));
                assert(Seq::<EntryView>::empty() + rest.filter(in_rank(order, r0)) =~= rest.filter(in_rank(order, r0)));
            }
        }
    }
}

/// Sorting for rendering only reorders: the entries are the same, with the
/// same numbers; ranks never decrease along the result, unknown groups
/// coming last; and the entries of each rank keep their order.
pub proof fn lemma_sorted_by_group(es: Seq<EntryView>, order: Seq<Seq<char>>)
    ensures
        sorted_by_group(es, order).to_multiset() == es.to_multiset(),
        forall|i: int, j: int| 0 <= i < j < sorted_by_group(es, order).len()
            ==> rank_of(order, (#[trigger] sorted_by_group(es, order)[i]).1) <= rank_of(order, (#[trigger] sorted_by_group(es, order)[j]).1),
        forall|i: int| 0 <= i < sorted_by_group(es, order).len() && rank_of(order, (#[trigger] sorted_by_group(es, order)[i]).1) == order.len()
            ==> !order.contains(sorted_by_group(es, order)[i].1),
        forall|r: nat| #[trigger] sorted_by_group(es, order).filter(in_rank(order, r)) == es.filter(in_rank(order, r)),
{
    lemma_ranks_from(es, order, 0);
    assert forall|y: EntryView| #[trigger] sorted_by_group(es, order).to_multiset().count(y) == es.to_multiset().count(y) by {
    }
    assert(sorted_by_group(es, order).to_multiset() =~= es.to_multiset());
    assert forall|g: Seq<char>| rank_of(order, g) == order.len() implies !order.contains(g) by {
        lemma_rank_absent(order, g);
    }
}

proof fn lemma_rank_absent(order: Seq<Seq<char>>, g: Seq<char>)
    ensures
        (rank_of(order, g) == order.len()) == !order.contains(g),
    decreases order.len(),
{
    if order.len() > 0 {
        lemma_rank_absent(order.drop_first(), g);
        lemma_rank_bound(order.drop_first(), g);
        if order[0] != g {
            assert forall|h: Seq<char>| order.drop_first().contains(h) || h == order[0] <==> order.contains(h) by {
                if order.contains(h) {
                    let i = choose|i: int| 0 <= i < order.len() && order[i] == h;
                    if i > 0 {
                        assert(order.drop_first()[i - 1] == h);
                    }
                }
                if order.drop_first().contains(h) {
                    let i = choose|i: int| 0 <= i < order.drop_first().len() && order.drop_first()[i] == h;
                    assert(order[i + 1] == h);
                }
                if h == order[0] {
                    assert(order[0] == h);
                }
            }
        } else {
            assert(order[0] == g);
        }
    }
}

/// A stable sort of `es` by the rank of each group in `order`: known groups in
/// the configured order, unknown ones last, ties in the order of `es`.
pub open spec fn sorted_by_group(es: Seq<EntryView>, order: Seq<Seq<char>>) -> Seq<EntryView> {
    ranks_from(es, order, 0)
}

pub open spec fn strings_view(v: Seq<String>) -> Seq<Seq<char>> {
    v.map_values(|s: String| s@)
}

/// The position of `group` in `order`, or the length of `order` where it is absent.
pub fn group_rank(order: &IndexSet<String>, group: &String) -> (r: usize)
    ensures
        r == rank_of(name_items(*order), group@),
{
    let n = name_set_len(order);
    let ghost s = name_items(*order);
    let mut i: usize = 0;
    proof {
        assert(s.subrange(0, n as int) =~= s);
    }
    while i < n
        invariant
            n == s.len(),
            s == name_items(*order),
            i <= n,
            rank_of(s.subrange(i as int, n as int), group@) + i == rank_of(s, group@),
        decreases n - i,
    {
        let ghost t = s.subrange(i as int, n as int);
        proof {
            assert(t.drop_first() =~= s.subrange(i + 1, n as int));
        }
        let found = match name_set_get(order, i) {
            Some(g) => *g == *group,
            None => false,
        };
        if found {
            return i;
        }
        i = i + 1;
    }
    proof {
        assert(s.subrange(i as int, n as int).len() == 0);
    }
    n
}

/// Orders two changes by the rank of their groups in `order`.
pub fn compare_groups(order: &IndexSet<String>, a: &Change, b: &Change) -> (r: std::cmp::Ordering)
    ensures
        r == (if rank_of(name_items(*order), a.group@) < rank_of(name_items(*order), b.group@) {
            std::cmp::Ordering::Less
        } else if rank_of(name_items(*order), a.group@) > rank_of(name_items(*order), b.group@) {
            std::cmp::Ordering::Greater
        } else {
            std::cmp::Ordering::Equal
        }),
{
    let ra = group_rank(order, &a.group);
    let rb = group_rank(order, &b.group);
    if ra < rb {
        std::cmp::Ordering::Less
    } else if ra > rb {
        std::cmp::Ordering::Greater
    } else {
        std::cmp::Ordering::Equal
    }
}

/// Relies on `IndexMap::sort_by`, a stable sort, with a comparison of group ranks.
#[verifier::external_body]
fn change_map_sort_by_group(m: &mut IndexMap<Change, ChangeMeta>, order: &IndexSet<String>)
    ensures
        change_entries(*final(m)) == sorted_by_group(change_entries(*old(m)), name_items(*order)),
{
    m.sort_by(|a, _, b, _| compare_groups(order, a, b));
}

/// Relies on `IndexSet::new`: the new set is empty.
#[verifier::external_body]
pub(crate) fn name_set_new() -> (r: IndexSet<String>)
    ensures
        name_items(r) == Seq::<Seq<char>>::empty(),
{
    IndexSet::new()
}

/// Relies on `IndexSet::insert`: a name already present leaves the set and its
/// order unchanged; a new one goes last.
#[verifier::external_body]
pub(crate) fn name_set_insert(s: &mut IndexSet<String>, name: String) -> (added: bool)
    ensures
        added == !name_items(*old(s)).contains(name@),
        name_items(*final(s)) == set_insert(name_items(*old(s)), name@),
{
    s.insert(name)
}

/// Relies on `IndexSet::len`: the number of names.
#[verifier::external_body]
pub(crate) fn name_set_len(s: &IndexSet<String>) -> (n: usize)
    ensures
        n == name_items(*s).len(),
{
    s.len()
}

/// Relies on `IndexSet::get_index`: the name at a position, in insertion order.
#[verifier::external_body]
pub(crate) fn name_set_get(s: &IndexSet<String>, i: usize) -> (r: Option<&String>)
    ensures
        i < name_items(*s).len() ==> r is Some,
        i < name_items(*s).len() ==> r.unwrap()@ == name_items(*s)[i as int],
        i >= name_items(*s).len() ==> r is None,
{
    s.get_index(i)
}

/// Keys occur once each, and each entry's numbers occur once each.
pub open spec fn entries_wf(es: Seq<EntryView>) -> bool {
    &&& forall|i: int, j: int| 0 <= i < j < es.len() ==> entry_key(#[trigger] es[i]) != entry_key(#[trigger] es[j])
    &&& forall|i: int| 0 <= i < es.len() ==> (#[trigger] es[i]).2.no_duplicates()
}

/// The entries after adding pull request `pr` to the line `k`: a new line goes
/// last with just `pr`; an existing one gains `pr` unless it has it.
pub open spec fn insert_change(es: Seq<EntryView>, k: (Seq<char>, Seq<char>), pr: u64) -> Seq<EntryView> {
    match index_of_key(es, k) {
        Some(i) => es.update(i, (k.0, k.1, set_insert(es[i].2, pr))),
        None => es.push((k.0, k.1, seq![pr])),
    }
}

/// The keys of `es`, in order.
pub open spec fn keys(es: Seq<EntryView>) -> Seq<(Seq<char>, Seq<char>)> {
    es.map_values(|e: EntryView| entry_key(e))
}

/// The entries after adding each (key, pull request) pair of `ops` in turn.
pub open spec fn insert_all(es: Seq<EntryView>, ops: Seq<((Seq<char>, Seq<char>), u64)>) -> Seq<EntryView>
    decreases ops.len(),
{
    if ops.len() == 0 {
        es
    } else {
        insert_change(insert_all(es, ops.drop_last()), ops.last().0, ops.last().1)
    }
}

proof fn lemma_index_of_key_keys(es: Seq<EntryView>, k: (Seq<char>, Seq<char>))
    ensures
        (index_of_key(es, k) is Some) == keys(es).contains(k),
        index_of_key(es, k) matches Some(i) ==> 0 <= i < es.len() && entry_key(es[i]) == k,
{
    if keys(es).contains(k) {
        let i = choose|i: int| 0 <= i < keys(es).len() && keys(es)[i] == k;
        assert(entry_key(es[i]) == k);
    }
    if index_of_key(es, k) is Some {
        let i = index_of_key(es, k).unwrap();
        assert(keys(es)[i] == k);
    }
}

/// Adding a pull request to a line keeps the entries well formed, and the
/// keys change as a set insertion would change them.
pub proof fn lemma_insert_change(es: Seq<EntryView>, k: (Seq<char>, Seq<char>), pr: u64)
    requires
        entries_wf(es),
    ensures
        entries_wf(insert_change(es, k, pr)),
        keys(insert_change(es, k, pr)) == set_insert(keys(es), k),
{
    lemma_index_of_key_keys(es, k);
    let ns = insert_change(es, k, pr);
    match index_of_key(es, k) {
        Some(i) => {
            lemma_set_insert_no_duplicates(es[i].2, pr);
            assert forall|a: int, b: int| 0 <= a < b < ns.len() implies entry_key(#[trigger] ns[a]) != entry_key(#[trigger] ns[b]) by {
                assert(entry_key(ns[a]) == entry_key(es[a]));
                assert(entry_key(ns[b]) == entry_key(es[b]));
            }
            assert forall|a: int| 0 <= a < ns.len() implies (#[trigger] ns[a]).2.no_duplicates() by {
                if a != i {
                    assert(ns[a] == es[a]);
                }
            }
            assert(keys(ns) =~= keys(es));
        },
        None => {
            assert forall|a: int, b: int| 0 <= a < b < ns.len() implies entry_key(#[trigger] ns[a]) != entry_key(#[trigger] ns[b]) by {
                if b == es.len() {
                    assert(entry_key(es[a]) != k);
                }
            }
            assert forall|a: int| 0 <= a < ns.len() implies (#[trigger] ns[a]).2.no_duplicates() by {
                if a < es.len() {
                    assert(ns[a] == es[a]);
                }
            }
            assert(keys(ns) =~= keys(es).push(k));
        },
    }
}

/// Whatever pull requests are added in whatever order, the lines stand in
/// the order in which their keys were first seen, each once.
pub proof fn lemma_first_seen_order(ops: Seq<((Seq<char>, Seq<char>), u64)>)
    ensures
        entries_wf(insert_all(Seq::empty(), ops)),
        keys(insert_all(Seq::empty(), ops)) == dedup(ops.map_values(|o: ((Seq<char>, Seq<char>), u64)| o.0)),
    decreases ops.len(),
{
    let f = |o: ((Seq<char>, Seq<char>), u64)| o.0;
    if ops.len() == 0 {
        assert(keys(Seq::<EntryView>::empty()) =~= Seq::empty());
        assert(ops.map_values(f) =~= Seq::empty());
    } else {
        lemma_first_seen_order(ops.drop_last());
        lemma_insert_change(insert_all(Seq::empty(), ops.drop_last()), ops.last().0, ops.last().1);
        assert(ops.map_values(f).drop_last() =~= ops.drop_last().map_values(f));
    }
}

/// Adding two pull requests to a line that was absent gives one new last
/// line holding both, the first one first.
pub proof fn lemma_merge_same_key(es: Seq<EntryView>, k: (Seq<char>, Seq<char>), a: u64, b: u64)
    requires
        entries_wf(es),
        !keys(es).contains(k),
    ensures
        insert_change(insert_change(es, k, a), k, b) == es.push((k.0, k.1, set_insert(seq![a], b))),
{
    lemma_index_of_key_keys(es, k);
    let es1 = insert_change(es, k, a);
    assert(es1 == es.push((k.0, k.1, seq![a])));
    lemma_insert_change(es, k, a);
    lemma_index_of_key_keys(es1, k);
    crate::one_or_many::lemma_set_insert_idempotent(keys(es), k);
    assert(keys(es1).contains(k));
    assert(index_of_key(es1, k) is Some);
    let i = index_of_key(es1, k).unwrap();
    assert(i == es.len()) by {
        assert(0 <= i < es1.len());
        if i < es.len() {
            assert(es1[i] == es[i]);
            assert(keys(es)[i] == k);
        }
    }
    assert(insert_change(es1, k, b) =~= es.push((k.0, k.1, set_insert(seq![a], b))));
}

/// The line `k` holds pull request `pr`.
pub open spec fn holds(es: Seq<EntryView>, k: (Seq<char>, Seq<char>), pr: u64) -> bool {
    exists|i: int| 0 <= i < es.len() && entry_key(#[trigger] es[i]) == k && es[i].2.contains(pr)
}

proof fn lemma_insert_held_is_noop(es: Seq<EntryView>, k: (Seq<char>, Seq<char>), pr: u64)
    requires
        entries_wf(es),
        holds(es, k, pr),
    ensures
        insert_change(es, k, pr) == es,
{
    let i = choose|i: int| 0 <= i < es.len() && entry_key(#[trigger] es[i]) == k && es[i].2.contains(pr);
    lemma_index_of_key_keys(es, k);
    assert(keys(es)[i] == k);
    let j = index_of_key(es, k).unwrap();
    assert(j == i) by {
        if j < i {
            assert(entry_key(es[j]) != entry_key(es[i]));
        } else if j > i {
            assert(entry_key(es[i]) != entry_key(es[j]));
        }
    }
    assert(es.update(i, (k.0, k.1, set_insert(es[i].2, pr))) =~= es);
}

proof fn lemma_insert_keeps_held(es: Seq<EntryView>, k: (Seq<char>, Seq<char>), pr: u64)
    requires
        entries_wf(es),
    ensures
        holds(insert_change(es, k, pr), k, pr),
        forall|k2: (Seq<char>, Seq<char>), p2: u64| holds(es, k2, p2) ==> #[trigger] holds(insert_change(es, k, pr), k2, p2),
{
    lemma_index_of_key_keys(es, k);
    let ns = insert_change(es, k, pr);
    crate::one_or_many::lemma_set_insert_no_duplicates(Seq::<u64>::empty(), pr);
    match index_of_key(es, k) {
        Some(i) => {
            crate::one_or_many::lemma_set_insert_no_duplicates(es[i].2, pr);
            crate::one_or_many::lemma_set_insert_idempotent(es[i].2, pr);
            assert(entry_key(ns[i]) == k && ns[i].2.contains(pr));
            assert forall|k2: (Seq<char>, Seq<char>), p2: u64| holds(es, k2, p2) implies #[trigger] holds(ns, k2, p2) by {
                let a = choose|a: int| 0 <= a < es.len() && entry_key(#[trigger] es[a]) == k2 && es[a].2.contains(p2);
                assert(entry_key(ns[a]) == k2);
                if a == i {
                    assert(ns[a].2 == set_insert(es[a].2, pr));
                } else {
                    assert(ns[a] == es[a]);
                }
                assert(ns[a].2.contains(p2));
            }
        },
        None => {
            let last = es.len() as int;
            assert(ns[last] == (k.0, k.1, seq![pr]));
            assert(ns[last].2[0] == pr);
            assert(entry_key(ns[last]) == k && ns[last].2.contains(pr));
            assert forall|k2: (Seq<char>, Seq<char>), p2: u64| holds(es, k2, p2) implies #[trigger] holds(ns, k2, p2) by {
                let a = choose|a: int| 0 <= a < es.len() && entry_key(#[trigger] es[a]) == k2 && es[a].2.contains(p2);
                assert(ns[a] == es[a]);
            }
        },
    }
}

proof fn lemma_insert_all_holds(es: Seq<EntryView>, ops: Seq<((Seq<char>, Seq<char>), u64)>)
    requires
        entries_wf(es),
    ensures
        entries_wf(insert_all(es, ops)),
        forall|j: int| 0 <= j < ops.len() ==> holds(insert_all(es, ops), (#[trigger] ops[j]).0, ops[j].1),
        forall|k2: (Seq<char>, Seq<char>), p2: u64| holds(es, k2, p2) ==> #[trigger] holds(insert_all(es, ops), k2, p2),
    decreases ops.len(),
{
    if ops.len() > 0 {
        let pre = ops.drop_last();
        lemma_insert_all_holds(es, pre);
        let mid = insert_all(es, pre);
        lemma_insert_change(mid, ops.last().0, ops.last().1);
        lemma_insert_keeps_held(mid, ops.last().0, ops.last().1);
        assert forall|j: int| 0 <= j < ops.len() implies holds(insert_all(es, ops), (#[trigger] ops[j]).0, ops[j].1) by {
            if j < ops.len() - 1 {
                assert(pre[j] == ops[j]);
                assert(holds(mid, pre[j].0, pre[j].1));
            }
        }
        assert forall|k2: (Seq<char>, Seq<char>), p2: u64| holds(es, k2, p2) implies #[trigger] holds(insert_all(es, ops), k2, p2) by {
            assert(holds(mid, k2, p2));
        }
    }
}

proof fn lemma_insert_all_held_is_noop(es: Seq<EntryView>, ops: Seq<((Seq<char>, Seq<char>), u64)>)
    requires
        entries_wf(es),
        forall|j: int| 0 <= j < ops.len() ==> holds(es, (#[trigger] ops[j]).0, ops[j].1),
    ensures
        insert_all(es, ops) == es,
    decreases ops.len(),
{
    if ops.len() > 0 {
        let pre = ops.drop_last();
        assert forall|j: int| 0 <= j < pre.len() implies holds(es, (#[trigger] pre[j]).0, pre[j].1) by {
            assert(pre[j] == ops[j]);
        }
        lemma_insert_all_held_is_noop(es, pre);
        assert(holds(es, ops[ops.len() - 1].0, ops[ops.len() - 1].1));
        lemma_insert_held_is_noop(es, ops.last().0, ops.last().1);
    }
}

/// Adding the same lines with the same pull requests a second time changes
/// nothing: each line keeps its place and its numbers.
pub proof fn lemma_insert_all_twice(es: Seq<EntryView>, ops: Seq<((Seq<char>, Seq<char>), u64)>)
    requires
        entries_wf(es),
    ensures
        insert_all(insert_all(es, ops), ops) == insert_all(es, ops),
{
    lemma_insert_all_holds(es, ops);
    lemma_insert_all_held_is_noop(insert_all(es, ops), ops);
}

/// The state of one release in progress.
pub struct ReleaseStateImpl {
    changes: IndexMap<Change, ChangeMeta>,
    authors: IndexSet<String>,
}

/// The release state as it is held and persisted.
pub type ReleaseState = ReleaseStateImpl;

/// A changelog line as handed to a renderer.
#[derive(Clone, Debug)]
pub struct RenderedChange {
    pub message: String,
    pub group: String,
    pub pr: Vec<u64>,
}

pub open spec fn rendered_view(v: Seq<RenderedChange>) -> Seq<EntryView> {
    v.map_values(|c: RenderedChange| c@)
}

impl View for RenderedChange {
    type V = EntryView;

    open spec fn view(&self) -> EntryView {
        (self.message@, self.group@, self.pr@)
    }
}

/// What a renderer is handed: the lines in rendering order, and the authors.
#[derive(Clone, Debug)]
pub struct RenderContext {
    pub changes: Vec<RenderedChange>,
    pub authors: Vec<String>,
}

impl ReleaseStateImpl {
    pub closed spec fn changes_view(&self) -> Seq<EntryView> {
        change_entries(self.changes)
    }

    pub closed spec fn authors_view(&self) -> Seq<Seq<char>> {
        name_items(self.authors)
    }

    pub open spec fn wf(&self) -> bool {
        &&& entries_wf(self.changes_view())
        &&& self.authors_view().no_duplicates()
    }

    /// A state with no entries and no authors.
    pub fn new() -> (r: Self)
        ensures
            r.wf(),
            r.changes_view() == Seq::<EntryView>::empty(),
            r.authors_view() == Seq::<Seq<char>>::empty(),
    {
        ReleaseStateImpl { changes: change_map_new(), authors: name_set_new() }
    }

    pub fn len(&self) -> (n: usize)
        ensures
            n == self.changes_view().len(),
    {
        change_map_len(&self.changes)
    }

    /// Adds pull request `pr` to the line `change`, creating the line last if
    /// it is new.
    pub fn insert_pr_change(&mut self, change: Change, pr: u64)
        requires
            old(self).wf(),
        ensures
            final(self).wf(),
            final(self).changes_view() == insert_change(old(self).changes_view(), change@, pr),
            final(self).authors_view() == old(self).authors_view(),
    {
        let ghost es = self.changes_view();
        match change_map_index_of(&self.changes, &change) {
            Some(i) => {
                proof {
                    assert(index_of_key(es, change@) == Some(i as int));
                }
                let mut ids = match change_map_get(&self.changes, i) {
                    Some((_, meta)) => meta.pr.duplicate(),
                    None => OneOrMany::new(),
                };
                proof {
                    lemma_set_insert_no_duplicates(ids@, pr);
                }
                ids.insert(pr);
                change_map_insert(&mut self.changes, change, ChangeMeta { pr: ids });
                proof {
                    let ns = self.changes_view();
                    assert(ns =~= insert_change(es, change@, pr));
                    assert forall|a: int, b: int| 0 <= a < b < ns.len() implies entry_key(#[trigger] ns[a]) != entry_key(#[trigger] ns[b]) by {
                        assert(entry_key(ns[a]) == entry_key(es[a]));
                        assert(entry_key(ns[b]) == entry_key(es[b]));
                    }
                }
            },
            None => {
                proof {
                    assert(index_of_key(es, change@) is None);
                }
                let mut ids = OneOrMany::new();
                ids.insert(pr);
                proof {
                    assert(ids@ =~= seq![pr]);
                }
                change_map_insert(&mut self.changes, change, ChangeMeta { pr: ids });
                proof {
                    let ns = self.changes_view();
                    assert(ns =~= insert_change(es, change@, pr));
                    assert forall|a: int, b: int| 0 <= a < b < ns.len() implies entry_key(#[trigger] ns[a]) != entry_key(#[trigger] ns[b]) by {
                        if b == es.len() {
                            assert(entry_key(es[a]) != change@);
                        }
                    }
                }
            },
        }
    }

    /// Replaces the numbers of the line `change`, or adds the line last: how a
    /// persisted record is loaded, the later of two equal keys winning.
    pub fn overwrite_change(&mut self, change: Change, meta: ChangeMeta)
        requires
            old(self).wf(),
            meta.pr.wf(),
        ensures
            final(self).wf(),
            final(self).changes_view() == overwrite(old(self).changes_view(), change@, meta.pr@),
            final(self).authors_view() == old(self).authors_view(),
    {
        let ghost es = self.changes_view();
        let ghost k = change@;
        let ghost v = meta.pr@;
        change_map_insert(&mut self.changes, change, meta);
        proof {
            let ns = self.changes_view();
            match index_of_key(es, k) {
                Some(i) => {
                    assert forall|a: int, b: int| 0 <= a < b < ns.len() implies entry_key(#[trigger] ns[a]) != entry_key(#[trigger] ns[b]) by {
                        assert(entry_key(ns[a]) == entry_key(es[a]));
                        assert(entry_key(ns[b]) == entry_key(es[b]));
                    }
                },
                None => {
                    assert forall|a: int, b: int| 0 <= a < b < ns.len() implies entry_key(#[trigger] ns[a]) != entry_key(#[trigger] ns[b]) by {
                        if b == es.len() {
                            assert(entry_key(es[a]) != k);
                        }
                    }
                },
            }
        }
    }

    /// Records `login` among the authors, once.
    pub fn record_author(&mut self, login: String)
        requires
            old(self).wf(),
        ensures
            final(self).wf(),
            final(self).changes_view() == old(self).changes_view(),
            final(self).authors_view() == set_insert(old(self).authors_view(), login@),
    {
        proof {
            lemma_set_insert_no_duplicates(self.authors_view(), login@);
        }
        name_set_insert(&mut self.authors, login);
    }

    /// The entry at position `i`, as plain values.
    pub fn entry(&self, i: usize) -> (r: RenderedChange)
        requires
            i < self.changes_view().len(),
        ensures
            r@ == self.changes_view()[i as int],
    {
        match change_map_get(&self.changes, i) {
            Some((k, v)) => RenderedChange { message: k.message.clone(), group: k.group.clone(), pr: v.pr.to_vec() },
            None => RenderedChange { message: String::new(), group: String::new(), pr: Vec::new() },
        }
    }

    /// The entries as plain values, in insertion order.
    pub fn entries(&self) -> (r: Vec<RenderedChange>)
        ensures
            rendered_view(r@) == self.changes_view(),
    {
        let n = self.len();
        let mut r: Vec<RenderedChange> = Vec::new();
        let mut i: usize = 0;
        while i < n
            invariant
                n == self.changes_view().len(),
                i <= n,
                r@.len() == i,
                rendered_view(r@) == self.changes_view().subrange(0, i as int),
            decreases n - i,
        {
            let ghost old_r = r@;
            let e = self.entry(i);
            r.push(e);
            proof {
                let cv = self.changes_view();
                assert forall|j: int| 0 <= j < r@.len() implies rendered_view(r@)[j] == cv.subrange(0, i + 1)[j] by {
                    if j < i {
                        assert(rendered_view(old_r)[j] == cv.subrange(0, i as int)[j]);
                    }
                }
                assert(rendered_view(r@) =~= cv.subrange(0, i + 1));
            }
            i = i + 1;
        }
        assert(self.changes_view().subrange(0, n as int) =~= self.changes_view());
        r
    }

    /// The authors, in the order they were first recorded.
    pub fn author_list(&self) -> (r: Vec<String>)
        ensures
            strings_view(r@) == self.authors_view(),
    {
        let n = name_set_len(&self.authors);
        let mut r: Vec<String> = Vec::new();
        let mut i: usize = 0;
        while i < n
            invariant
                n == self.authors_view().len(),
                i <= n,
                r@.len() == i,
                strings_view(r@) == self.authors_view().subrange(0, i as int),
            decreases n - i,
        {
            let ghost old_r = r@;
            let name = match name_set_get(&self.authors, i) {
                Some(name) => name.clone(),
                None => String::new(),
            };
            r.push(name);
            proof {
                let av = self.authors_view();
                assert forall|j: int| 0 <= j < r@.len() implies strings_view(r@)[j] == av.subrange(0, i + 1)[j] by {
                    if j < i {
                        assert(strings_view(old_r)[j] == av.subrange(0, i as int)[j]);
                    }
                }
                assert(strings_view(r@) =~= av.subrange(0, i + 1));
            }
            i = i + 1;
        }
        assert(self.authors_view().subrange(0, n as int) =~= self.authors_view());
        r
    }

    /// The entries sorted for rendering: by the rank of their group in
    /// `group_order`, unknown groups last, ties in insertion order. The state
    /// itself is left as it is.
    pub fn render_view(&self, group_order: &IndexSet<String>) -> (r: Vec<RenderedChange>)
        ensures
            rendered_view(r@) == sorted_by_group(self.changes_view(), name_items(*group_order)),
    {
        let mut sorted = ReleaseStateImpl { changes: change_map_clone(&self.changes), authors: name_set_new() };
        change_map_sort_by_group(&mut sorted.changes, group_order);
        sorted.entries()
    }
}

impl Default for ReleaseStateImpl {
    fn default() -> (r: Self)
        ensures
            r.wf(),
            r.changes_view() == Seq::<EntryView>::empty(),
            r.authors_view() == Seq::<Seq<char>>::empty(),
    {
        ReleaseStateImpl::new()
    }
}

impl ReleaseStateImpl {
    /// The state as plain values for a renderer: every line, in insertion
    /// order, with all its pull requests, and the authors in order. The state
    /// is left as it is.
    pub fn to_tera_ctx(&self) -> (r: RenderContext)
        ensures
            rendered_view(r.changes@) == self.changes_view(),
            strings_view(r.authors@) == self.authors_view(),
    {
        RenderContext { changes: self.entries(), authors: self.author_list() }
    }
}

/// Relies on `Clone` for `IndexMap`: the copy holds the same entries in the
/// same order (keys and numbers cloned one for one).
#[verifier::external_body]
fn change_map_clone(m: &IndexMap<Change, ChangeMeta>) -> (r: IndexMap<Change, ChangeMeta>)
    ensures
        change_entries(r) == change_entries(*m),
{
    m.clone()
}

} // verus!
