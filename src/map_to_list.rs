//! The persisted form of the change map: one flat record per entry, holding
//! the key's fields and the value's field side by side, in map order.

use vstd::prelude::*;

use crate::one_or_many::{
    dedup, wire_ids, wire_shape_ok, OneOrMany, OneOrManyImpl, StateError,
};
use crate::state::{
    entries_wf, entry_key, index_of_key, overwrite, strings_view, ChangeMeta, Change, EntryView,
    ReleaseStateImpl,
};

verus! {

/// One persisted entry: `message`, `group` and `pr` at the same level. A
/// field that the file lacks is `None`.
#[derive(Clone, Debug)]
pub struct FlatTuple {
    pub message: Option<String>,
    pub group: Option<String>,
    pub pr: Option<OneOrManyImpl>,
}

/// Why the record `r` cannot be loaded, if it cannot.
pub open spec fn record_error(r: FlatTuple) -> Option<StateError> {
    if r.message is None || r.group is None || r.pr is None {
        Some(StateError::CorruptState)
    } else if wire_ids(r.pr.unwrap()) is None {
        Some(StateError::MalformedReference)
    } else {
        None
    }
}

/// The error of the first record of `rs` that cannot be loaded.
pub open spec fn first_error(rs: Seq<FlatTuple>) -> Option<StateError>
    decreases rs.len(),
{
    if rs.len() == 0 {
        None
    } else if first_error(rs.drop_last()) is Some {
        first_error(rs.drop_last())
    } else {
        record_error(rs.last())
    }
}

/// The entry that a loadable record stands for.
pub open spec fn record_entry(r: FlatTuple) -> EntryView {
    (r.message.unwrap()@, r.group.unwrap()@, wire_ids(r.pr.unwrap()).unwrap())
}

/// The entries that loading `rs` in order gives: each record replaces the
/// numbers of an equal key, or adds its key last.
pub open spec fn load_entries(rs: Seq<FlatTuple>) -> Seq<EntryView>
    decreases rs.len(),
{
    if rs.len() == 0 {
        Seq::empty()
    } else {
        let e = record_entry(rs.last());
        overwrite(load_entries(rs.drop_last()), entry_key(e), e.2)
    }
}

/// `r` is how the entry `e` is written.
pub open spec fn encodes(r: FlatTuple, e: EntryView, compact: bool) -> bool {
    &&& r.message matches Some(m) && m@ == e.0
    &&& r.group matches Some(g) && g@ == e.1
    &&& r.pr matches Some(w) && wire_shape_ok(w, e.2, compact)
}

/// The records for the entries of `state`, one for each, in order. With
/// `compact`, a single pull request is written as a bare number.
pub fn serialize(state: &ReleaseStateImpl, compact: bool) -> (r: Vec<FlatTuple>)
    requires
        state.wf(),
    ensures
        r@.len() == state.changes_view().len(),
        forall|i: int| 0 <= i < r@.len() ==> encodes(#[trigger] r@[i], state.changes_view()[i], compact),
{
    let n = state.len();
    let mut r: Vec<FlatTuple> = Vec::new();
    let mut i: usize = 0;
    while i < n
        invariant
            n == state.changes_view().len(),
            state.wf(),
            i <= n,
            r@.len() == i,
            forall|j: int| 0 <= j < i ==> encodes(#[trigger] r@[j], state.changes_view()[j], compact),
        decreases n - i,
    {
        let e = state.entry(i);
        let ids = OneOrMany::from_numbers(&e.pr);
        proof {
            assert(state.changes_view()[i as int].2.no_duplicates());
            crate::one_or_many::lemma_dedup_identity(e.pr@);
        }
        let rec = FlatTuple {
            message: Some(e.message),
            group: Some(e.group),
            pr: Some(ids.to_serializable(compact)),
        };
        r.push(rec);
        i = i + 1;
    }
    r
}

/// Loads the records in file order into a state with no authors. The first
/// record that lacks a field or holds a malformed reference fails the load.
pub fn deserialize(records: &Vec<FlatTuple>) -> (r: Result<ReleaseStateImpl, StateError>)
    ensures
        first_error(records@) matches Some(e) ==> r == Err::<ReleaseStateImpl, StateError>(e),
        first_error(records@) is None ==> (r matches Ok(st) && st.wf()
            && st.changes_view() == load_entries(records@)
            && st.authors_view() == Seq::<Seq<char>>::empty()),
{
    let mut st = ReleaseStateImpl::new();
    let mut i: usize = 0;
    while i < records.len()
        invariant
            i <= records@.len(),
            first_error(records@.subrange(0, i as int)) is None,
            st.wf(),
            st.changes_view() == load_entries(records@.subrange(0, i as int)),
            st.authors_view() == Seq::<Seq<char>>::empty(),
        decreases records.len() - i,
    {
        let ghost pre = records@.subrange(0, i as int + 1);
        proof {
            assert(pre.drop_last() =~= records@.subrange(0, i as int));
            assert(pre.last() == records@[i as int]);
        }
        let rec = &records[i];
        let message = match &rec.message {
            Some(m) => m.clone(),
            None => {
                proof {
                    lemma_first_error_extends(records@, i as int + 1);
                }
                return Err(StateError::CorruptState);
            },
        };
        let group = match &rec.group {
            Some(g) => g.clone(),
            None => {
                proof {
                    lemma_first_error_extends(records@, i as int + 1);
                }
                return Err(StateError::CorruptState);
            },
        };
        let ids = match &rec.pr {
            Some(w) => match OneOrMany::from_serializable(w) {
                Ok(ids) => ids,
                Err(e) => {
                    proof {
                        lemma_first_error_extends(records@, i as int + 1);
                    }
                    return Err(e);
                },
            },
            None => {
                proof {
                    lemma_first_error_extends(records@, i as int + 1);
                }
                return Err(StateError::CorruptState);
            },
        };
        st.overwrite_change(Change { message, group }, ChangeMeta { pr: ids });
        i = i + 1;
    }
    proof {
        assert(records@.subrange(0, records@.len() as int) =~= records@);
    }
    Ok(st)
}

/// An error in a prefix is the error of the whole sequence.
proof fn lemma_first_error_extends(rs: Seq<FlatTuple>, n: int)
    requires
        0 <= n <= rs.len(),
        first_error(rs.subrange(0, n)) is Some,
    ensures
        first_error(rs) == first_error(rs.subrange(0, n)),
    decreases rs.len() - n,
{
    if n < rs.len() {
        let p = rs.subrange(0, n + 1);
        assert(p.drop_last() =~= rs.subrange(0, n));
        lemma_first_error_extends(rs, n + 1);
    } else {
        assert(rs.subrange(0, n) =~= rs);
    }
}

/// Writing well-formed entries and reading the records back gives the same
/// entries, in the same order, whether or not compact mode was on.
pub proof fn lemma_round_trip(es: Seq<EntryView>, records: Seq<FlatTuple>, compact: bool)
    requires
        entries_wf(es),
        records.len() == es.len(),
        forall|i: int| 0 <= i < records.len() ==> encodes(#[trigger] records[i], es[i], compact),
    ensures
        first_error(records) is None,
        load_entries(records) == es,
    decreases es.len(),
{
    if es.len() > 0 {
        let es0 = es.drop_last();
        let rs0 = records.drop_last();
        assert forall|i: int| 0 <= i < rs0.len() implies encodes(#[trigger] rs0[i], es0[i], compact) by {
            assert(encodes(records[i], es[i], compact));
        }
        assert(entries_wf(es0)) by {
            assert forall|i: int, j: int| 0 <= i < j < es0.len() implies entry_key(#[trigger] es0[i]) != entry_key(#[trigger] es0[j]) by {
                assert(entry_key(es[i]) != entry_key(es[j]));
            }
            assert forall|i: int| 0 <= i < es0.len() implies (#[trigger] es0[i]).2.no_duplicates() by {
                assert(es[i].2.no_duplicates());
            }
        }
        lemma_round_trip(es0, rs0, compact);
        let last = es.last();
        let r = records.last();
        assert(encodes(records[records.len() - 1], es[es.len() - 1], compact));
        assert(es[es.len() - 1].2.no_duplicates());
        crate::one_or_many::lemma_dedup_identity(last.2);
        assert(record_error(r) is None);
        assert(record_entry(r) == last);
        assert(index_of_key(es0, entry_key(last)) is None) by {
            assert forall|i: int| 0 <= i < es0.len() implies entry_key(#[trigger] es0[i]) != entry_key(last) by {
                assert(entry_key(es[i]) != entry_key(es[es.len() - 1]));
            }
        }
        assert(es0.push(last) =~= es);
    }
}

/// A single pull request in compact mode is written as the bare number, and
/// that number reads back as the same one-element set.
pub proof fn lemma_compact_round_trip(ids: Seq<u64>, w: OneOrManyImpl)
    requires
        ids.len() == 1,
        wire_shape_ok(w, ids, true),
    ensures
        w == OneOrManyImpl::One(ids[0]),
        wire_ids(w) == Some(ids),
{
    assert(seq![ids[0]] =~= ids);
}

/// Two or more pull requests are written as an array, which reads back as
/// the same set; and a bare number, wherever it was written, reads as the
/// set of that one number.
pub proof fn lemma_leniency(ids: Seq<u64>, w: OneOrManyImpl, compact: bool, x: u64)
    requires
        ids.len() >= 2,
        ids.no_duplicates(),
        wire_shape_ok(w, ids, compact),
    ensures
        w is Many,
        wire_ids(w) == Some(ids),
        wire_ids(OneOrManyImpl::One(x)) == Some(seq![x]),
{
    crate::one_or_many::lemma_dedup_identity(ids);
}

/// Loads a persisted state: its records as `deserialize` does, then its
/// authors, each once, in first-seen order.
pub fn load(records: &Vec<FlatTuple>, authors: &Vec<String>) -> (r: Result<ReleaseStateImpl, StateError>)
    ensures
        first_error(records@) matches Some(e) ==> r == Err::<ReleaseStateImpl, StateError>(e),
        first_error(records@) is None ==> (r matches Ok(st) && st.wf()
            && st.changes_view() == load_entries(records@)
            && st.authors_view() == dedup(strings_view(authors@))),
{
    let mut st = deserialize(records)?;
    let ghost es = st.changes_view();
    let mut i: usize = 0;
    while i < authors.len()
        invariant
            i <= authors@.len(),
            st.wf(),
            st.changes_view() == es,
            st.authors_view() == dedup(strings_view(authors@.subrange(0, i as int))),
        decreases authors.len() - i,
    {
        proof {
            let sub = strings_view(authors@.subrange(0, i as int + 1));
            assert(sub.drop_last() =~= strings_view(authors@.subrange(0, i as int)));
        }
        st.record_author(authors[i].clone());
        i = i + 1;
    }
    proof {
        assert(authors@.subrange(0, authors@.len() as int) =~= authors@);
    }
    Ok(st)
}

/// The persisted form of `state`: its records and its authors.
pub fn save(state: &ReleaseStateImpl, compact: bool) -> (r: (Vec<FlatTuple>, Vec<String>))
    requires
        state.wf(),
    ensures
        r.0@.len() == state.changes_view().len(),
        forall|i: int| 0 <= i < r.0@.len() ==> encodes(#[trigger] r.0@[i], state.changes_view()[i], compact),
        strings_view(r.1@) == state.authors_view(),
{
    (serialize(state, compact), state.author_list())
}

/// Saving a state and loading what was saved gives back its entries and its
/// authors, in their order.
pub proof fn lemma_save_load(es: Seq<EntryView>, authors: Seq<Seq<char>>, records: Seq<FlatTuple>, saved: Seq<Seq<char>>, compact: bool)
    requires
        entries_wf(es),
        authors.no_duplicates(),
        records.len() == es.len(),
        forall|i: int| 0 <= i < records.len() ==> encodes(#[trigger] records[i], es[i], compact),
        saved == authors,
    ensures
        first_error(records) is None,
        load_entries(records) == es,
        dedup(saved) == authors,
{
    lemma_round_trip(es, records, compact);
    crate::one_or_many::lemma_dedup_identity(authors);
}

} // verus!
