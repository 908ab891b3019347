//! An insertion-ordered index of string identifiers, backed by
//! `indexmap::IndexSet`.

use vstd::prelude::*;

verus! {

#[verifier::external_type_specification]
#[verifier::external_body]
#[verifier::reject_recursive_types(T)]
#[verifier::reject_recursive_types(S)]
pub struct ExIndexSet<T, S>(indexmap::IndexSet<T, S>);

/// The identifiers held by an index, in insertion order.
pub uninterp spec fn index_entries(s: indexmap::IndexSet<String>) -> Seq<Seq<char>>;

/// Relies on `IndexSet::new`: a new set is empty.
#[verifier::external_body]
pub(crate) fn new_index() -> (r: indexmap::IndexSet<String>)
    ensures
        index_entries(r) == Seq::<Seq<char>>::empty(),
{
    indexmap::IndexSet::new()
}

/// Relies on `IndexSet::get_index_of`: the position of an equal item, if any.
#[verifier::external_body]
pub(crate) fn index_of(s: &indexmap::IndexSet<String>, id: &String) -> (r: Option<usize>)
    ensures
        match r {
            Some(i) => i < index_entries(*s).len() && index_entries(*s)[i as int] == id@,
            None => !index_entries(*s).contains(id@),
        },
{
    s.get_index_of(id)
}

/// Relies on `IndexSet::insert_full`: an item already present keeps its
/// position and the set is unchanged; a new item is appended at the end.
#[verifier::external_body]
pub(crate) fn insert_full(s: &mut indexmap::IndexSet<String>, id: String) -> (r: (usize, bool))
    ensures
        index_entries(*old(s)).contains(id@) ==> {
            &&& !r.1
            &&& index_entries(*final(s)) == index_entries(*old(s))
            &&& r.0 < index_entries(*old(s)).len()
            &&& index_entries(*old(s))[r.0 as int] == id@
        },
        !index_entries(*old(s)).contains(id@) ==> {
            &&& r.1
            &&& r.0 == index_entries(*old(s)).len()
            &&& index_entries(*final(s)) == index_entries(*old(s)).push(id@)
        },
{
    s.insert_full(id)
}

} // verus!
