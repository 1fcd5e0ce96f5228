//! The two-way index between node paths and handles.
//!
//! The index is a `bimap::BiHashMap<String, i64>`. Verus does not look
//! inside it: what it holds is named by [`index_pairs`], and the three
//! operations used on it are stated here without proof.

use vstd::prelude::*;
use bimap::BiHashMap;

verus! {

/// `bimap::BiHashMap`, carried through as an opaque value.
#[verifier::external_type_specification]
#[verifier::external_body]
#[verifier::reject_recursive_types(L)]
#[verifier::reject_recursive_types(R)]
#[verifier::reject_recursive_types(LS)]
#[verifier::reject_recursive_types(RS)]
pub struct ExBiHashMap<L, R, LS, RS>(BiHashMap<L, R, LS, RS>);

/// The pairs that an index holds, as a map from path to handle.
pub uninterp spec fn index_pairs(index: BiHashMap<String, i64>) -> Map<Seq<char>, i64>;

/// An index without pairs.
pub open spec fn no_pairs() -> Map<Seq<char>, i64> {
    Map::empty()
}

/// The pairs after `path` and `handle` are inserted: any pair with this
/// path and any pair with this handle leave, and the new pair enters.
pub open spec fn with_pair(pairs: Map<Seq<char>, i64>, path: Seq<char>, handle: i64) -> Map<
    Seq<char>,
    i64,
> {
    Map::new(
        |p: Seq<char>| p == path || (pairs.dom().contains(p) && pairs[p] != handle),
        |p: Seq<char>|
            if p == path {
                handle
            } else {
                pairs[p]
            },
    )
}

/// No two paths share a handle.
pub open spec fn one_to_one(pairs: Map<Seq<char>, i64>) -> bool {
    forall|p: Seq<char>, q: Seq<char>|
        pairs.dom().contains(p) && pairs.dom().contains(q) && #[trigger] pairs[p] == #[trigger] pairs[q]
            ==> p == q
}

/// `bimap::BiHashMap::new`: the new index holds no pair.
#[verifier::external_body]
pub(crate) fn empty_index() -> (fresh: BiHashMap<String, i64>)
    ensures
        index_pairs(fresh) == no_pairs(),
{
    BiHashMap::new()
}

/// `bimap::BiHashMap::insert`: afterwards the index holds the new pair,
/// and of the earlier pairs those that share neither its path nor its
/// handle. What the call reports as overwritten is dropped.
#[verifier::external_body]
pub(crate) fn insert_pair(index: &mut BiHashMap<String, i64>, path: String, handle: i64)
    ensures
        index_pairs(*final(index)) == with_pair(index_pairs(*old(index)), path@, handle),
{
    index.insert(path, handle);
}

/// `bimap::BiHashMap::get_by_right`: the path paired with `handle`, which
/// is the only one, or `None` where no pair has this handle.
#[verifier::external_body]
pub(crate) fn path_of<'a>(index: &'a BiHashMap<String, i64>, handle: i64) -> (found: Option<
    &'a String,
>)
    ensures
        match found {
            Some(path) => index_pairs(*index).contains_pair(path@, handle) && forall|
                other: Seq<char>,
            |
                index_pairs(*index).contains_pair(other, handle) ==> other == path@,
            None => forall|other: Seq<char>| !index_pairs(*index).contains_pair(other, handle),
        },
{
    index.get_by_right(&handle)
}

/// Inserting a pair keeps an index one-to-one.
pub proof fn lemma_with_pair_one_to_one(pairs: Map<Seq<char>, i64>, path: Seq<char>, handle: i64)
    requires
        one_to_one(pairs),
    ensures
        one_to_one(with_pair(pairs, path, handle)),
        with_pair(pairs, path, handle).contains_pair(path, handle),
{
}

} // verus!
