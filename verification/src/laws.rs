//! What holds of the two passes, whatever the tree.

use vstd::prelude::*;
use crate::ast::{BranchView, EntryView, ValueView};
use crate::index::{lemma_with_pair_one_to_one, no_pairs, one_to_one, with_pair};
use crate::resolver::{
    handle_key, insert_all, matches_target, placeholder, resolve_handle, rewrite_branch,
    rewrite_entry, rewrite_value, walk_branch,
};

verus! {

/// No two of the pairs share a path, and no two share a handle.
pub open spec fn distinct_pairs(added: Seq<(Seq<char>, i64)>) -> bool {
    forall|i: int, j: int|
        0 <= i < j < added.len() ==> (#[trigger] added[i]).0 != (#[trigger] added[j]).0
            && added[i].1 != added[j].1
}

/// After pairs with distinct paths and distinct handles are inserted
/// into a one-to-one index, the index is one-to-one, it maps the path of
/// each to its handle, and each handle resolves to its path.
pub proof fn lemma_inserted_pairs_found(
    pairs: Map<Seq<char>, i64>,
    added: Seq<(Seq<char>, i64)>,
    k: int,
)
    requires
        one_to_one(pairs),
        distinct_pairs(added),
        0 <= k < added.len(),
    ensures
        one_to_one(insert_all(pairs, added)),
        insert_all(pairs, added).contains_pair(added[k].0, added[k].1),
        resolve_handle(insert_all(pairs, added), added[k].1) == added[k].0,
    decreases added.len(),
{
    let earlier = added.drop_last();
    let last = added.last();
    let before = insert_all(pairs, earlier);
    lemma_insert_all_one_to_one(pairs, earlier);
    lemma_with_pair_one_to_one(before, last.0, last.1);
    let after = insert_all(pairs, added);
    assert(after == with_pair(before, last.0, last.1));
    if k < added.len() - 1 {
        assert(distinct_pairs(earlier)) by {
            assert forall|i: int, j: int| 0 <= i < j < earlier.len() implies (
            #[trigger] earlier[i]).0 != (#[trigger] earlier[j]).0 && earlier[i].1
                != earlier[j].1 by {
                assert(earlier[i] == added[i] && earlier[j] == added[j]);
            }
        }
        lemma_inserted_pairs_found(pairs, earlier, k);
        assert(earlier[k] == added[k]);
        assert(added[k].0 != added[added.len() - 1].0 && added[k].1 != added[added.len() - 1].1);
    }
    assert(after.contains_pair(added[k].0, added[k].1));
}

/// Inserting pairs keeps an index one-to-one.
pub proof fn lemma_insert_all_one_to_one(pairs: Map<Seq<char>, i64>, added: Seq<(Seq<char>, i64)>)
    requires
        one_to_one(pairs),
    ensures
        one_to_one(insert_all(pairs, added)),
    decreases added.len(),
{
    if added.len() > 0 {
        lemma_insert_all_one_to_one(pairs, added.drop_last());
        lemma_with_pair_one_to_one(
            insert_all(pairs, added.drop_last()),
            added.last().0,
            added.last().1,
        );
    }
}

/// The index is a bijection on what the first pass inserts: where the
/// nodes of a tree declare distinct handles under distinct paths, the
/// index built from it alone maps the path of each declaring node to its
/// handle, and resolves the handle back to that path.
pub proof fn lemma_index_bijection(parent: Seq<char>, branch: BranchView, k: int)
    requires
        distinct_pairs(walk_branch(parent, branch).inserted),
        0 <= k < walk_branch(parent, branch).inserted.len(),
    ensures
        ({
            let inserted = walk_branch(parent, branch).inserted;
            let pairs = insert_all(no_pairs(), inserted);
            &&& one_to_one(pairs)
            &&& pairs.dom().contains(inserted[k].0)
            &&& pairs[inserted[k].0] == inserted[k].1
            &&& resolve_handle(pairs, inserted[k].1) == inserted[k].0
        }),
{
    lemma_inserted_pairs_found(no_pairs(), walk_branch(parent, branch).inserted, k);
}

/// Whether every handle declaration of an entry holds zeros only.
pub open spec fn entry_cleared(entry: EntryView) -> bool
    decreases entry, 0int,
{
    match entry {
        EntryView::Branch(child) => branch_cleared(child),
        EntryView::Key(_) => true,
        EntryView::KeyValue { key, value } => key == handle_key() ==> match value {
            ValueView::IntegerList(cells) => forall|j: int|
                0 <= j < cells.len() ==> #[trigger] cells[j] == 0,
            _ => true,
        },
    }
}

/// Whether every handle declaration in the subtree of a node that holds
/// cells holds zeros only.
pub open spec fn branch_cleared(branch: BranchView) -> bool
    decreases branch, 1int,
{
    forall|i: int| 0 <= i < branch.entries.len() ==> entry_cleared(#[trigger] branch.entries[i])
}

/// After the second pass every handle declaration that holds cells holds
/// zeros only, whatever it held before.
pub proof fn lemma_handles_cleared(
    pairs: Map<Seq<char>, i64>,
    branch: BranchView,
    targets: Seq<Seq<char>>,
)
    ensures
        branch_cleared(rewrite_branch(pairs, branch, targets)),
    decreases branch,
{
    let after = rewrite_branch(pairs, branch, targets);
    assert forall|i: int| 0 <= i < after.entries.len() implies entry_cleared(
        #[trigger] after.entries[i],
    ) by {
        assert(after.entries[i] == rewrite_entry(pairs, branch.entries[i], targets));
        match branch.entries[i] {
            EntryView::Branch(child) => {
                lemma_handles_cleared(pairs, child, targets);
            },
            _ => {},
        }
    }
}

/// The second pass is selective. The cells of a property whose name
/// holds a target, and is not the handle key, become as many paths; the
/// value of a property whose name holds no target, and is not the handle
/// key, stays as it is.
pub proof fn lemma_selective_rewrite(
    pairs: Map<Seq<char>, i64>,
    key: Seq<char>,
    value: ValueView,
    targets: Seq<Seq<char>>,
)
    requires
        key != handle_key(),
    ensures
        matches_target(key, targets) ==> (value matches ValueView::IntegerList(cells)
            ==> rewrite_value(pairs, key, value, targets) matches ValueView::StringList(paths)
            && paths.len() == cells.len()),
        !matches_target(key, targets) ==> rewrite_value(pairs, key, value, targets) == value,
        !(value is IntegerList) ==> rewrite_value(pairs, key, value, targets) == value,
{
}

/// A handle that the index pairs with no path resolves to the
/// placeholder, which is not empty.
pub proof fn lemma_fallback_on_miss(pairs: Map<Seq<char>, i64>, handle: i64)
    requires
        forall|p: Seq<char>| !pairs.contains_pair(p, handle),
    ensures
        resolve_handle(pairs, handle) == placeholder(),
        placeholder().len() == 11,
{
}

} // verus!
