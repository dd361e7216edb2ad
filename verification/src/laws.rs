use vstd::prelude::*;

use vstd::seq_lib::{commutative_foldr, lemma_fold_right_permutation};

use crate::coordinator::outcome_matches;
use crate::tree::{
    frontier_total, lemma_frontier_total_concat, lemma_subtree_total_unfold, node_subdirs,
    subtree_total, wf_nodes, DirNode, ListingResult, ReadDirError, RootEntry,
};

verus! {

/// Law: on one and the same tree, any two results that meet the traversal
/// contract are equal. The coordinated traversal and the sequential counter
/// both ensure `outcome_matches`, so for any directory tree the two
/// strategies report identical totals, and they fail on exactly the same
/// roots.
pub proof fn lemma_strategies_agree(
    nodes: Seq<DirNode>,
    root: RootEntry,
    r1: Result<u64, ReadDirError>,
    r2: Result<u64, ReadDirError>,
)
    requires
        outcome_matches(nodes, root, r1),
        outcome_matches(nodes, root, r2),
    ensures
        r1 == r2,
{
}

/// Law: traversing an unchanged tree twice yields the same outcome both
/// times. Classification is a function of the tree alone, so any two runs
/// that meet the traversal contract must report the same total.
pub proof fn lemma_traversal_idempotent(
    nodes: Seq<DirNode>,
    root: RootEntry,
    first: Result<u64, ReadDirError>,
    second: Result<u64, ReadDirError>,
)
    requires
        outcome_matches(nodes, root, first),
        outcome_matches(nodes, root, second),
    ensures
        first == second,
{
    lemma_strategies_agree(nodes, root, first, second);
}

/// Law: an unreadable directory is isolated. It contributes no files and
/// hides no pending work from the walk, so the totals of its readable
/// siblings, and of every later round, are unaffected by its failure.
pub proof fn lemma_unreadable_contributes_nothing(nodes: Seq<DirNode>, i: int)
    requires
        wf_nodes(nodes),
        0 <= i < nodes.len(),
        nodes[i] is Unreadable,
    ensures
        subtree_total(nodes, i) == 0,
        node_subdirs(nodes[i]) == Seq::<usize>::empty(),
{
    lemma_subtree_total_unfold(nodes, i);
    assert(node_subdirs(nodes[i]) =~= Seq::<usize>::empty());
    assert(frontier_total(nodes, Seq::<usize>::empty()) == 0);
}

/// The file count one listing result contributes when merged; a failed
/// listing contributes none.
pub open spec fn result_count(r: Option<ListingResult>) -> nat {
    match r {
        Some(l) => l.file_count as nat,
        None => 0,
    }
}

/// The subdirectories one listing result adds to the frontier when merged; a
/// failed listing adds none.
pub open spec fn result_subdirs(r: Option<ListingResult>) -> Seq<usize> {
    match r {
        Some(l) => l.subdirs@,
        None => Seq::empty(),
    }
}

/// The files one round's results add to the running total, merged in the
/// order given.
pub open spec fn round_total(rs: Seq<Option<ListingResult>>) -> nat
    decreases rs.len(),
{
    if rs.len() == 0 {
        0
    } else {
        round_total(rs.drop_last()) + result_count(rs.last())
    }
}

/// The subdirectories one round's results append to the frontier, in the
/// order given.
pub open spec fn round_subdirs(rs: Seq<Option<ListingResult>>) -> Seq<usize>
    decreases rs.len(),
{
    if rs.len() == 0 {
        Seq::empty()
    } else {
        round_subdirs(rs.drop_last()) + result_subdirs(rs.last())
    }
}

/// The files still owed beneath the subdirectories that one round's results
/// discovered, summed result by result.
pub open spec fn round_pending_total(nodes: Seq<DirNode>, rs: Seq<Option<ListingResult>>) -> nat
    decreases rs.len(),
{
    if rs.len() == 0 {
        0
    } else {
        round_pending_total(nodes, rs.drop_last()) + frontier_total(
            nodes,
            result_subdirs(rs.last()),
        )
    }
}

proof fn lemma_round_total_fold(
    rs: Seq<Option<ListingResult>>,
    g: spec_fn(Option<ListingResult>, nat) -> nat,
    b: nat,
)
    requires
        forall|r: Option<ListingResult>, a: nat| #[trigger] g(r, a) == result_count(r) + a,
    ensures
        rs.fold_right(g, b) == round_total(rs) + b,
    decreases rs.len(),
{
    if rs.len() > 0 {
        lemma_round_total_fold(rs.drop_last(), g, g(rs.last(), b));
    }
}

proof fn lemma_round_pending_fold(
    nodes: Seq<DirNode>,
    rs: Seq<Option<ListingResult>>,
    g: spec_fn(Option<ListingResult>, nat) -> nat,
    b: nat,
)
    requires
        forall|r: Option<ListingResult>, a: nat| #[trigger] g(r, a) == frontier_total(
            nodes,
            result_subdirs(r),
        ) + a,
    ensures
        rs.fold_right(g, b) == round_pending_total(nodes, rs) + b,
    decreases rs.len(),
{
    if rs.len() > 0 {
        lemma_round_pending_fold(nodes, rs.drop_last(), g, g(rs.last(), b));
    }
}

/// The work owed beneath a round's appended subdirectories is the sum, result
/// by result, of the work owed beneath each result's subdirectories.
proof fn lemma_round_subdirs_total(nodes: Seq<DirNode>, rs: Seq<Option<ListingResult>>)
    ensures
        frontier_total(nodes, round_subdirs(rs)) == round_pending_total(nodes, rs),
    decreases rs.len(),
{
    if rs.len() == 0 {
        assert(round_subdirs(rs) =~= Seq::<usize>::empty());
        assert(frontier_total(nodes, Seq::<usize>::empty()) == 0);
    } else {
        lemma_round_subdirs_total(nodes, rs.drop_last());
        lemma_frontier_total_concat(nodes, round_subdirs(rs.drop_last()), result_subdirs(rs.last()));
    }
}

/// Law: merging one round's listing results in any completion order adds the
/// same number of files to the total and leaves the same amount of work owed
/// beneath the discovered subdirectories. Summation and concatenation are
/// commutative in the merge, so permuting the completion order of same-round
/// listings never changes the final total of the traversal.
pub proof fn lemma_round_merge_order_irrelevant(
    nodes: Seq<DirNode>,
    rs1: Seq<Option<ListingResult>>,
    rs2: Seq<Option<ListingResult>>,
)
    requires
        rs1.to_multiset() == rs2.to_multiset(),
    ensures
        round_total(rs1) == round_total(rs2),
        frontier_total(nodes, round_subdirs(rs1)) == frontier_total(nodes, round_subdirs(rs2)),
{
    let count_fold: spec_fn(Option<ListingResult>, nat) -> nat = |r: Option<ListingResult>, a: nat|
        (result_count(r) + a) as nat;
    assert(commutative_foldr(count_fold));
    lemma_round_total_fold(rs1, count_fold, 0);
    lemma_round_total_fold(rs2, count_fold, 0);
    lemma_fold_right_permutation(rs1, rs2, count_fold, 0nat);

    let pending_fold: spec_fn(Option<ListingResult>, nat) -> nat = |r: Option<ListingResult>, a: nat|
        (frontier_total(nodes, result_subdirs(r)) + a) as nat;
    assert(commutative_foldr(pending_fold));
    lemma_round_pending_fold(nodes, rs1, pending_fold, 0);
    lemma_round_pending_fold(nodes, rs2, pending_fold, 0);
    lemma_fold_right_permutation(rs1, rs2, pending_fold, 0nat);
    lemma_round_subdirs_total(nodes, rs1);
    lemma_round_subdirs_total(nodes, rs2);
}

} // verus!
