use vstd::prelude::*;

use crate::tree::{
    frontier_in_bounds, frontier_total, frontier_weight, lemma_frontier_total_concat,
    lemma_frontier_total_singleton, lemma_frontier_total_skip_step, lemma_frontier_weight_concat,
    lemma_frontier_weight_singleton, lemma_frontier_weight_skip_step, lemma_subtree_total_unfold,
    lemma_subtree_weight_unfold, node_subdirs, node_wf, subtree_total, wf_nodes, DirNode,
    ListingResult, ReadDirError, RootEntry, Tree,
};

verus! {

/// What a traversal of `root` must report: one file when the root is itself a
/// file, the recursive file total when the root is a readable directory, and
/// an error when the root directory cannot be listed.
pub open spec fn expected_outcome(nodes: Seq<DirNode>, root: RootEntry) -> Result<
    nat,
    ReadDirError,
> {
    match root {
        RootEntry::File => Ok(1 as nat),
        RootEntry::Dir(p) => if nodes[p as int] is Listed {
            Ok(subtree_total(nodes, p as int))
        } else {
            Err(ReadDirError)
        },
    }
}

/// A traversal result agrees with what the tree owes for `root`.
pub open spec fn outcome_matches(
    nodes: Seq<DirNode>,
    root: RootEntry,
    r: Result<u64, ReadDirError>,
) -> bool {
    match expected_outcome(nodes, root) {
        Ok(m) => r matches Ok(n) && n as nat == m,
        Err(_) => r == Err::<u64, ReadDirError>(ReadDirError),
    }
}

/// Owns the frontier of pending directories and the running file total.
/// Listing work is handed out round by round: `begin_round` snapshots the
/// whole frontier, the caller obtains one listing result per snapshotted
/// directory (in any completion order), and `merge_result` folds each result
/// back in. Directories discovered during a round join the frontier and are
/// processed in a later round, never in the current one.
pub struct TraversalCoordinator {
    /// Directories discovered but not yet dispatched for listing.
    pub frontier: Vec<usize>,
    /// Files counted so far; grows monotonically as results are merged.
    pub total: u64,
}

impl TraversalCoordinator {
    /// Seed the frontier with the root directory; nothing is counted yet.
    pub fn new(root: usize) -> (c: TraversalCoordinator)
        ensures
            c.frontier@ =~= seq![root],
            c.total == 0,
    {
        let mut frontier: Vec<usize> = Vec::new();
        frontier.push(root);
        TraversalCoordinator { frontier, total: 0 }
    }

    /// Snapshot the current round: every directory now pending, leaving the
    /// frontier empty for the subdirectories the round will discover. The
    /// running total is untouched.
    pub fn begin_round(&mut self) -> (round: Vec<usize>)
        ensures
            round@ == old(self).frontier@,
            final(self).frontier@.len() == 0,
            final(self).total == old(self).total,
    {
        let round = self.frontier.split_off(0);
        assert(old(self).frontier@.subrange(0, old(self).frontier@.len() as int) =~= old(
            self,
        ).frontier@);
        round
    }

    /// Merge one listing result: add its file count to the total and append
    /// its subdirectories to the frontier. `None` records a directory that
    /// could not be listed; it contributes zero files and no subdirectories,
    /// and the traversal goes on.
    pub fn merge_result(&mut self, r: Option<&ListingResult>)
        requires
            r matches Some(l) ==> old(self).total + l.file_count <= u64::MAX,
        ensures
            match r {
                Some(l) => final(self).total == old(self).total + l.file_count
                    && final(self).frontier@ == old(self).frontier@ + l.subdirs@,
                None => final(self).total == old(self).total
                    && final(self).frontier@ == old(self).frontier@,
            },
    {
        match r {
            Some(l) => {
                self.total = self.total + l.file_count;
                let mut k: usize = 0;
                while k < l.subdirs.len()
                    invariant
                        k <= l.subdirs@.len(),
                        self.frontier@ == old(self).frontier@ + l.subdirs@.take(k as int),
                        self.total == old(self).total + l.file_count,
                    decreases l.subdirs@.len() - k,
                {
                    self.frontier.push(l.subdirs[k]);
                    assert(old(self).frontier@ + l.subdirs@.take(k as int + 1) =~= (old(
                        self,
                    ).frontier@ + l.subdirs@.take(k as int)).push(l.subdirs@[k as int]));
                    k = k + 1;
                }
                assert(l.subdirs@.take(l.subdirs@.len() as int) =~= l.subdirs@);
            },
            None => {
                assert(self.frontier@ == old(self).frontier@);
            },
        }
    }

    /// The traversal is complete exactly when no directory is pending.
    pub fn is_done(&self) -> (r: bool)
        ensures
            r == (self.frontier@.len() == 0),
    {
        self.frontier.len() == 0
    }

    /// The files counted so far; the final total once `is_done` holds.
    pub fn total(&self) -> (r: u64)
        ensures
            r == self.total,
    {
        self.total
    }

    /// Count every file under `root` with level-synchronous rounds: each round
    /// lists every directory of the current frontier, merges the results, and
    /// only then starts on the subdirectories the round discovered. Fails
    /// exactly when the root itself is an unlistable directory; a plain-file
    /// root counts as one file with no listing dispatched.
    pub fn traverse(tree: &Tree, root: RootEntry) -> (r: Result<u64, ReadDirError>)
        requires
            tree.wf(),
            root matches RootEntry::Dir(p) ==> p < tree.nodes@.len() && subtree_total(
                tree.nodes@,
                p as int,
            ) <= u64::MAX,
        ensures
            outcome_matches(tree.nodes@, root, r),
    {
        let start: usize = match root {
            RootEntry::File => {
                return Ok(1);
            },
            RootEntry::Dir(p) => p,
        };
        if tree.list(start).is_none() {
            return Err(ReadDirError);
        }
        let ghost nodes = tree.nodes@;
        let ghost target = subtree_total(nodes, start as int);
        let mut coord = TraversalCoordinator::new(start);
        proof {
            lemma_frontier_total_singleton(nodes, start);
            lemma_frontier_weight_singleton(nodes, start);
        }
        while !coord.is_done()
            invariant
                wf_nodes(nodes),
                nodes == tree.nodes@,
                frontier_in_bounds(nodes, coord.frontier@),
                coord.total + frontier_total(nodes, coord.frontier@) == target,
                target <= u64::MAX,
            decreases frontier_weight(nodes, coord.frontier@),
        {
            let ghost weight0 = frontier_weight(nodes, coord.frontier@);
            let round = coord.begin_round();
            assert(frontier_total(nodes, Seq::<usize>::empty()) == 0);
            assert(frontier_weight(nodes, Seq::<usize>::empty()) == 0);
            assert(round@.skip(0) =~= round@);
            let mut j: usize = 0;
            while j < round.len()
                invariant
                    wf_nodes(nodes),
                    nodes == tree.nodes@,
                    j <= round@.len(),
                    frontier_in_bounds(nodes, round@),
                    frontier_in_bounds(nodes, coord.frontier@),
                    coord.total + frontier_total(nodes, round@.skip(j as int)) + frontier_total(
                        nodes,
                        coord.frontier@,
                    ) == target,
                    frontier_weight(nodes, round@.skip(j as int)) + frontier_weight(
                        nodes,
                        coord.frontier@,
                    ) + j == weight0,
                    target <= u64::MAX,
                decreases round@.len() - j,
            {
                let p = round[j];
                proof {
                    lemma_frontier_total_skip_step(nodes, round@, j as int);
                    lemma_frontier_weight_skip_step(nodes, round@, j as int);
                    lemma_subtree_total_unfold(nodes, p as int);
                    lemma_subtree_weight_unfold(nodes, p as int);
                    assert(node_wf(nodes[p as int], p as int, nodes.len() as int));
                }
                let ghost frontier0 = coord.frontier@;
                let listing = tree.list(p);
                coord.merge_result(listing);
                proof {
                    match listing {
                        Some(l) => {
                            assert(l.subdirs@ == node_subdirs(nodes[p as int]));
                            lemma_frontier_total_concat(nodes, frontier0, l.subdirs@);
                            lemma_frontier_weight_concat(nodes, frontier0, l.subdirs@);
                        },
                        None => {
                            assert(node_subdirs(nodes[p as int]) =~= Seq::<usize>::empty());
                            assert(frontier_total(nodes, Seq::<usize>::empty()) == 0);
                            assert(frontier_weight(nodes, Seq::<usize>::empty()) == 0);
                        },
                    }
                }
                j = j + 1;
            }
            assert(round@.skip(round@.len() as int) =~= Seq::<usize>::empty());
            assert(frontier_total(nodes, Seq::<usize>::empty()) == 0);
            assert(frontier_weight(nodes, Seq::<usize>::empty()) == 0);
        }
        assert(frontier_total(nodes, coord.frontier@) == 0);
        Ok(coord.total())
    }
}

} // verus!
