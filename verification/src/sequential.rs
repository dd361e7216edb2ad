use vstd::prelude::*;

use crate::coordinator::outcome_matches;
use crate::tree::{
    frontier_in_bounds, frontier_total, frontier_weight, lemma_frontier_total_concat,
    lemma_frontier_total_skip_step, lemma_frontier_weight_concat, lemma_frontier_weight_skip_step,
    lemma_subtree_total_unfold, lemma_subtree_weight_unfold, node_subdirs, node_wf, subtree_total,
    wf_nodes, ReadDirError, RootEntry, Tree,
};

verus! {

/// Count every file under `root` with a single-threaded breadth-first walk:
/// one queue of pending directories, one listing at a time. The
/// classification and skip-on-error policy are the same as the coordinated
/// traversal's, and so is the reported total. Fails exactly when the root
/// itself is an unlistable directory; a plain-file root counts as one file.
pub fn count_files(tree: &Tree, root: RootEntry) -> (r: Result<u64, ReadDirError>)
    requires
        tree.wf(),
        root matches RootEntry::Dir(p) ==> p < tree.nodes@.len() && subtree_total(
            tree.nodes@,
            p as int,
        ) <= u64::MAX,
    ensures
        outcome_matches(tree.nodes@, root, r),
{
    let start: usize = match root {
        RootEntry::File => {
            return Ok(1);
        },
        RootEntry::Dir(p) => p,
    };
    if tree.list(start).is_none() {
        return Err(ReadDirError);
    }
    let ghost nodes = tree.nodes@;
    let ghost target = subtree_total(nodes, start as int);
    let mut queue: Vec<usize> = Vec::new();
    queue.push(start);
    let mut head: usize = 0;
    let mut total: u64 = 0;
    proof {
        assert(queue@.skip(0) =~= seq![start]);
        assert(seq![start].drop_last() =~= Seq::<usize>::empty());
        assert(frontier_total(nodes, Seq::<usize>::empty()) == 0);
        assert(frontier_weight(nodes, Seq::<usize>::empty()) == 0);
    }
    while head < queue.len()
        invariant
            wf_nodes(nodes),
            nodes == tree.nodes@,
            head <= queue@.len(),
            frontier_in_bounds(nodes, queue@),
            total + frontier_total(nodes, queue@.skip(head as int)) == target,
            target <= u64::MAX,
        decreases frontier_weight(nodes, queue@.skip(head as int)),
    {
        let ghost pending0 = queue@.skip(head as int);
        let p = queue[head];
        proof {
            lemma_frontier_total_skip_step(nodes, queue@, head as int);
            lemma_frontier_weight_skip_step(nodes, queue@, head as int);
            lemma_subtree_total_unfold(nodes, p as int);
            lemma_subtree_weight_unfold(nodes, p as int);
            assert(node_wf(nodes[p as int], p as int, nodes.len() as int));
        }
        head = head + 1;
        match tree.list(p) {
            Some(l) => {
                assert(l.subdirs@ == node_subdirs(nodes[p as int]));
                total = total + l.file_count;
                let ghost queue0 = queue@;
                let mut k: usize = 0;
                while k < l.subdirs.len()
                    invariant
                        k <= l.subdirs@.len(),
                        queue@ == queue0 + l.subdirs@.take(k as int),
                    decreases l.subdirs@.len() - k,
                {
                    queue.push(l.subdirs[k]);
                    assert(queue0 + l.subdirs@.take(k as int + 1) =~= (queue0 + l.subdirs@.take(
                        k as int,
                    )).push(l.subdirs@[k as int]));
                    k = k + 1;
                }
                proof {
                    assert(l.subdirs@.take(l.subdirs@.len() as int) =~= l.subdirs@);
                    assert(queue@ == queue0 + l.subdirs@);
                    assert(queue@.skip(head as int) =~= queue0.skip(head as int) + l.subdirs@);
                    lemma_frontier_total_concat(nodes, queue0.skip(head as int), l.subdirs@);
                    lemma_frontier_weight_concat(nodes, queue0.skip(head as int), l.subdirs@);
                }
            },
            None => {
                proof {
                    assert(node_subdirs(nodes[p as int]) =~= Seq::<usize>::empty());
                    assert(frontier_total(nodes, Seq::<usize>::empty()) == 0);
                    assert(frontier_weight(nodes, Seq::<usize>::empty()) == 0);
                }
            },
        }
    }
    assert(queue@.skip(queue@.len() as int) =~= Seq::<usize>::empty());
    assert(frontier_total(nodes, Seq::<usize>::empty()) == 0);
    Ok(total)
}

} // verus!
