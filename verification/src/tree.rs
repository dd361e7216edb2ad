use vstd::prelude::*;

verus! {

/// The outcome of listing one directory: how many of its immediate entries
/// are files, and the identifiers of its immediate subdirectory entries, in
/// enumeration order.
pub struct ListingResult {
    pub file_count: u64,
    pub subdirs: Vec<usize>,
}

/// One directory of an in-memory tree: either its listing, or the mark that
/// the directory cannot be opened and read. An unreadable directory
/// contributes no files and hides whatever lies beneath it, so it carries no
/// listing at all.
pub enum DirNode {
    Listed(ListingResult),
    Unreadable,
}

/// An in-memory directory tree. Directories are identified by their index
/// into `nodes`; a caller that mirrors a real filesystem keeps the mapping
/// from these identifiers to concrete paths. Every subdirectory identifier is
/// strictly greater than the identifier of the directory that lists it (the
/// order in which a breadth-first discovery hands identifiers out), which is
/// what `wf` states and what makes every walk finite.
pub struct Tree {
    pub nodes: Vec<DirNode>,
}

/// The root of a traversal: either a plain file, or a directory of the tree.
#[derive(Clone, Copy)]
pub enum RootEntry {
    File,
    Dir(usize),
}

/// A path could not be opened and listed as a directory.
#[derive(Debug, PartialEq, Eq)]
pub struct ReadDirError;

/// The subdirectory identifiers a directory's listing reports; none for an
/// unreadable directory.
pub open spec fn node_subdirs(n: DirNode) -> Seq<usize> {
    match n {
        DirNode::Listed(l) => l.subdirs@,
        DirNode::Unreadable => Seq::empty(),
    }
}

/// The number of file entries a directory's listing reports; zero for an
/// unreadable directory.
pub open spec fn node_file_count(n: DirNode) -> nat {
    match n {
        DirNode::Listed(l) => l.file_count as nat,
        DirNode::Unreadable => 0,
    }
}

/// A subdirectory identifier lies strictly between its parent's identifier
/// and the size of the tree.
pub open spec fn id_in_range(d: usize, lo: int, hi: int) -> bool {
    lo < d as int && d < hi
}

/// Every subdirectory of the directory at index `i` lies strictly beyond `i`
/// and within the tree.
pub open spec fn node_wf(n: DirNode, i: int, len: int) -> bool {
    forall|k: int| 0 <= k < node_subdirs(n).len() ==> id_in_range(#[trigger] node_subdirs(n)[k], i, len)
}

/// Well-formedness of a whole tree: every directory's subdirectories point
/// strictly forward.
pub open spec fn wf_nodes(nodes: Seq<DirNode>) -> bool {
    forall|i: int| 0 <= i < nodes.len() ==> node_wf(#[trigger] nodes[i], i, nodes.len() as int)
}

/// The number of files a traversal rooted at directory `i` reports: the
/// directory's own file entries plus, recursively, those of every
/// subdirectory it lists. An unreadable directory contributes nothing.
pub open spec fn subtree_total(nodes: Seq<DirNode>, i: int) -> nat
    decreases nodes.len() - i, 1int, 0int,
        when wf_nodes(nodes) && 0 <= i < nodes.len()
{
    node_file_count(nodes[i]) + children_total(nodes, i, 0)
}

/// The files reported beneath the subdirectories of directory `i`, from the
/// `k`-th subdirectory onward.
pub open spec fn children_total(nodes: Seq<DirNode>, i: int, k: int) -> nat
    decreases nodes.len() - i, 0int, node_subdirs(nodes[i]).len() - k,
        when wf_nodes(nodes) && 0 <= i < nodes.len() && 0 <= k
{
    if k >= node_subdirs(nodes[i]).len() {
        0
    } else {
        subtree_total(nodes, node_subdirs(nodes[i])[k] as int) + children_total(nodes, i, k + 1)
    }
}

/// How many directory listings a traversal rooted at directory `i` performs:
/// one for the directory itself (readable or not) plus those of every
/// subdirectory it lists. This is the measure that shrinks as a walk makes
/// progress.
pub open spec fn subtree_weight(nodes: Seq<DirNode>, i: int) -> nat
    decreases nodes.len() - i, 1int, 0int,
        when wf_nodes(nodes) && 0 <= i < nodes.len()
{
    1 + children_weight(nodes, i, 0)
}

/// The listings performed beneath the subdirectories of directory `i`, from
/// the `k`-th subdirectory onward.
pub open spec fn children_weight(nodes: Seq<DirNode>, i: int, k: int) -> nat
    decreases nodes.len() - i, 0int, node_subdirs(nodes[i]).len() - k,
        when wf_nodes(nodes) && 0 <= i < nodes.len() && 0 <= k
{
    if k >= node_subdirs(nodes[i]).len() {
        0
    } else {
        subtree_weight(nodes, node_subdirs(nodes[i])[k] as int) + children_weight(nodes, i, k + 1)
    }
}

/// The files reported beneath every directory of a frontier, summed.
pub open spec fn frontier_total(nodes: Seq<DirNode>, f: Seq<usize>) -> nat
    decreases f.len(),
{
    if f.len() == 0 {
        0
    } else {
        frontier_total(nodes, f.drop_last()) + subtree_total(nodes, f.last() as int)
    }
}

/// The listings still owed to a frontier, summed.
pub open spec fn frontier_weight(nodes: Seq<DirNode>, f: Seq<usize>) -> nat
    decreases f.len(),
{
    if f.len() == 0 {
        0
    } else {
        frontier_weight(nodes, f.drop_last()) + subtree_weight(nodes, f.last() as int)
    }
}

/// Every identifier of a frontier names a directory of the tree.
pub open spec fn frontier_in_bounds(nodes: Seq<DirNode>, f: Seq<usize>) -> bool {
    forall|k: int| 0 <= k < f.len() ==> (#[trigger] f[k]) < nodes.len()
}

pub proof fn lemma_frontier_total_concat(nodes: Seq<DirNode>, a: Seq<usize>, b: Seq<usize>)
    ensures
        frontier_total(nodes, a + b) == frontier_total(nodes, a) + frontier_total(nodes, b),
    decreases b.len(),
{
    if b.len() == 0 {
        assert(a + b =~= a);
    } else {
        assert((a + b).drop_last() =~= a + b.drop_last());
        lemma_frontier_total_concat(nodes, a, b.drop_last());
    }
}

pub proof fn lemma_frontier_weight_concat(nodes: Seq<DirNode>, a: Seq<usize>, b: Seq<usize>)
    ensures
        frontier_weight(nodes, a + b) == frontier_weight(nodes, a) + frontier_weight(nodes, b),
    decreases b.len(),
{
    if b.len() == 0 {
        assert(a + b =~= a);
    } else {
        assert((a + b).drop_last() =~= a + b.drop_last());
        lemma_frontier_weight_concat(nodes, a, b.drop_last());
    }
}

pub proof fn lemma_frontier_total_singleton(nodes: Seq<DirNode>, p: usize)
    ensures
        frontier_total(nodes, seq![p]) == subtree_total(nodes, p as int),
{
    assert(frontier_total(nodes, Seq::<usize>::empty()) == 0);
    assert(seq![p].drop_last() =~= Seq::<usize>::empty());
}

pub proof fn lemma_frontier_weight_singleton(nodes: Seq<DirNode>, p: usize)
    ensures
        frontier_weight(nodes, seq![p]) == subtree_weight(nodes, p as int),
{
    assert(frontier_weight(nodes, Seq::<usize>::empty()) == 0);
    assert(seq![p].drop_last() =~= Seq::<usize>::empty());
}

/// Stepping past position `j` of a frontier splits off exactly the subtree
/// rooted there.
pub proof fn lemma_frontier_total_skip_step(nodes: Seq<DirNode>, f: Seq<usize>, j: int)
    requires
        0 <= j < f.len(),
    ensures
        frontier_total(nodes, f.skip(j)) == subtree_total(nodes, f[j] as int) + frontier_total(
            nodes,
            f.skip(j + 1),
        ),
{
    assert(f.skip(j) =~= seq![f[j]] + f.skip(j + 1));
    lemma_frontier_total_concat(nodes, seq![f[j]], f.skip(j + 1));
    lemma_frontier_total_singleton(nodes, f[j]);
}

pub proof fn lemma_frontier_weight_skip_step(nodes: Seq<DirNode>, f: Seq<usize>, j: int)
    requires
        0 <= j < f.len(),
    ensures
        frontier_weight(nodes, f.skip(j)) == subtree_weight(nodes, f[j] as int) + frontier_weight(
            nodes,
            f.skip(j + 1),
        ),
{
    assert(f.skip(j) =~= seq![f[j]] + f.skip(j + 1));
    lemma_frontier_weight_concat(nodes, seq![f[j]], f.skip(j + 1));
    lemma_frontier_weight_singleton(nodes, f[j]);
}

proof fn lemma_children_total_as_frontier(nodes: Seq<DirNode>, i: int, k: int)
    requires
        wf_nodes(nodes),
        0 <= i < nodes.len(),
        0 <= k <= node_subdirs(nodes[i]).len(),
    ensures
        children_total(nodes, i, k) == frontier_total(nodes, node_subdirs(nodes[i]).skip(k)),
    decreases node_subdirs(nodes[i]).len() - k,
{
    let ds = node_subdirs(nodes[i]);
    if k == ds.len() {
        assert(ds.skip(k) =~= Seq::<usize>::empty());
    } else {
        lemma_children_total_as_frontier(nodes, i, k + 1);
        lemma_frontier_total_skip_step(nodes, ds, k);
    }
}

proof fn lemma_children_weight_as_frontier(nodes: Seq<DirNode>, i: int, k: int)
    requires
        wf_nodes(nodes),
        0 <= i < nodes.len(),
        0 <= k <= node_subdirs(nodes[i]).len(),
    ensures
        children_weight(nodes, i, k) == frontier_weight(nodes, node_subdirs(nodes[i]).skip(k)),
    decreases node_subdirs(nodes[i]).len() - k,
{
    let ds = node_subdirs(nodes[i]);
    if k == ds.len() {
        assert(ds.skip(k) =~= Seq::<usize>::empty());
    } else {
        lemma_children_weight_as_frontier(nodes, i, k + 1);
        lemma_frontier_weight_skip_step(nodes, ds, k);
    }
}

/// A subtree's file total is the directory's own files plus the totals of the
/// frontier made of its immediate subdirectories.
pub proof fn lemma_subtree_total_unfold(nodes: Seq<DirNode>, i: int)
    requires
        wf_nodes(nodes),
        0 <= i < nodes.len(),
    ensures
        subtree_total(nodes, i) == node_file_count(nodes[i]) + frontier_total(
            nodes,
            node_subdirs(nodes[i]),
        ),
{
    lemma_children_total_as_frontier(nodes, i, 0);
    assert(node_subdirs(nodes[i]).skip(0) =~= node_subdirs(nodes[i]));
}

/// A subtree owes one listing for its own directory plus those of the
/// frontier made of its immediate subdirectories.
pub proof fn lemma_subtree_weight_unfold(nodes: Seq<DirNode>, i: int)
    requires
        wf_nodes(nodes),
        0 <= i < nodes.len(),
    ensures
        subtree_weight(nodes, i) == 1 + frontier_weight(nodes, node_subdirs(nodes[i])),
{
    lemma_children_weight_as_frontier(nodes, i, 0);
    assert(node_subdirs(nodes[i]).skip(0) =~= node_subdirs(nodes[i]));
}

impl Tree {
    /// Every directory's subdirectory identifiers point strictly forward and
    /// stay within the tree.
    pub open spec fn wf(&self) -> bool {
        wf_nodes(self.nodes@)
    }

    /// List the immediate entries of directory `p`: its file count and
    /// subdirectories if it is readable, or nothing if it is not. This is the
    /// in-memory counterpart of one unit of directory-listing work.
    pub fn list(&self, p: usize) -> (r: Option<&ListingResult>)
        requires
            p < self.nodes@.len(),
        ensures
            match r {
                Some(l) => self.nodes@[p as int] == DirNode::Listed(*l),
                None => self.nodes@[p as int] is Unreadable,
            },
    {
        match &self.nodes[p] {
            DirNode::Listed(l) => Some(l),
            DirNode::Unreadable => None,
        }
    }
}

} // verus!
