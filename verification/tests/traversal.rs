use dir_census::{count_files, DirNode, ListingResult, ReadDirError, RootEntry, Tree, TraversalCoordinator};

fn listed(file_count: u64, subdirs: Vec<usize>) -> DirNode {
    DirNode::Listed(ListingResult { file_count, subdirs })
}

#[test]
fn root_file_counts_one_without_dispatch() {
    // A plain-file root short-circuits: no tree node is ever consulted.
    let tree = Tree { nodes: vec![] };
    assert_eq!(TraversalCoordinator::traverse(&tree, RootEntry::File), Ok(1));
    assert_eq!(count_files(&tree, RootEntry::File), Ok(1));
}

#[test]
fn empty_directory_contributes_nothing() {
    let tree = Tree { nodes: vec![listed(0, vec![])] };
    assert_eq!(TraversalCoordinator::traverse(&tree, RootEntry::Dir(0)), Ok(0));
    assert_eq!(count_files(&tree, RootEntry::Dir(0)), Ok(0));
}

#[test]
fn empty_directory_adds_no_frontier_entries() {
    let mut coord = TraversalCoordinator::new(0);
    let round = coord.begin_round();
    assert_eq!(round, vec![0]);
    let empty = ListingResult { file_count: 0, subdirs: vec![] };
    coord.merge_result(Some(&empty));
    assert_eq!(coord.total(), 0);
    assert!(coord.is_done());
}

#[test]
fn flat_directory_counts_in_one_round() {
    // Exactly five files, no subdirectories: total 5 after a single round.
    let tree = Tree { nodes: vec![listed(5, vec![])] };
    assert_eq!(TraversalCoordinator::traverse(&tree, RootEntry::Dir(0)), Ok(5));

    let mut coord = TraversalCoordinator::new(0);
    let mut rounds = 0;
    while !coord.is_done() {
        let round = coord.begin_round();
        for p in round {
            coord.merge_result(tree.list(p));
        }
        rounds += 1;
    }
    assert_eq!(rounds, 1);
    assert_eq!(coord.total(), 5);
}

#[test]
fn nested_tree_counts_in_two_rounds() {
    // A root with two subdirectories of three files each: six files in
    // exactly two rounds (the first discovers the subdirectories, the second
    // counts their files).
    let tree = Tree {
        nodes: vec![listed(0, vec![1, 2]), listed(3, vec![]), listed(3, vec![])],
    };
    assert_eq!(TraversalCoordinator::traverse(&tree, RootEntry::Dir(0)), Ok(6));

    let mut coord = TraversalCoordinator::new(0);
    let mut rounds = 0;
    let mut totals_by_round = vec![];
    while !coord.is_done() {
        let round = coord.begin_round();
        for p in round {
            coord.merge_result(tree.list(p));
        }
        rounds += 1;
        totals_by_round.push(coord.total());
    }
    assert_eq!(rounds, 2);
    assert_eq!(totals_by_round, vec![0, 6]);
}

#[test]
fn unreadable_sibling_is_isolated() {
    // One unreadable subdirectory among readable siblings contributes zero;
    // the others are still summed and later rounds proceed.
    let tree = Tree {
        nodes: vec![
            listed(1, vec![1, 2, 3]),
            listed(2, vec![]),
            DirNode::Unreadable,
            listed(4, vec![5]),
            listed(9, vec![]), // listed by no readable directory: stays hidden
            listed(8, vec![]),
        ],
    };
    assert_eq!(TraversalCoordinator::traverse(&tree, RootEntry::Dir(0)), Ok(15));
    assert_eq!(count_files(&tree, RootEntry::Dir(0)), Ok(15));
}

#[test]
fn unreadable_root_fails() {
    let tree = Tree { nodes: vec![DirNode::Unreadable] };
    assert_eq!(
        TraversalCoordinator::traverse(&tree, RootEntry::Dir(0)),
        Err(ReadDirError)
    );
    assert_eq!(count_files(&tree, RootEntry::Dir(0)), Err(ReadDirError));
}

#[test]
fn strategies_agree_on_sample_trees() {
    let trees = vec![
        Tree { nodes: vec![] },
        Tree { nodes: vec![listed(7, vec![])] },
        Tree { nodes: vec![DirNode::Unreadable] },
        Tree {
            nodes: vec![
                listed(2, vec![1, 2]),
                listed(0, vec![3]),
                DirNode::Unreadable,
                listed(5, vec![4]),
                listed(1, vec![]),
            ],
        },
    ];
    for tree in &trees {
        assert_eq!(
            TraversalCoordinator::traverse(tree, RootEntry::File),
            count_files(tree, RootEntry::File)
        );
        if !tree.nodes.is_empty() {
            assert_eq!(
                TraversalCoordinator::traverse(tree, RootEntry::Dir(0)),
                count_files(tree, RootEntry::Dir(0))
            );
        }
    }
}

#[test]
fn traversal_is_idempotent() {
    let tree = Tree {
        nodes: vec![listed(1, vec![1]), listed(2, vec![2]), listed(3, vec![])],
    };
    let first = TraversalCoordinator::traverse(&tree, RootEntry::Dir(0));
    let second = TraversalCoordinator::traverse(&tree, RootEntry::Dir(0));
    assert_eq!(first, Ok(6));
    assert_eq!(first, second);
}

#[test]
fn deep_chain_counts_every_level() {
    let tree = Tree {
        nodes: vec![
            listed(1, vec![1]),
            listed(2, vec![2]),
            listed(3, vec![3]),
            listed(4, vec![]),
        ],
    };
    assert_eq!(TraversalCoordinator::traverse(&tree, RootEntry::Dir(0)), Ok(10));
    assert_eq!(count_files(&tree, RootEntry::Dir(0)), Ok(10));
}

#[test]
fn merge_order_within_a_round_is_irrelevant() {
    // Permuting the completion order of one round's results never changes
    // the total, nor what later rounds go on to count.
    let tree = Tree {
        nodes: vec![
            listed(1, vec![1, 2]),
            listed(2, vec![3]),
            listed(4, vec![]),
            listed(8, vec![]),
        ],
    };
    let first_round = vec![1usize, 2usize];

    let mut forward = TraversalCoordinator::new(0);
    let seed = forward.begin_round();
    assert_eq!(seed, vec![0]);
    forward.merge_result(tree.list(0));
    let round = forward.begin_round();
    assert_eq!(round, first_round);
    for &p in round.iter() {
        forward.merge_result(tree.list(p));
    }

    let mut backward = TraversalCoordinator::new(0);
    backward.begin_round();
    backward.merge_result(tree.list(0));
    let round = backward.begin_round();
    for &p in round.iter().rev() {
        backward.merge_result(tree.list(p));
    }

    assert_eq!(forward.total(), backward.total());

    // Finishing both coordinators still yields identical totals.
    for coord in [&mut forward, &mut backward] {
        while !coord.is_done() {
            let round = coord.begin_round();
            for p in round {
                coord.merge_result(tree.list(p));
            }
        }
    }
    assert_eq!(forward.total(), backward.total());
    assert_eq!(forward.total(), 15);
}
