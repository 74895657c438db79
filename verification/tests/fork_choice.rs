use fcn::digest::Digest;
use fcn::fork_choice_tree::{ForkChoiceTree, ForkChoiceTreeError};

fn d(b: u8) -> Digest {
    Digest { bytes: [b; 32] }
}

#[test]
fn scores_accumulate_along_the_open_chain() {
    // Root = 0x11..; A and B under the root, C under A.
    let root = d(0x11);
    let mut tree = ForkChoiceTree::new(root);
    assert!(tree.propose_block(1, root, d(0xAA)).is_ok());
    assert!(tree.propose_block(1, root, d(0xBB)).is_ok());
    assert!(tree.propose_block(2, d(0xAA), d(0xCC)).is_ok());
    assert_eq!(tree.node_score(&d(0xAA)), Some(2));
    assert_eq!(tree.node_score(&d(0xBB)), Some(1));
    assert_eq!(tree.node_score(&d(0xCC)), Some(1));
    assert_eq!(tree.node_score(&root), Some(3));
}

#[test]
fn finalize_descends_the_heaviest_uncontested_path() {
    let root = d(0x11);
    let mut tree = ForkChoiceTree::new(root);
    tree.propose_block(1, root, d(0xAA)).unwrap();
    tree.propose_block(1, root, d(0xBB)).unwrap();
    tree.propose_block(2, d(0xAA), d(0xCC)).unwrap();
    // A outweighs B (2 vs 1); the descent passes A and ends at the leaf C.
    let (frame, head) = tree.finalize_block_frame().unwrap();
    assert_eq!(frame, 2);
    assert_eq!(head, d(0xCC));
    assert_eq!(tree.finalized_frame(), 2);
    assert_eq!(tree.finalized_head(), d(0xCC));
    // Repeated call: the head is a leaf, so it finalizes again in place.
    let (frame2, head2) = tree.finalize_block_frame().unwrap();
    assert_eq!(frame2, 3);
    assert_eq!(head2, d(0xCC));
}

#[test]
fn tied_scores_are_an_unsolvable_fork_and_change_nothing() {
    let root = d(0x11);
    let mut tree = ForkChoiceTree::new(root);
    tree.propose_block(1, root, d(0xAA)).unwrap();
    tree.propose_block(1, root, d(0xBB)).unwrap();
    match tree.finalize_block_frame() {
        Err(ForkChoiceTreeError::UnsolvableFork(at)) => assert_eq!(at, root),
        other => panic!("expected an unsolvable fork, got {:?}", other),
    }
    // the tree is unchanged
    assert_eq!(tree.finalized_frame(), 1);
    assert_eq!(tree.finalized_head(), root);
    assert_eq!(tree.node_score(&d(0xAA)), Some(1));
    assert_eq!(tree.node_score(&d(0xBB)), Some(1));
}

#[test]
fn unknown_parent_and_wrong_height_are_rejected() {
    let root = d(0x11);
    let mut tree = ForkChoiceTree::new(root);
    match tree.propose_block(1, d(0x77), d(0xAA)) {
        Err(ForkChoiceTreeError::InvalidBlockParentHash(p)) => assert_eq!(p, d(0x77)),
        other => panic!("expected an invalid parent, got {:?}", other),
    }
    match tree.propose_block(3, root, d(0xAA)) {
        Err(ForkChoiceTreeError::InvalidBlockHeight(h)) => assert_eq!(h, 3),
        other => panic!("expected an invalid height, got {:?}", other),
    }
    assert_eq!(tree.node_score(&d(0xAA)), None);
}

#[test]
fn duplicate_proposal_adds_one_weight_unit_and_no_node() {
    let root = d(0x11);
    let mut tree = ForkChoiceTree::new(root);
    tree.propose_block(1, root, d(0xAA)).unwrap();
    assert_eq!(tree.node_score(&d(0xAA)), Some(1));
    // the same hash again: no new node, one more unit on A and the root
    tree.propose_block(1, root, d(0xAA)).unwrap();
    assert_eq!(tree.node_score(&d(0xAA)), Some(2));
    assert_eq!(tree.node_score(&root), Some(2));
    assert_eq!(tree.node_height(&d(0xAA)), Some(1));
}

#[test]
fn increments_stop_at_the_finalized_frontier() {
    let root = d(0x11);
    let mut tree = ForkChoiceTree::new(root);
    tree.propose_block(1, root, d(0xAA)).unwrap();
    tree.finalize_block_frame().unwrap();
    // A is now the head at the finalized frame; a proposal under it raises
    // only the new node, not A
    tree.propose_block(2, d(0xAA), d(0xCC)).unwrap();
    assert_eq!(tree.node_score(&d(0xCC)), Some(1));
    assert_eq!(tree.node_score(&d(0xAA)), Some(1));
}
