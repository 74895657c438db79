//! The two state-transition executors on concrete batches.

use fcn::digest::{Digest, PublicKey, Signature};
use fcn::oracle_execution::{execute_state_transition, State};
use fcn::oracle_types::{BlockProposal, Event, Instruction, Transaction};
use fcn::swarm_execution::{plan_state_transition, StateLayer, StateOperation};
use fcn::swarm_types as swarm;

fn d(b: u8) -> Digest {
    Digest { bytes: [b; 32] }
}

fn propose_tx(pk: u8, nonce: u64, height: u64, parent: Digest, hash: Digest) -> Transaction {
    Transaction {
        nonce,
        instruction: Instruction::ProposeBlock(BlockProposal {
            block_height: height,
            parent_hash: parent,
            block_hash: hash,
        }),
        public_key: PublicKey { bytes: [pk; 32] },
        signature: Signature { bytes: [0; 64] },
    }
}

#[test]
fn proposal_count_resets_exactly_on_finalization() {
    let root = d(0x11);
    let mut state = State::new(root, 2);
    // one valid proposal: below the threshold, no finalization
    let r1 = execute_state_transition(&mut state, vec![propose_tx(1, 0, 1, root, d(0xAA))]);
    assert!(r1.generated_events.is_empty());
    assert_eq!(state.frame_block_proposal_count, 1);
    // a second proposal under A reaches the threshold and finalizes
    let r2 = execute_state_transition(&mut state, vec![propose_tx(1, 1, 2, d(0xAA), d(0xCC))]);
    assert_eq!(r2.generated_events.len(), 1);
    match r2.generated_events[0] {
        Event::FrameFinalized(f) => {
            assert_eq!(f.frame_number, 2);
            assert_eq!(f.chain_head, d(0xCC));
        },
    }
    assert_eq!(state.frame_block_proposal_count, 0);
}

#[test]
fn nonce_mismatch_is_invalid_and_changes_nothing() {
    let root = d(0x11);
    let mut state = State::new(root, 10);
    let bad = propose_tx(1, 5, 1, root, d(0xAA));
    let r = execute_state_transition(&mut state, vec![bad]);
    assert_eq!(r.invalid_txs.len(), 1);
    assert!(r.processed_nonces.is_empty());
    assert_eq!(state.fork_tree.node_score(&d(0xAA)), None);
    assert_eq!(state.frame_block_proposal_count, 0);
}

#[test]
fn rejected_proposal_still_consumes_the_nonce() {
    let root = d(0x11);
    let mut state = State::new(root, 10);
    // unknown parent: the proposal adds no weight, the account nonce advances
    let tx = propose_tx(1, 0, 1, d(0x77), d(0xAA));
    let r = execute_state_transition(&mut state, vec![tx]);
    assert!(r.invalid_txs.is_empty());
    assert_eq!(r.processed_nonces.len(), 1);
    assert_eq!(r.processed_nonces[0].1, 1);
    assert_eq!(state.fork_tree.node_score(&d(0xAA)), None);
    // the next transaction from this account must use nonce 1
    let r2 = execute_state_transition(&mut state, vec![propose_tx(1, 0, 1, root, d(0xBB))]);
    assert_eq!(r2.invalid_txs.len(), 1);
}

#[test]
fn unsolvable_fork_is_surfaced_and_the_counter_kept() {
    let root = d(0x11);
    let mut state = State::new(root, 2);
    let txs = vec![
        propose_tx(1, 0, 1, root, d(0xAA)),
        propose_tx(2, 0, 1, root, d(0xBB)),
    ];
    let r = execute_state_transition(&mut state, txs);
    assert!(r.generated_events.is_empty());
    assert_eq!(r.unsolvable_forks.len(), 1);
    assert_eq!(r.unsolvable_forks[0], root);
    assert_eq!(state.frame_block_proposal_count, 2);
}

fn transfer_tx(pk: u8, nonce: u64, amount: u64, to: u8) -> swarm::Transaction {
    swarm::Transaction {
        nonce,
        instruction: swarm::Instruction::TransferBread(swarm::TransferBread {
            amount,
            to: PublicKey { bytes: [to; 32] },
        }),
        public_key: PublicKey { bytes: [pk; 32] },
        signature: Signature { bytes: [0; 64] },
    }
}

fn account_key(pk: u8) -> swarm::Key {
    swarm::Key::Account(PublicKey { bytes: [pk; 32] })
}

#[test]
fn a_covered_transfer_debits_credits_and_advances_the_nonce() {
    // A holds 10 bread at nonce 0; B is absent. A sends 4 to B.
    let base = vec![(
        account_key(0xA1),
        Some(swarm::Value::Account(swarm::Account { nonce: 0, bread: 10 })),
    )];
    let mut layer = StateLayer::new(base);
    let (processed, invalid) = layer.execute(vec![transfer_tx(0xA1, 0, 4, 0xB2)]);
    assert!(invalid.is_empty());
    assert_eq!(processed.len(), 1);
    assert_eq!(processed[0].1, 1);
    assert_eq!(
        layer.get(&account_key(0xA1)),
        Some(swarm::Value::Account(swarm::Account { nonce: 1, bread: 6 }))
    );
    assert_eq!(
        layer.get(&account_key(0xB2)),
        Some(swarm::Value::Account(swarm::Account { nonce: 0, bread: 4 }))
    );
    let changes = layer.commit();
    assert_eq!(changes.len(), 2);
    // staged in ascending key order, each an update
    for w in changes.windows(2) {
        let (swarm::Key::Account(x), swarm::Key::Account(y)) = (&w[0].0, &w[1].0);
        assert!(x.bytes < y.bytes);
    }
    for (_, op) in &changes {
        assert!(matches!(op, StateOperation::Update(_)));
    }
}

#[test]
fn an_uncovered_transfer_is_invalid_and_stages_nothing() {
    // A holds 3 bread; sending 4 fails, the state is unchanged and the
    // nonce does not advance.
    let base = vec![(
        account_key(0xA1),
        Some(swarm::Value::Account(swarm::Account { nonce: 0, bread: 3 })),
    )];
    let mut layer = StateLayer::new(base);
    let (processed, invalid) = layer.execute(vec![transfer_tx(0xA1, 0, 4, 0xB2)]);
    assert_eq!(invalid.len(), 1);
    assert!(processed.is_empty());
    assert_eq!(
        layer.get(&account_key(0xA1)),
        Some(swarm::Value::Account(swarm::Account { nonce: 0, bread: 3 }))
    );
    assert_eq!(layer.get(&account_key(0xB2)), None);
    assert!(layer.commit().is_empty());
}

#[test]
fn a_batch_reads_its_own_writes() {
    // A pays B, then B pays C within the same batch.
    let base = vec![
        (
            account_key(0xA1),
            Some(swarm::Value::Account(swarm::Account { nonce: 0, bread: 10 })),
        ),
        (
            account_key(0xB2),
            Some(swarm::Value::Account(swarm::Account { nonce: 4, bread: 0 })),
        ),
    ];
    let mut layer = StateLayer::new(base);
    let (processed, invalid) = layer.execute(vec![
        transfer_tx(0xA1, 0, 7, 0xB2),
        transfer_tx(0xB2, 4, 5, 0xC3),
    ]);
    assert!(invalid.is_empty());
    assert_eq!(processed.len(), 2);
    assert_eq!(
        layer.get(&account_key(0xB2)),
        Some(swarm::Value::Account(swarm::Account { nonce: 5, bread: 2 }))
    );
    assert_eq!(
        layer.get(&account_key(0xC3)),
        Some(swarm::Value::Account(swarm::Account { nonce: 0, bread: 5 }))
    );
}

#[test]
fn only_the_next_height_applies_a_batch() {
    assert!(!plan_state_transition(5, 5));
    assert!(plan_state_transition(5, 6));
}
