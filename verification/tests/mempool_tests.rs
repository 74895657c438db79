use fcn::digest::{Digest, PublicKey, Signature};
use fcn::mempool::Mempool;
use fcn::oracle_types::{BlockProposal, Instruction, Transaction};

fn d(b: u8) -> Digest {
    Digest { bytes: [b; 32] }
}

fn tx(pk: u8, nonce: u64) -> Transaction {
    Transaction {
        nonce,
        instruction: Instruction::ProposeBlock(BlockProposal {
            block_height: 1,
            parent_hash: d(0x11),
            block_hash: d(nonce as u8 ^ pk),
        }),
        public_key: PublicKey { bytes: [pk; 32] },
        signature: Signature { bytes: [0; 64] },
    }
}

#[test]
fn backlog_is_capped_and_the_largest_nonce_is_evicted() {
    // 17 distinct nonces for one account: the backlog stays at 16 and the
    // furthest-future nonce (16) is dropped.
    let mut pool: Mempool<Transaction> = Mempool::new();
    let pk = PublicKey { bytes: [1; 32] };
    for nonce in 0..17u64 {
        pool.add(tx(1, nonce));
    }
    assert_eq!(pool.backlog_len(&pk), 16);
    assert_eq!(pool.len(), 16);
    for expected in 0..16u64 {
        let got = pool.next().expect("a pending transaction");
        assert_eq!(got.nonce, expected);
    }
    assert!(pool.next().is_none());
}

#[test]
fn add_is_idempotent_under_duplicates() {
    let mut pool: Mempool<Transaction> = Mempool::new();
    pool.add(tx(1, 0));
    assert_eq!(pool.len(), 1);
    // the same transaction again: same digest, no change
    pool.add(tx(1, 0));
    assert_eq!(pool.len(), 1);
    // a different transaction at the same (account, nonce): no change
    let mut other = tx(1, 0);
    other.instruction = Instruction::ProposeBlock(BlockProposal {
        block_height: 1,
        parent_hash: d(0x11),
        block_hash: d(0x99),
    });
    pool.add(other);
    assert_eq!(pool.len(), 1);
}

#[test]
fn draws_rotate_between_accounts() {
    let mut pool: Mempool<Transaction> = Mempool::new();
    pool.add(tx(1, 0));
    pool.add(tx(1, 1));
    pool.add(tx(2, 0));
    pool.add(tx(2, 1));
    let a = pool.next().unwrap();
    let b = pool.next().unwrap();
    let c = pool.next().unwrap();
    let e = pool.next().unwrap();
    assert_eq!(a.public_key, PublicKey { bytes: [1; 32] });
    assert_eq!(a.nonce, 0);
    assert_eq!(b.public_key, PublicKey { bytes: [2; 32] });
    assert_eq!(b.nonce, 0);
    assert_eq!(c.public_key, PublicKey { bytes: [1; 32] });
    assert_eq!(c.nonce, 1);
    assert_eq!(e.public_key, PublicKey { bytes: [2; 32] });
    assert_eq!(e.nonce, 1);
    assert!(pool.next().is_none());
}

#[test]
fn retain_drops_exactly_the_nonces_below_the_minimum() {
    let mut pool: Mempool<Transaction> = Mempool::new();
    let pk = PublicKey { bytes: [1; 32] };
    for nonce in [2u64, 5, 7, 9] {
        pool.add(tx(1, nonce));
    }
    pool.retain(&pk, 7);
    assert_eq!(pool.backlog_len(&pk), 2);
    assert_eq!(pool.next().unwrap().nonce, 7);
    assert_eq!(pool.next().unwrap().nonce, 9);
    assert!(pool.next().is_none());
}

#[test]
fn retain_of_everything_untracks_the_account() {
    let mut pool: Mempool<Transaction> = Mempool::new();
    let pk = PublicKey { bytes: [1; 32] };
    pool.add(tx(1, 0));
    pool.add(tx(2, 0));
    pool.retain(&pk, 100);
    assert_eq!(pool.backlog_len(&pk), 0);
    assert_eq!(pool.len(), 1);
    // the stale queue entry is skipped; the other account is drawn
    let got = pool.next().unwrap();
    assert_eq!(got.public_key, PublicKey { bytes: [2; 32] });
    assert!(pool.next().is_none());
}

#[test]
fn a_stale_queue_key_lets_an_account_repeat_once() {
    // The queue is not pruned eagerly: an account whose backlog was emptied
    // leaves a stale key behind, and re-adding transactions queues the
    // account a second time. Both entries are then live, so the account can
    // be drawn twice before another account's turn.
    let mut pool: Mempool<Transaction> = Mempool::new();
    let pk = PublicKey { bytes: [1; 32] };
    pool.add(tx(1, 0));
    pool.retain(&pk, 10);
    pool.add(tx(1, 5));
    pool.add(tx(1, 6));
    pool.add(tx(2, 0));
    let first = pool.next().unwrap();
    let second = pool.next().unwrap();
    let third = pool.next().unwrap();
    assert_eq!((first.public_key, first.nonce), (pk, 5));
    assert_eq!((second.public_key, second.nonce), (pk, 6));
    assert_eq!(third.public_key, PublicKey { bytes: [2; 32] });
}

#[test]
fn out_of_order_nonces_come_out_ascending() {
    let mut pool: Mempool<Transaction> = Mempool::new();
    for nonce in [9u64, 3, 7, 1] {
        pool.add(tx(1, nonce));
    }
    let mut last = None;
    while let Some(t) = pool.next() {
        if let Some(prev) = last {
            assert!(t.nonce > prev);
        }
        last = Some(t.nonce);
    }
    assert_eq!(last, Some(9));
}
