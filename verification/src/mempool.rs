//! The per-account transaction mempool: pending transactions are indexed by
//! originator and nonce, each account's backlog is bounded, and draws walk
//! the accounts round-robin while yielding each account's transactions in
//! ascending nonce order.

use std::collections::VecDeque;

use vstd::prelude::*;

use crate::digest::{Digest, PublicKey};

verus! {

/// The most transactions a single account can keep pending.
pub const MAX_BACKLOG: usize = 16;

/// The most transactions the whole mempool can keep pending.
pub const MAX_TRANSACTIONS: usize = 32768;

/// What the mempool needs of a transaction: an originator, a nonce, and a
/// digest that identifies duplicates.
pub trait MempoolTransaction: Sized {
    /// The originating account, by which the pool schedules fairly.
    spec fn spec_public_key(&self) -> Seq<u8>;

    /// The account-local sequence number, by which one account's
    /// transactions are ordered.
    spec fn spec_nonce(&self) -> u64;

    /// The identity under which a repeated submission is dropped.
    spec fn spec_digest(&self) -> Seq<u8>;

    fn public_key(&self) -> (r: PublicKey)
        ensures
            r@ == self.spec_public_key(),
    ;

    fn nonce(&self) -> (r: u64)
        ensures
            r == self.spec_nonce(),
    ;

    fn digest(&self) -> (r: Digest)
        ensures
            r@ == self.spec_digest(),
    ;
}

struct BacklogEntry<T> {
    digest: Digest,
    tx: T,
}

struct Backlog<T> {
    public_key: PublicKey,
    entries: Vec<BacklogEntry<T>>,
}

/// Mathematical image of one account's backlog: its pending transactions in
/// ascending nonce order.
#[verifier::ext_equal]
pub struct BacklogModel<T> {
    pub public_key: Seq<u8>,
    pub txs: Seq<T>,
}

/// Mathematical image of the pool: the tracked accounts with their pending
/// transactions, and the round-robin queue of account keys (which may hold
/// stale keys whose backlog is gone).
#[verifier::ext_equal]
pub struct MempoolModel<T> {
    pub backlogs: Seq<BacklogModel<T>>,
    pub queue: Seq<Seq<u8>>,
}

impl<T> View for Backlog<T> {
    type V = BacklogModel<T>;

    closed spec fn view(&self) -> BacklogModel<T> {
        BacklogModel {
            public_key: self.public_key@,
            txs: self.entries@.map_values(|e: BacklogEntry<T>| e.tx),
        }
    }
}

/// A mempool of transactions.
pub struct Mempool<T> {
    backlogs: Vec<Backlog<T>>,
    queue: VecDeque<PublicKey>,
    total: usize,
}

impl<T> View for Mempool<T> {
    type V = MempoolModel<T>;

    closed spec fn view(&self) -> MempoolModel<T> {
        MempoolModel {
            backlogs: self.backlogs@.map_values(|b: Backlog<T>| b@),
            queue: self.queue@.map_values(|p: PublicKey| p@),
        }
    }
}

/// Total number of pending transactions.
pub open spec fn sum_txs<T>(bs: Seq<BacklogModel<T>>) -> nat
    decreases bs.len(),
{
    if bs.len() == 0 {
        0
    } else {
        sum_txs(bs.drop_last()) + bs.last().txs.len()
    }
}

proof fn lemma_sum_push<T>(bs: Seq<BacklogModel<T>>, b: BacklogModel<T>)
    ensures
        sum_txs(bs.push(b)) == sum_txs(bs) + b.txs.len(),
{
    assert(bs.push(b).drop_last() =~= bs);
    assert(bs.push(b).last() == b);
}

proof fn lemma_sum_update<T>(bs: Seq<BacklogModel<T>>, i: int, b: BacklogModel<T>)
    requires
        0 <= i < bs.len(),
    ensures
        sum_txs(bs.update(i, b)) + bs[i].txs.len() == sum_txs(bs) + b.txs.len(),
    decreases bs.len(),
{
    if i == bs.len() - 1 {
        assert(bs.update(i, b).drop_last() =~= bs.drop_last());
        assert(bs.update(i, b).last() == b);
    } else {
        assert(bs.update(i, b).drop_last() =~= bs.drop_last().update(i, b));
        assert(bs.update(i, b).last() == bs.last());
        lemma_sum_update(bs.drop_last(), i, b);
    }
}

proof fn lemma_sum_remove<T>(bs: Seq<BacklogModel<T>>, i: int)
    requires
        0 <= i < bs.len(),
    ensures
        sum_txs(bs.remove(i)) + bs[i].txs.len() == sum_txs(bs),
    decreases bs.len(),
{
    if i == bs.len() - 1 {
        assert(bs.remove(i) =~= bs.drop_last());
    } else {
        assert(bs.remove(i).drop_last() =~= bs.drop_last().remove(i));
        assert(bs.remove(i).last() == bs.last());
        lemma_sum_remove(bs.drop_last(), i);
    }
}

/// `txs` ascends strictly by nonce.
pub open spec fn sorted_by_nonce<T: MempoolTransaction>(txs: Seq<T>) -> bool {
    forall|j1: int, j2: int|
        0 <= j1 < j2 < txs.len() ==> (#[trigger] txs[j1]).spec_nonce() < (
        #[trigger] txs[j2]).spec_nonce()
}

/// `p` is where a transaction with `nonce` belongs in the sorted `txs`: all
/// earlier nonces are smaller, and the nonce at `p`, if any, is not.
pub open spec fn is_insert_pos<T: MempoolTransaction>(txs: Seq<T>, nonce: u64, p: int) -> bool {
    &&& 0 <= p <= txs.len()
    &&& forall|j: int| 0 <= j < p ==> (#[trigger] txs[j]).spec_nonce() < nonce
    &&& p < txs.len() ==> txs[p].spec_nonce() >= nonce
}

/// The unique insert position for `nonce` in `txs`.
pub open spec fn insert_pos<T: MempoolTransaction>(txs: Seq<T>, nonce: u64) -> int {
    choose|p: int| is_insert_pos(txs, nonce, p)
}

/// There is at most one insert position.
pub proof fn lemma_insert_pos_unique<T: MempoolTransaction>(
    txs: Seq<T>,
    nonce: u64,
    p1: int,
    p2: int,
)
    requires
        is_insert_pos(txs, nonce, p1),
        is_insert_pos(txs, nonce, p2),
    ensures
        p1 == p2,
{
    if p1 < p2 {
        assert(txs[p1].spec_nonce() < nonce);
        assert(txs[p1].spec_nonce() >= nonce);
    }
    if p2 < p1 {
        assert(txs[p2].spec_nonce() < nonce);
        assert(txs[p2].spec_nonce() >= nonce);
    }
}

impl<T: MempoolTransaction> MempoolModel<T> {
    /// An account with key `pk` is tracked.
    pub open spec fn has_backlog(self, pk: Seq<u8>) -> bool {
        exists|i: int| 0 <= i < self.backlogs.len() && self.backlogs[i].public_key == pk
    }

    /// Index of the tracked account `pk` (unique under `wf`).
    pub open spec fn idx_of(self, pk: Seq<u8>) -> int {
        choose|i: int| 0 <= i < self.backlogs.len() && self.backlogs[i].public_key == pk
    }

    /// The pending transactions of account `pk`, in ascending nonce order;
    /// empty when the account is not tracked.
    pub open spec fn backlog_of(self, pk: Seq<u8>) -> Seq<T> {
        if self.has_backlog(pk) {
            self.backlogs[self.idx_of(pk)].txs
        } else {
            Seq::empty()
        }
    }

    /// Some pending transaction has digest `d`.
    pub open spec fn digest_present(self, d: Seq<u8>) -> bool {
        exists|i: int, j: int|
            0 <= i < self.backlogs.len() && 0 <= j < self.backlogs[i].txs.len()
                && self.backlogs[i].txs[j].spec_digest() == d
    }

    /// Account `pk` has a pending transaction at `nonce`.
    pub open spec fn nonce_present(self, pk: Seq<u8>, nonce: u64) -> bool {
        exists|j: int|
            0 <= j < self.backlog_of(pk).len() && self.backlog_of(pk)[j].spec_nonce() == nonce
    }

    /// Total number of pending transactions.
    pub open spec fn total(self) -> nat {
        sum_txs(self.backlogs)
    }

    /// Well-formedness: accounts tracked at most once and never empty, each
    /// backlog sorted strictly by nonce and owned by its account, both size
    /// caps held, and every tracked account reachable from the queue.
    pub open spec fn wf(self) -> bool {
        &&& forall|i: int, j: int|
            0 <= i < j < self.backlogs.len() ==> self.backlogs[i].public_key
                != self.backlogs[j].public_key
        &&& forall|i: int|
            0 <= i < self.backlogs.len() ==> 1 <= (#[trigger] self.backlogs[i].txs).len()
                <= MAX_BACKLOG
        &&& forall|i: int, j1: int, j2: int|
            0 <= i < self.backlogs.len() && 0 <= j1 < j2 < self.backlogs[i].txs.len()
                ==> (#[trigger] self.backlogs[i].txs[j1]).spec_nonce()
                < (#[trigger] self.backlogs[i].txs[j2]).spec_nonce()
        &&& forall|i: int, j: int|
            0 <= i < self.backlogs.len() && 0 <= j < self.backlogs[i].txs.len()
                ==> (#[trigger] self.backlogs[i].txs[j]).spec_public_key()
                == self.backlogs[i].public_key
        &&& self.total() <= MAX_TRANSACTIONS
        &&& forall|i: int|
            0 <= i < self.backlogs.len() ==> self.queue.contains(
                #[trigger] self.backlogs[i].public_key,
            )
    }

    /// The whole effect of `Add(tx)` on the pool: a no-op when the pool is
    /// full, the digest is already pending, or the account already holds the
    /// nonce; otherwise the transaction joins its account's backlog in nonce
    /// order, the furthest-future entry is evicted past the backlog cap, and
    /// a newly tracked account joins the queue tail.
    pub open spec fn add_spec(self, tx: T) -> MempoolModel<T> {
        let pk = tx.spec_public_key();
        if self.total() >= MAX_TRANSACTIONS as nat {
            self
        } else if self.digest_present(tx.spec_digest()) {
            self
        } else if self.nonce_present(pk, tx.spec_nonce()) {
            self
        } else if self.has_backlog(pk) {
            let bi = self.idx_of(pk);
            let txs = self.backlogs[bi].txs;
            let inserted = txs.insert(insert_pos(txs, tx.spec_nonce()), tx);
            let kept = if inserted.len() > MAX_BACKLOG {
                inserted.drop_last()
            } else {
                inserted
            };
            MempoolModel {
                backlogs: self.backlogs.update(
                    bi,
                    BacklogModel { public_key: self.backlogs[bi].public_key, txs: kept },
                ),
                queue: self.queue,
            }
        } else {
            MempoolModel {
                backlogs: self.backlogs.push(BacklogModel { public_key: pk, txs: seq![tx] }),
                queue: self.queue.push(pk),
            }
        }
    }

    /// The whole effect of `Retain(pk, min)`: account `pk` keeps exactly its
    /// pending transactions with nonce at least `min`, in order; an emptied
    /// account is untracked. The queue is not pruned.
    pub open spec fn retain_spec(self, pk: Seq<u8>, min: u64) -> MempoolModel<T> {
        if !self.has_backlog(pk) {
            self
        } else {
            let bi = self.idx_of(pk);
            let txs = self.backlogs[bi].txs;
            let kept = txs.subrange(insert_pos(txs, min), txs.len() as int);
            if kept.len() == 0 {
                MempoolModel { backlogs: self.backlogs.remove(bi), queue: self.queue }
            } else {
                MempoolModel {
                    backlogs: self.backlogs.update(
                        bi,
                        BacklogModel { public_key: self.backlogs[bi].public_key, txs: kept },
                    ),
                    queue: self.queue,
                }
            }
        }
    }

    /// The whole effect of one draw: pop queued account keys until one is
    /// still tracked, hand out its lowest-nonce transaction, and re-queue the
    /// account at the tail if it has more pending; an exhausted queue yields
    /// nothing.
    pub open spec fn next_spec(self) -> (MempoolModel<T>, Option<T>)
        decreases self.queue.len(),
    {
        if self.queue.len() == 0 {
            (self, None)
        } else {
            let pk = self.queue[0];
            if !self.has_backlog(pk) {
                MempoolModel { backlogs: self.backlogs, queue: self.queue.drop_first() }.next_spec()
            } else {
                let bi = self.idx_of(pk);
                let txs = self.backlogs[bi].txs;
                let tx = txs[0];
                if txs.len() > 1 {
                    (
                        MempoolModel {
                            backlogs: self.backlogs.update(
                                bi,
                                BacklogModel {
                                    public_key: self.backlogs[bi].public_key,
                                    txs: txs.drop_first(),
                                },
                            ),
                            queue: self.queue.drop_first().push(pk),
                        },
                        Some(tx),
                    )
                } else {
                    (
                        MempoolModel {
                            backlogs: self.backlogs.remove(bi),
                            queue: self.queue.drop_first(),
                        },
                        Some(tx),
                    )
                }
            }
        }
    }
}

/// `Add` keeps the pool well-formed.
pub proof fn lemma_add_wf<T: MempoolTransaction>(m: MempoolModel<T>, tx: T)
    requires
        m.wf(),
    ensures
        m.add_spec(tx).wf(),
{
    let pk = tx.spec_public_key();
    let nonce = tx.spec_nonce();
    let u = m.add_spec(tx);
    if m.total() >= MAX_TRANSACTIONS as nat {
    } else if m.digest_present(tx.spec_digest()) {
    } else if m.nonce_present(pk, nonce) {
    } else if m.has_backlog(pk) {
        let bi = m.idx_of(pk);
        let txs = m.backlogs[bi].txs;
        let p = insert_pos(txs, nonce);
        // an insert position exists: the count of smaller nonces is one
        assert(exists|q: int| is_insert_pos(txs, nonce, q)) by {
            lemma_insert_pos_exists(txs, nonce);
        };
        assert(is_insert_pos(txs, nonce, p));
        let inserted = txs.insert(p, tx);
        assert(inserted.len() == txs.len() + 1);
        assert(forall|j: int| 0 <= j < p ==> inserted[j] == txs[j]);
        assert(inserted[p] == tx);
        assert(forall|j: int| p < j < inserted.len() ==> inserted[j] == txs[j - 1]);
        assert(p < txs.len() ==> txs[p].spec_nonce() > nonce) by {
            if p < txs.len() && txs[p].spec_nonce() == nonce {
                assert(m.backlog_of(pk)[p].spec_nonce() == nonce);
            }
        };
        assert(sorted_by_nonce(inserted)) by {
            assert forall|j1: int, j2: int| 0 <= j1 < j2 < inserted.len() implies (
            #[trigger] inserted[j1]).spec_nonce() < (#[trigger] inserted[j2]).spec_nonce() by {
                if j1 < p && j2 < p {
                } else if j1 < p && j2 == p {
                } else if j1 == p && p < j2 {
                    assert(inserted[j2] == txs[j2 - 1]);
                    assert(txs[p].spec_nonce() <= txs[j2 - 1].spec_nonce());
                } else if j1 < p && p < j2 {
                    assert(inserted[j2] == txs[j2 - 1]);
                    assert(p <= j2 - 1);
                    assert(txs[j2 - 1].spec_nonce() >= txs[p].spec_nonce());
                } else {
                    assert(inserted[j1] == txs[j1 - 1]);
                    assert(inserted[j2] == txs[j2 - 1]);
                }
            };
        };
        let kept = if inserted.len() > MAX_BACKLOG {
            inserted.drop_last()
        } else {
            inserted
        };
        assert(sorted_by_nonce(kept));
        assert(forall|j: int| 0 <= j < kept.len() ==> kept[j] == inserted[j]);
        assert(forall|j: int|
            0 <= j < kept.len() ==> (#[trigger] kept[j]).spec_public_key()
                == m.backlogs[bi].public_key) by {
            assert(m.backlogs[bi].public_key == pk);
        };
        let b2 = BacklogModel { public_key: m.backlogs[bi].public_key, txs: kept };
        lemma_sum_update(m.backlogs, bi, b2);
        assert(u.backlogs == m.backlogs.update(bi, b2));
        assert(u.total() <= MAX_TRANSACTIONS as nat);
        assert forall|i: int| 0 <= i < u.backlogs.len() implies u.queue.contains(
            #[trigger] u.backlogs[i].public_key,
        ) by {
            assert(u.backlogs[i].public_key == m.backlogs[i].public_key);
            assert(m.queue.contains(m.backlogs[i].public_key));
        };
    } else {
        let b2 = BacklogModel { public_key: pk, txs: seq![tx] };
        lemma_sum_push(m.backlogs, b2);
        assert forall|i: int| 0 <= i < u.backlogs.len() implies u.queue.contains(
            #[trigger] u.backlogs[i].public_key,
        ) by {
            if i < m.backlogs.len() {
                assert(m.queue.contains(m.backlogs[i].public_key));
                let w = choose|w: int|
                    0 <= w < m.queue.len() && m.queue[w] == m.backlogs[i].public_key;
                assert(u.queue[w] == u.backlogs[i].public_key);
            } else {
                assert(u.queue[m.queue.len() as int] == pk);
            }
        };
    }
}

/// `Retain` keeps the pool well-formed.
pub proof fn lemma_retain_wf<T: MempoolTransaction>(m: MempoolModel<T>, pk: Seq<u8>, min: u64)
    requires
        m.wf(),
    ensures
        m.retain_spec(pk, min).wf(),
{
    let u = m.retain_spec(pk, min);
    if m.has_backlog(pk) {
        let bi = m.idx_of(pk);
        let txs = m.backlogs[bi].txs;
        let cut = insert_pos(txs, min);
        lemma_insert_pos_exists(txs, min);
        lemma_insert_pos_unique(txs, min, cut, insert_pos(txs, min));
        let kept = txs.subrange(cut, txs.len() as int);
        if kept.len() == 0 {
            lemma_sum_remove(m.backlogs, bi);
            assert(forall|i: int| 0 <= i < bi ==> u.backlogs[i] == m.backlogs[i]);
            assert(forall|i: int|
                bi <= i < u.backlogs.len() ==> u.backlogs[i] == m.backlogs[i + 1]);
            assert forall|i: int| 0 <= i < u.backlogs.len() implies u.queue.contains(
                #[trigger] u.backlogs[i].public_key,
            ) by {
                if i < bi {
                    assert(m.queue.contains(m.backlogs[i].public_key));
                } else {
                    assert(m.queue.contains(m.backlogs[i + 1].public_key));
                }
            };
        } else {
            let b2 = BacklogModel { public_key: m.backlogs[bi].public_key, txs: kept };
            lemma_sum_update(m.backlogs, bi, b2);
            assert(forall|j: int| 0 <= j < kept.len() ==> kept[j] == txs[j + cut]);
            assert forall|i: int| 0 <= i < u.backlogs.len() implies u.queue.contains(
                #[trigger] u.backlogs[i].public_key,
            ) by {
                assert(u.backlogs[i].public_key == m.backlogs[i].public_key);
                assert(m.queue.contains(m.backlogs[i].public_key));
            };
        }
    }
}

/// One draw keeps the pool well-formed.
pub proof fn lemma_next_wf<T: MempoolTransaction>(m: MempoolModel<T>, pk: Seq<u8>)
    requires
        m.wf(),
        m.queue.len() > 0,
        m.queue[0] == pk,
        m.has_backlog(pk),
    ensures
        m.next_spec().0.wf(),
{
    let bi = m.idx_of(pk);
    let txs = m.backlogs[bi].txs;
    let u = m.next_spec().0;
    if txs.len() > 1 {
        let b2 = BacklogModel { public_key: m.backlogs[bi].public_key, txs: txs.drop_first() };
        lemma_sum_update(m.backlogs, bi, b2);
        assert(forall|j: int|
            0 <= j < txs.drop_first().len() ==> txs.drop_first()[j] == txs[j + 1]);
        assert forall|i: int| 0 <= i < u.backlogs.len() implies u.queue.contains(
            #[trigger] u.backlogs[i].public_key,
        ) by {
            assert(u.backlogs[i].public_key == m.backlogs[i].public_key);
            assert(m.queue.contains(m.backlogs[i].public_key));
            let w = choose|w: int|
                0 <= w < m.queue.len() && m.queue[w] == m.backlogs[i].public_key;
            if w == 0 {
                // this is the drawn account itself, re-queued at the tail
                if i != bi {
                    assert(m.backlogs[i].public_key == m.backlogs[bi].public_key);
                    assert(false);
                }
                assert(u.queue.last() == pk);
                assert(u.queue.contains(pk));
            } else {
                assert(u.queue[w - 1] == m.backlogs[i].public_key);
            }
        };
    } else {
        lemma_sum_remove(m.backlogs, bi);
        assert(forall|i: int| 0 <= i < bi ==> u.backlogs[i] == m.backlogs[i]);
        assert(forall|i: int| bi <= i < u.backlogs.len() ==> u.backlogs[i] == m.backlogs[i + 1]);
        assert forall|i: int| 0 <= i < u.backlogs.len() implies u.queue.contains(
            #[trigger] u.backlogs[i].public_key,
        ) by {
            let iold = if i < bi {
                i
            } else {
                i + 1
            };
            assert(u.backlogs[i].public_key == m.backlogs[iold].public_key);
            assert(m.queue.contains(m.backlogs[iold].public_key));
            let w = choose|w: int|
                0 <= w < m.queue.len() && m.queue[w] == m.backlogs[iold].public_key;
            if w == 0 {
                assert(m.backlogs[iold].public_key == m.backlogs[bi].public_key);
                assert(false);
            }
            assert(u.queue[w - 1] == m.backlogs[iold].public_key);
        };
    }
}

/// Every sorted backlog offers an insert position for any nonce.
pub proof fn lemma_insert_pos_exists<T: MempoolTransaction>(txs: Seq<T>, nonce: u64)
    requires
        sorted_by_nonce(txs),
    ensures
        exists|p: int| is_insert_pos(txs, nonce, p),
    decreases txs.len(),
{
    if txs.len() == 0 {
        assert(is_insert_pos(txs, nonce, 0));
    } else if txs[0].spec_nonce() >= nonce {
        assert(is_insert_pos(txs, nonce, 0));
    } else {
        let tail = txs.drop_first();
        assert(sorted_by_nonce(tail)) by {
            assert(forall|j: int| 0 <= j < tail.len() ==> tail[j] == txs[j + 1]);
        };
        lemma_insert_pos_exists(tail, nonce);
        let q = choose|q: int| is_insert_pos(tail, nonce, q);
        assert(forall|j: int| 0 <= j < tail.len() ==> tail[j] == txs[j + 1]);
        assert(is_insert_pos(txs, nonce, q + 1)) by {
            assert forall|j: int| 0 <= j < q + 1 implies (#[trigger] txs[j]).spec_nonce()
                < nonce by {
                if j > 0 {
                    assert(tail[j - 1].spec_nonce() < nonce);
                }
            };
        };
    }
}

impl<T: MempoolTransaction> Mempool<T> {
    /// Cached digests match their transactions, and the model is
    /// well-formed. Holds at rest and across every operation.
    pub closed spec fn inv(self) -> bool {
        &&& self@.wf()
        &&& self.total == self@.total()
        &&& forall|i: int, j: int|
            0 <= i < self.backlogs@.len() && 0 <= j < self.backlogs@[i].entries@.len()
                ==> (#[trigger] self.backlogs@[i].entries@[j]).digest@
                == self.backlogs@[i].entries@[j].tx.spec_digest()
    }

    /// Index of account `pk`'s backlog, if tracked.
    fn find_backlog(&self, pk: &PublicKey) -> (r: Option<usize>)
        requires
            forall|i: int, j: int|
                0 <= i < j < self@.backlogs.len() ==> self@.backlogs[i].public_key
                    != self@.backlogs[j].public_key,
        ensures
            match r {
                Some(i) => i < self@.backlogs.len() && self@.backlogs[i as int].public_key == pk@
                    && self@.idx_of(pk@) == i && self@.has_backlog(pk@),
                None => !self@.has_backlog(pk@),
            },
    {
        let mut i: usize = 0;
        while i < self.backlogs.len()
            invariant
                forall|i2: int, j2: int|
                    0 <= i2 < j2 < self@.backlogs.len() ==> self@.backlogs[i2].public_key
                        != self@.backlogs[j2].public_key,
                i <= self@.backlogs.len(),
                self@.backlogs.len() == self.backlogs@.len(),
                forall|j: int| 0 <= j < i ==> self@.backlogs[j].public_key != pk@,
            decreases self@.backlogs.len() - i,
        {
            if self.backlogs[i].public_key.equals(pk) {
                proof {
                    assert(self@.backlogs[i as int].public_key == pk@);
                    let k = self@.idx_of(pk@);
                    assert(0 <= k < self@.backlogs.len() && self@.backlogs[k].public_key == pk@);
                    if k != i {
                        assert(false);
                    }
                }
                return Some(i);
            }
            i += 1;
        }
        proof {
            if self@.has_backlog(pk@) {
                let k = self@.idx_of(pk@);
                assert(0 <= k < self@.backlogs.len() && self@.backlogs[k].public_key == pk@);
            }
        }
        None
    }

    /// Is some pending transaction's digest equal to `d`?
    fn digest_is_present(&self, d: &Digest) -> (r: bool)
        requires
            self.inv(),
        ensures
            r == self@.digest_present(d@),
    {
        let mut i: usize = 0;
        while i < self.backlogs.len()
            invariant
                self.inv(),
                i <= self.backlogs@.len(),
                forall|i2: int, j2: int|
                    0 <= i2 < i && 0 <= j2 < self@.backlogs[i2].txs.len()
                        ==> (#[trigger] self@.backlogs[i2].txs[j2]).spec_digest() != d@,
            decreases self.backlogs@.len() - i,
        {
            let mut j: usize = 0;
            while j < self.backlogs[i].entries.len()
                invariant
                    self.inv(),
                    i < self.backlogs@.len(),
                    j <= self.backlogs@[i as int].entries@.len(),
                    forall|j2: int|
                        0 <= j2 < j ==> (#[trigger] self@.backlogs[i as int].txs[j2]).spec_digest()
                            != d@,
                decreases self.backlogs@[i as int].entries@.len() - j,
            {
                if self.backlogs[i].entries[j].digest.equals(d) {
                    proof {
                        assert(self@.backlogs[i as int].txs[j as int].spec_digest() == d@);
                    }
                    return true;
                }
                proof {
                    assert(self@.backlogs[i as int].txs[j as int] == self.backlogs@[i as int].entries@[j as int].tx);
                }
                j += 1;
            }
            i += 1;
        }
        false
    }

    /// Add a transaction to the mempool. A full pool, a duplicate digest, or
    /// an occupied (account, nonce) slot leaves the pool unchanged; past the
    /// per-account cap the entry with the largest nonce is evicted.
    pub fn add(&mut self, tx: T)
        requires
            old(self).inv(),
        ensures
            final(self).inv(),
            final(self)@ == old(self)@.add_spec(tx),
    {
        let ghost m0 = self@;
        if self.total >= MAX_TRANSACTIONS {
            return ;
        }
        let digest = tx.digest();
        if self.digest_is_present(&digest) {
            return ;
        }
        let pk = tx.public_key();
        let nonce = tx.nonce();
        match self.find_backlog(&pk) {
            Some(bi) => {
                let ghost txs = m0.backlogs[bi as int].txs;
                let mut pos: usize = 0;
                let elen = self.backlogs[bi].entries.len();
                loop
                    invariant
                        self.inv(),
                        self@ == m0,
                        m0 == old(self)@,
                        m0.total() < MAX_TRANSACTIONS as nat,
                        !m0.digest_present(tx.spec_digest()),
                        pk@ == tx.spec_public_key(),
                        m0.has_backlog(pk@),
                        bi as int == m0.idx_of(pk@),
                        bi < self.backlogs@.len(),
                        txs == m0.backlogs[bi as int].txs,
                        elen == txs.len(),
                        pos <= elen,
                        nonce == tx.spec_nonce(),
                        forall|j: int| 0 <= j < pos ==> (#[trigger] txs[j]).spec_nonce() < nonce,
                    ensures
                        is_insert_pos(txs, nonce, pos as int),
                        pos < elen ==> txs[pos as int].spec_nonce() > nonce,
                    decreases elen - pos,
                {
                    if pos >= elen {
                        break ;
                    }
                    let n_j = self.backlogs[bi].entries[pos].tx.nonce();
                    proof {
                        assert(n_j == txs[pos as int].spec_nonce());
                    }
                    if n_j == nonce {
                        proof {
                            assert(m0.backlog_of(pk@) == txs);
                            assert(m0.nonce_present(pk@, nonce));
                            assert(self@ == m0.add_spec(tx));
                        }
                        return ;
                    }
                    if n_j > nonce {
                        break ;
                    }
                    pos += 1;
                }
                proof {
                    // no other entry can hold this nonce either
                    assert forall|j: int|
                        0 <= j < m0.backlog_of(pk@).len() implies (#[trigger] m0.backlog_of(
                        pk@,
                    )[j]).spec_nonce() != nonce by {
                        if j < pos as int {
                        } else if j == pos as int {
                        } else {
                            assert(txs[pos as int].spec_nonce() < txs[j].spec_nonce());
                        }
                    };
                    assert(!m0.nonce_present(pk@, nonce));
                    lemma_insert_pos_unique(txs, nonce, pos as int, insert_pos(txs, nonce));
                }
                self.backlogs[bi].entries.insert(pos, BacklogEntry { digest, tx });
                let ghost inserted = txs.insert(pos as int, tx);
                proof {
                    assert(self@.backlogs[bi as int].txs =~= inserted);
                    assert(self@.backlogs =~~= m0.backlogs.update(
                        bi as int,
                        BacklogModel { public_key: m0.backlogs[bi as int].public_key, txs: inserted },
                    ));
                    lemma_sum_update(
                        m0.backlogs,
                        bi as int,
                        BacklogModel { public_key: m0.backlogs[bi as int].public_key, txs: inserted },
                    );
                }
                if self.backlogs[bi].entries.len() > MAX_BACKLOG {
                    let ghost before = self@;
                    self.backlogs[bi].entries.pop();
                    proof {
                        assert(self@.backlogs[bi as int].txs =~= inserted.drop_last());
                        assert(self@.backlogs =~~= m0.backlogs.update(
                            bi as int,
                            BacklogModel {
                                public_key: m0.backlogs[bi as int].public_key,
                                txs: inserted.drop_last(),
                            },
                        ));
                        lemma_sum_update(
                            m0.backlogs,
                            bi as int,
                            BacklogModel {
                                public_key: m0.backlogs[bi as int].public_key,
                                txs: inserted.drop_last(),
                            },
                        );
                    }
                } else {
                    self.total = self.total + 1;
                }
                proof {
                    lemma_add_wf(m0, tx);
                    assert(self@ =~~= m0.add_spec(tx));
                    assert(self.total == self@.total());
                }
            },
            None => {
                let mut entries: Vec<BacklogEntry<T>> = Vec::new();
                entries.push(BacklogEntry { digest, tx });
                self.backlogs.push(Backlog { public_key: pk, entries });
                self.queue.push_back(pk);
                self.total = self.total + 1;
                proof {
                    assert(self@.backlogs[m0.backlogs.len() as int].txs =~= seq![tx]);
                    assert(self@.backlogs =~~= m0.backlogs.push(
                        BacklogModel { public_key: pk@, txs: seq![tx] },
                    ));
                    assert(self@.queue =~= m0.queue.push(pk@));
                    lemma_sum_push(m0.backlogs, BacklogModel { public_key: pk@, txs: seq![tx] });
                    assert(!m0.nonce_present(pk@, nonce));
                    lemma_add_wf(m0, tx);
                    assert(self@ =~~= m0.add_spec(tx));
                    assert(self.total == self@.total());
                }
            },
        }
    }

    /// Drop every transaction of `public` with a nonce below `min`,
    /// untracking the account if nothing is left. Stale queue entries stay.
    pub fn retain(&mut self, public: &PublicKey, min: u64)
        requires
            old(self).inv(),
        ensures
            final(self).inv(),
            final(self)@ == old(self)@.retain_spec(public@, min),
    {
        let ghost m0 = self@;
        let bi = match self.find_backlog(public) {
            Some(i) => i,
            None => {
                return ;
            },
        };
        let ghost txs = m0.backlogs[bi as int].txs;
        let elen = self.backlogs[bi].entries.len();
        let mut k: usize = 0;
        loop
            invariant
                self.inv(),
                self@ == m0,
                m0 == old(self)@,
                m0.has_backlog(public@),
                bi as int == m0.idx_of(public@),
                bi < self.backlogs@.len(),
                txs == m0.backlogs[bi as int].txs,
                elen == txs.len(),
                k <= elen,
                forall|j: int| 0 <= j < k ==> (#[trigger] txs[j]).spec_nonce() < min,
            ensures
                is_insert_pos(txs, min, k as int),
            decreases elen - k,
        {
            if k >= elen {
                break ;
            }
            let n_j = self.backlogs[bi].entries[k].tx.nonce();
            proof {
                assert(n_j == txs[k as int].spec_nonce());
            }
            if n_j >= min {
                break ;
            }
            k += 1;
        }
        proof {
            lemma_insert_pos_unique(txs, min, k as int, insert_pos(txs, min));
        }
        if k == 0 {
            proof {
                assert(txs.subrange(0, txs.len() as int) =~= txs);
                assert(self@.backlogs =~~= m0.backlogs.update(
                    bi as int,
                    BacklogModel { public_key: m0.backlogs[bi as int].public_key, txs: txs },
                ));
                assert(m0.backlogs.update(
                    bi as int,
                    BacklogModel { public_key: m0.backlogs[bi as int].public_key, txs: txs },
                ) =~~= m0.backlogs);
                assert(self@ =~~= m0.retain_spec(public@, min));
            }
            return ;
        }
        if k == elen {
            // nothing is left: untrack the account
            proof {
                lemma_sum_remove(m0.backlogs, bi as int);
            }
            self.backlogs.remove(bi);
            self.total = self.total - elen;
            proof {
                assert(txs.subrange(elen as int, txs.len() as int) =~= Seq::<T>::empty());
                assert(self@.backlogs =~~= m0.backlogs.remove(bi as int));
                lemma_retain_wf(m0, public@, min);
                assert(self@ =~~= m0.retain_spec(public@, min));
            }
            return ;
        }
        // drop the first k entries
        let mut dropped: usize = 0;
        while dropped < k
            invariant
                old(self).inv(),
                m0 == old(self)@,
                m0.has_backlog(public@),
                bi as int == m0.idx_of(public@),
                bi < self.backlogs@.len(),
                self.backlogs@.len() == m0.backlogs.len(),
                txs == m0.backlogs[bi as int].txs,
                0 < k < elen,
                elen == txs.len(),
                dropped <= k,
                self.backlogs@[bi as int].entries@.len() == elen - dropped,
                forall|b2: int|
                    0 <= b2 < m0.backlogs.len() && b2 != bi as int ==> self.backlogs@[b2]@
                        == m0.backlogs[b2],
                self.backlogs@[bi as int]@.public_key == m0.backlogs[bi as int].public_key,
                self.backlogs@[bi as int]@.txs =~= txs.subrange(dropped as int, elen as int),
                forall|i2: int, j2: int|
                    0 <= i2 < self.backlogs@.len() && 0 <= j2 < self.backlogs@[i2].entries@.len()
                        ==> (#[trigger] self.backlogs@[i2].entries@[j2]).digest@
                        == self.backlogs@[i2].entries@[j2].tx.spec_digest(),
                self.queue@ == old(self).queue@,
                self.total == old(self).total,
            decreases k - dropped,
        {
            let ghost before_txs = self.backlogs@[bi as int]@.txs;
            self.backlogs[bi].entries.remove(0);
            proof {
                assert(forall|j: int|
                    0 <= j < self.backlogs@[bi as int]@.txs.len()
                        ==> self.backlogs@[bi as int]@.txs[j] == before_txs[j + 1]);
            }
            dropped += 1;
            proof {
                assert(self.backlogs@[bi as int]@.txs =~= txs.subrange(
                    dropped as int,
                    elen as int,
                ));
            }
        }
        proof {
            lemma_sum_remove(m0.backlogs, bi as int);
        }
        self.total = self.total - k;
        let ghost kept = txs.subrange(k as int, txs.len() as int);
        proof {
            assert(self@.backlogs =~~= m0.backlogs.update(
                bi as int,
                BacklogModel { public_key: m0.backlogs[bi as int].public_key, txs: kept },
            ));
            lemma_sum_update(
                m0.backlogs,
                bi as int,
                BacklogModel { public_key: m0.backlogs[bi as int].public_key, txs: kept },
            );
            lemma_retain_wf(m0, public@, min);
            assert(self@ =~~= m0.retain_spec(public@, min));
            assert(self.total == self@.total());
        }
    }

    /// Draw the next transaction: walk the queue past stale keys, take the
    /// lowest-nonce transaction of the first tracked account, and re-queue
    /// that account at the tail if it still has pending transactions.
    pub fn next(&mut self) -> (r: Option<T>)
        requires
            old(self).inv(),
        ensures
            final(self).inv(),
            old(self)@.next_spec() == (final(self)@, r),
    {
        let ghost m0 = self@;
        loop
            invariant
                self.inv(),
                m0 == old(self)@,
                self@.backlogs == m0.backlogs,
                m0.next_spec() == self@.next_spec(),
            decreases self@.queue.len(),
        {
            let ghost s = self@;
            let pk = match self.queue.pop_front() {
                Some(p) => p,
                None => {
                    proof {
                        assert(s.queue.len() == 0);
                        assert(s.next_spec() == (s, Option::<T>::None));
                    }
                    return None;
                },
            };
            proof {
                assert(s.queue[0] == pk@);
                assert(self@.queue =~= s.queue.drop_first());
                assert(self@.backlogs == s.backlogs);
                assert(forall|i: int, j: int|
                    0 <= i < j < self@.backlogs.len() ==> self@.backlogs[i].public_key
                        != self@.backlogs[j].public_key);
            }
            match self.find_backlog(&pk) {
                None => {
                    proof {
                        assert(!s.has_backlog(pk@));
                        assert(self@ =~~= (MempoolModel {
                            backlogs: s.backlogs,
                            queue: s.queue.drop_first(),
                        }));
                        assert(s.next_spec() == self@.next_spec());
                        // a tracked account's queue entries never sat only at
                        // the popped front: it was untracked
                        assert(self.inv()) by {
                            assert forall|i: int|
                                0 <= i < self@.backlogs.len() implies self@.queue.contains(
                                #[trigger] self@.backlogs[i].public_key,
                            ) by {
                                assert(s.queue.contains(s.backlogs[i].public_key));
                                let w = choose|w: int|
                                    0 <= w < s.queue.len() && s.queue[w]
                                        == s.backlogs[i].public_key;
                                if w == 0 {
                                    assert(s.has_backlog(pk@));
                                    assert(false);
                                }
                                assert(self@.queue[w - 1] == self@.backlogs[i].public_key);
                            };
                        };
                    }
                },
                Some(bi) => {
                    let ghost txs = s.backlogs[bi as int].txs;
                    let entry = self.backlogs[bi].entries.remove(0);
                    let tx = entry.tx;
                    let remaining = self.backlogs[bi].entries.len();
                    if remaining > 0 {
                        self.queue.push_back(pk);
                    } else {
                        self.backlogs.remove(bi);
                    }
                    proof {
                        assert(sum_txs(m0.backlogs) >= m0.backlogs[bi as int].txs.len()) by {
                            lemma_sum_remove(m0.backlogs, bi as int);
                        };
                    }
                    self.total = self.total - 1;
                    proof {
                        assert(tx == txs[0]);
                        if txs.len() > 1 {
                            assert(self@.backlogs =~~= s.backlogs.update(
                                bi as int,
                                BacklogModel {
                                    public_key: s.backlogs[bi as int].public_key,
                                    txs: txs.drop_first(),
                                },
                            ));
                            assert(self@.queue =~= s.queue.drop_first().push(pk@));
                            lemma_sum_update(
                                s.backlogs,
                                bi as int,
                                BacklogModel {
                                    public_key: s.backlogs[bi as int].public_key,
                                    txs: txs.drop_first(),
                                },
                            );
                            lemma_next_wf(s, pk@);
                            assert(s.next_spec() == (self@, Some(tx)));
                        } else {
                            assert(txs.drop_first().len() == 0);
                            assert(self@.backlogs =~~= s.backlogs.remove(bi as int));
                            assert(self@.queue =~= s.queue.drop_first());
                            lemma_sum_remove(s.backlogs, bi as int);
                            lemma_next_wf(s, pk@);
                            assert(s.next_spec() == (self@, Some(tx)));
                        }
                        assert(self.total == self@.total());
                    }
                    return Some(tx);
                },
            }
        }
    }

    /// How many transactions are pending in all.
    pub fn len(&self) -> (r: usize)
        requires
            self.inv(),
        ensures
            r == self@.total(),
    {
        self.total
    }

    /// How many transactions account `pk` has pending.
    pub fn backlog_len(&self, pk: &PublicKey) -> (r: usize)
        requires
            self.inv(),
        ensures
            r == self@.backlog_of(pk@).len(),
    {
        match self.find_backlog(pk) {
            Some(i) => self.backlogs[i].entries.len(),
            None => 0,
        }
    }

    /// An empty mempool.
    pub fn new() -> (r: Mempool<T>)
        ensures
            r.inv(),
            r@.backlogs.len() == 0,
            r@.queue.len() == 0,
    {
        let r = Mempool { backlogs: Vec::new(), queue: VecDeque::new(), total: 0 };
        proof {
            assert(r@.backlogs =~= Seq::<BacklogModel<T>>::empty());
            assert(r@.queue =~= Seq::<Seq<u8>>::empty());
        }
        r
    }
}

/// LAW (mempool). `Add` is idempotent under a duplicate digest and under an
/// occupied (account, nonce) slot: either repeat leaves the pool unchanged.
pub proof fn lemma_add_idempotent<T: MempoolTransaction>(m: MempoolModel<T>, tx: T)
    requires
        m.wf(),
    ensures
        m.digest_present(tx.spec_digest()) ==> m.add_spec(tx) == m,
        m.nonce_present(tx.spec_public_key(), tx.spec_nonce()) ==> m.add_spec(tx) == m,
{
}

/// LAW (mempool). Each account keeps at most `MAX_BACKLOG` pending
/// transactions, and the pool at most `MAX_TRANSACTIONS` in all.
pub proof fn lemma_size_bounds<T: MempoolTransaction>(m: MempoolModel<T>, pk: Seq<u8>)
    requires
        m.wf(),
    ensures
        m.backlog_of(pk).len() <= MAX_BACKLOG,
        m.total() <= MAX_TRANSACTIONS,
{
    if m.has_backlog(pk) {
        let i = m.idx_of(pk);
        assert(0 <= i < m.backlogs.len() && m.backlogs[i].public_key == pk);
    }
}

/// LAW (mempool). `Retain(pk, min)` removes exactly the transactions of `pk`
/// with nonce below `min`: what stays is the ordered suffix at or above
/// `min`, and every other account is untouched.
pub proof fn lemma_retain_exact<T: MempoolTransaction>(m: MempoolModel<T>, pk: Seq<u8>, min: u64)
    requires
        m.wf(),
    ensures
        ({
            let u = m.retain_spec(pk, min);
            let txs = m.backlog_of(pk);
            let cut = insert_pos(txs, min);
            &&& u.backlog_of(pk) == txs.subrange(cut, txs.len() as int)
            &&& forall|j: int| 0 <= j < cut ==> (#[trigger] txs[j]).spec_nonce() < min
            &&& forall|j: int| cut <= j < txs.len() ==> (#[trigger] txs[j]).spec_nonce() >= min
            &&& forall|pk2: Seq<u8>| pk2 != pk ==> u.backlog_of(pk2) == m.backlog_of(pk2)
        }),
{
    let u = m.retain_spec(pk, min);
    if !m.has_backlog(pk) {
        let txs = m.backlog_of(pk);
        lemma_insert_pos_exists(txs, min);
        lemma_insert_pos_unique(txs, min, 0, insert_pos(txs, min));
        assert(u.backlog_of(pk) =~= txs.subrange(0, 0));
    } else {
        let bi = m.idx_of(pk);
        let txs = m.backlogs[bi].txs;
        assert(m.backlog_of(pk) == txs);
        lemma_insert_pos_exists(txs, min);
        let cut = insert_pos(txs, min);
        assert(is_insert_pos(txs, min, cut));
        assert forall|j: int| cut <= j < txs.len() implies (#[trigger] txs[j]).spec_nonce()
            >= min by {
            if j > cut {
                assert(txs[cut].spec_nonce() < txs[j].spec_nonce());
            }
        };
        let kept = txs.subrange(cut, txs.len() as int);
        if kept.len() == 0 {
            assert(!u.has_backlog(pk)) by {
                if u.has_backlog(pk) {
                    let i = u.idx_of(pk);
                    let iold = if i < bi {
                        i
                    } else {
                        i + 1
                    };
                    assert(u.backlogs[i] == m.backlogs[iold]);
                    assert(iold != bi);
                    assert(m.backlogs[iold].public_key == m.backlogs[bi].public_key);
                }
            };
            assert(u.backlog_of(pk) =~= kept);
            assert forall|pk2: Seq<u8>| pk2 != pk implies u.backlog_of(pk2) == m.backlog_of(
                pk2,
            ) by {
                lemma_remove_other_backlogs(m, u, bi, pk2);
            };
        } else {
            assert(u.has_backlog(pk)) by {
                assert(u.backlogs[bi].public_key == pk);
            };
            assert(u.idx_of(pk) == bi) by {
                let i = u.idx_of(pk);
                assert(0 <= i < u.backlogs.len() && u.backlogs[i].public_key == pk);
                if i != bi {
                    assert(m.backlogs[i].public_key == pk);
                    assert(false);
                }
            };
            assert forall|pk2: Seq<u8>| pk2 != pk implies u.backlog_of(pk2) == m.backlog_of(
                pk2,
            ) by {
                lemma_update_other_backlogs(m, u, bi, pk2);
            };
        }
    }
}

/// After `bi` is removed, every other account's backlog reads the same.
proof fn lemma_remove_other_backlogs<T: MempoolTransaction>(
    m: MempoolModel<T>,
    u: MempoolModel<T>,
    bi: int,
    pk2: Seq<u8>,
)
    requires
        m.wf(),
        0 <= bi < m.backlogs.len(),
        u.backlogs == m.backlogs.remove(bi),
        pk2 != m.backlogs[bi].public_key,
    ensures
        u.backlog_of(pk2) == m.backlog_of(pk2),
{
    assert(forall|i: int| 0 <= i < bi ==> u.backlogs[i] == m.backlogs[i]);
    assert(forall|i: int| bi <= i < u.backlogs.len() ==> u.backlogs[i] == m.backlogs[i + 1]);
    if m.has_backlog(pk2) {
        let i = m.idx_of(pk2);
        assert(0 <= i < m.backlogs.len() && m.backlogs[i].public_key == pk2);
        assert(i != bi);
        let inew = if i < bi {
            i
        } else {
            i - 1
        };
        assert(u.backlogs[inew] == m.backlogs[i]);
        assert(u.has_backlog(pk2));
        let j = u.idx_of(pk2);
        assert(0 <= j < u.backlogs.len() && u.backlogs[j].public_key == pk2);
        let jold = if j < bi {
            j
        } else {
            j + 1
        };
        assert(m.backlogs[jold].public_key == pk2);
        if jold != i {
            assert(false);
        }
    } else {
        if u.has_backlog(pk2) {
            let j = u.idx_of(pk2);
            let jold = if j < bi {
                j
            } else {
                j + 1
            };
            assert(m.backlogs[jold].public_key == pk2);
        }
    }
}

/// After `bi` is replaced, every other account's backlog reads the same.
proof fn lemma_update_other_backlogs<T: MempoolTransaction>(
    m: MempoolModel<T>,
    u: MempoolModel<T>,
    bi: int,
    pk2: Seq<u8>,
)
    requires
        m.wf(),
        0 <= bi < m.backlogs.len(),
        u.backlogs.len() == m.backlogs.len(),
        forall|i: int| 0 <= i < m.backlogs.len() && i != bi ==> u.backlogs[i] == m.backlogs[i],
        u.backlogs[bi].public_key == m.backlogs[bi].public_key,
        pk2 != m.backlogs[bi].public_key,
    ensures
        u.backlog_of(pk2) == m.backlog_of(pk2),
{
    if m.has_backlog(pk2) {
        let i = m.idx_of(pk2);
        assert(0 <= i < m.backlogs.len() && m.backlogs[i].public_key == pk2);
        assert(i != bi);
        assert(u.backlogs[i].public_key == pk2);
        assert(u.has_backlog(pk2));
        let j = u.idx_of(pk2);
        assert(0 <= j < u.backlogs.len() && u.backlogs[j].public_key == pk2);
        assert(j != bi);
        assert(m.backlogs[j].public_key == pk2);
        if j != i {
            assert(false);
        }
    } else {
        if u.has_backlog(pk2) {
            let j = u.idx_of(pk2);
            assert(j != bi);
            assert(m.backlogs[j].public_key == pk2);
        }
    }
}

/// Dropping a stale queue key changes no account's backlog and keeps the
/// pool well-formed.
proof fn lemma_skip_stale_wf<T: MempoolTransaction>(m: MempoolModel<T>)
    requires
        m.wf(),
        m.queue.len() > 0,
        !m.has_backlog(m.queue[0]),
    ensures
        (MempoolModel { backlogs: m.backlogs, queue: m.queue.drop_first() }).wf(),
        forall|pk: Seq<u8>|
            (MempoolModel { backlogs: m.backlogs, queue: m.queue.drop_first() }).backlog_of(pk)
                == #[trigger] m.backlog_of(pk),
{
    let m2 = MempoolModel { backlogs: m.backlogs, queue: m.queue.drop_first() };
    assert forall|i: int| 0 <= i < m2.backlogs.len() implies m2.queue.contains(
        #[trigger] m2.backlogs[i].public_key,
    ) by {
        let w = choose|w: int| 0 <= w < m.queue.len() && m.queue[w] == m.backlogs[i].public_key;
        if w == 0 {
            assert(m.has_backlog(m.queue[0]));
            assert(false);
        }
        assert(m2.queue[w - 1] == m2.backlogs[i].public_key);
    };
}

/// Every pending nonce of account `pk` exceeds `n`.
pub open spec fn all_above<T: MempoolTransaction>(m: MempoolModel<T>, pk: Seq<u8>, n: u64) -> bool {
    forall|j: int|
        0 <= j < m.backlog_of(pk).len() ==> (#[trigger] m.backlog_of(pk)[j]).spec_nonce() > n
}

/// A draw keeps the pool well-formed.
pub proof fn lemma_next_wf_any<T: MempoolTransaction>(m: MempoolModel<T>)
    requires
        m.wf(),
    ensures
        m.next_spec().0.wf(),
    decreases m.queue.len(),
{
    if m.queue.len() == 0 {
    } else if !m.has_backlog(m.queue[0]) {
        lemma_skip_stale_wf(m);
        lemma_next_wf_any(MempoolModel { backlogs: m.backlogs, queue: m.queue.drop_first() });
    } else {
        lemma_next_wf(m, m.queue[0]);
    }
}

/// Backlogs only shrink from the front under a draw: whatever nonce bound an
/// account's pending transactions satisfy, they keep satisfying it.
proof fn lemma_next_keeps_above<T: MempoolTransaction>(m: MempoolModel<T>, pk: Seq<u8>, n: u64)
    requires
        m.wf(),
        all_above(m, pk, n),
    ensures
        m.next_spec().0.wf(),
        all_above(m.next_spec().0, pk, n),
    decreases m.queue.len(),
{
    lemma_next_wf_any(m);
    if m.queue.len() == 0 {
    } else {
        let pk0 = m.queue[0];
        if !m.has_backlog(pk0) {
            lemma_skip_stale_wf(m);
            let m2 = MempoolModel { backlogs: m.backlogs, queue: m.queue.drop_first() };
            assert(m2.backlog_of(pk) == m.backlog_of(pk));
            assert(all_above(m2, pk, n));
            lemma_next_keeps_above(m2, pk, n);
        } else {
            let u = m.next_spec().0;
            let bi = m.idx_of(pk0);
            let txs = m.backlogs[bi].txs;
            if pk == pk0 {
                lemma_next_ascending(m);
                if txs.len() > 1 {
                    assert(m.backlog_of(pk0) == txs);
                    assert forall|j: int| 0 <= j < u.backlog_of(pk).len() implies (
                    #[trigger] u.backlog_of(pk)[j]).spec_nonce() > n by {
                        assert(u.backlog_of(pk)[j] == txs[j + 1]);
                    };
                } else {
                    assert(u.backlog_of(pk).len() == 0) by {
                        lemma_next_ascending(m);
                    };
                }
            } else {
                if txs.len() > 1 {
                    lemma_update_other_backlogs(m, u, bi, pk);
                } else {
                    lemma_remove_other_backlogs(m, u, bi, pk);
                }
            }
        }
    }
}

/// Consecutive states of a run of draws.
pub open spec fn draw_chain<T: MempoolTransaction>(ms: Seq<MempoolModel<T>>) -> bool {
    forall|i: int| 0 <= i < ms.len() - 1 ==> ms[i + 1] == (#[trigger] ms[i].next_spec()).0
}

/// Along a run of draws, a nonce bound and well-formedness carry from state
/// `lo` to state `hi`.
proof fn lemma_chain_keeps_above<T: MempoolTransaction>(
    ms: Seq<MempoolModel<T>>,
    pk: Seq<u8>,
    n: u64,
    lo: int,
    hi: int,
)
    requires
        draw_chain(ms),
        0 <= lo <= hi < ms.len(),
        ms[lo].wf(),
        all_above(ms[lo], pk, n),
    ensures
        ms[hi].wf(),
        all_above(ms[hi], pk, n),
    decreases hi - lo,
{
    if lo < hi {
        lemma_next_keeps_above(ms[lo], pk, n);
        assert(ms[lo + 1] == ms[lo].next_spec().0);
        lemma_chain_keeps_above(ms, pk, n, lo + 1, hi);
    }
}

/// Well-formedness carries along a run of draws.
proof fn lemma_chain_wf<T: MempoolTransaction>(ms: Seq<MempoolModel<T>>, hi: int)
    requires
        draw_chain(ms),
        ms.len() >= 1,
        ms[0].wf(),
        0 <= hi < ms.len(),
    ensures
        ms[hi].wf(),
    decreases hi,
{
    if hi > 0 {
        lemma_chain_wf(ms, hi - 1);
        lemma_next_wf_any(ms[hi - 1]);
        assert(ms[(hi - 1) + 1] == ms[hi - 1].next_spec().0);
    }
}

/// LAW (mempool, round-robin step). A drawn account that still has pending
/// transactions re-enters the queue at the very tail: its fresh entry stands
/// behind every key queued before it, so the schedule rotates through the
/// other accounts before returning to it.
pub proof fn lemma_draw_requeues_last<T: MempoolTransaction>(m: MempoolModel<T>)
    requires
        m.wf(),
        m.queue.len() > 0,
        m.has_backlog(m.queue[0]),
        m.backlog_of(m.queue[0]).len() > 1,
    ensures
        ({
            let u = m.next_spec().0;
            &&& u.queue.len() == m.queue.len()
            &&& u.queue.last() == m.queue[0]
            &&& forall|w: int| 1 <= w < m.queue.len() ==> u.queue[w - 1] == m.queue[w]
        }),
{
    let pk = m.queue[0];
    assert(m.backlog_of(pk) == m.backlogs[m.idx_of(pk)].txs);
}

/// LAW (mempool). Along any run of draws, one account's transactions come
/// out in strictly ascending nonce order: a later draw from the same account
/// always carries a larger nonce than an earlier one.
pub proof fn lemma_draws_ascend<T: MempoolTransaction>(ms: Seq<MempoolModel<T>>, i1: int, i2: int)
    requires
        draw_chain(ms),
        ms.len() >= 1,
        ms[0].wf(),
        0 <= i1 < i2 < ms.len(),
        ms[i1].next_spec().1 is Some,
        ms[i2].next_spec().1 is Some,
        ms[i1].next_spec().1->Some_0.spec_public_key() == ms[i2].next_spec().1->Some_0.spec_public_key(),
    ensures
        ms[i1].next_spec().1->Some_0.spec_nonce() < ms[i2].next_spec().1->Some_0.spec_nonce(),
{
    let tx1 = ms[i1].next_spec().1->Some_0;
    let tx2 = ms[i2].next_spec().1->Some_0;
    let pk = tx1.spec_public_key();
    lemma_chain_wf(ms, i1);
    lemma_next_ascending(ms[i1]);
    lemma_next_wf_any(ms[i1]);
    assert(all_above(ms[i1].next_spec().0, pk, tx1.spec_nonce()));
    assert(ms[i1 + 1] == ms[i1].next_spec().0);
    assert(ms[i1 + 1].wf());
    lemma_chain_keeps_above(ms, pk, tx1.spec_nonce(), i1 + 1, i2);
    lemma_next_ascending(ms[i2]);
    assert(tx2 == ms[i2].backlog_of(pk)[0]);
    assert(ms[i2].backlog_of(pk).len() > 0);
    assert(tx2.spec_nonce() > tx1.spec_nonce());
}

/// LAW (mempool). A draw hands out its account's lowest pending nonce:
/// everything the account still has pending carries a strictly larger one,
/// and no other account's backlog changes.
pub proof fn lemma_next_ascending<T: MempoolTransaction>(m: MempoolModel<T>)
    requires
        m.wf(),
    ensures
        ({
            let (u, r) = m.next_spec();
            r matches Some(tx) ==> {
                let pk = tx.spec_public_key();
                &&& m.has_backlog(pk)
                &&& tx == m.backlog_of(pk)[0]
                &&& forall|j: int|
                    0 <= j < u.backlog_of(pk).len() ==> (#[trigger] u.backlog_of(
                        pk,
                    )[j]).spec_nonce() > tx.spec_nonce()
                &&& forall|pk2: Seq<u8>| pk2 != pk ==> u.backlog_of(pk2) == m.backlog_of(pk2)
            }
        }),
    decreases m.queue.len(),
{
    if m.queue.len() == 0 {
    } else {
        let pk0 = m.queue[0];
        if !m.has_backlog(pk0) {
            let m2 = MempoolModel { backlogs: m.backlogs, queue: m.queue.drop_first() };
            assert(m2.wf()) by {
                assert forall|i: int| 0 <= i < m2.backlogs.len() implies m2.queue.contains(
                    #[trigger] m2.backlogs[i].public_key,
                ) by {
                    let w = choose|w: int|
                        0 <= w < m.queue.len() && m.queue[w] == m.backlogs[i].public_key;
                    if w == 0 {
                        assert(m.has_backlog(pk0));
                        assert(false);
                    }
                    assert(m2.queue[w - 1] == m2.backlogs[i].public_key);
                };
            };
            assert(forall|pk2: Seq<u8>| m2.backlog_of(pk2) == m.backlog_of(pk2));
            lemma_next_ascending(m2);
        } else {
            let bi = m.idx_of(pk0);
            let txs = m.backlogs[bi].txs;
            let tx = txs[0];
            let (u, r) = m.next_spec();
            assert(tx.spec_public_key() == pk0);
            assert(m.backlog_of(pk0) == txs);
            if txs.len() > 1 {
                assert(u.backlogs[bi].public_key == pk0);
                assert(u.has_backlog(pk0));
                assert(u.idx_of(pk0) == bi) by {
                    let j = u.idx_of(pk0);
                    if j != bi {
                        assert(m.backlogs[j].public_key == pk0);
                        assert(false);
                    }
                };
                assert(u.backlog_of(pk0) == txs.drop_first());
                assert(forall|j: int|
                    0 <= j < txs.drop_first().len() ==> txs.drop_first()[j] == txs[j + 1]);
                assert forall|pk2: Seq<u8>| pk2 != pk0 implies u.backlog_of(pk2) == m.backlog_of(
                    pk2,
                ) by {
                    lemma_update_other_backlogs(m, u, bi, pk2);
                };
            } else {
                assert(!u.has_backlog(pk0)) by {
                    if u.has_backlog(pk0) {
                        let j = u.idx_of(pk0);
                        let jold = if j < bi {
                            j
                        } else {
                            j + 1
                        };
                        assert(m.backlogs[jold].public_key == pk0);
                        assert(jold != bi);
                        assert(false);
                    }
                };
                assert(u.backlog_of(pk0) == Seq::<T>::empty());
                assert forall|pk2: Seq<u8>| pk2 != pk0 implies u.backlog_of(pk2) == m.backlog_of(
                    pk2,
                ) by {
                    lemma_remove_other_backlogs(m, u, bi, pk2);
                };
            }
        }
    }
}

} // verus!
