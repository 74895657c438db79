//! The swarm's state-transition executor: transactions are validated and
//! applied against a two-layer state — the committed values underneath and a
//! key-sorted write overlay on top — so that a whole batch commits
//! atomically and each transaction reads its predecessors' writes.

use vstd::prelude::*;

use crate::digest::{bytes32_lt, lemma_lex_irreflexive, lemma_lex_transitive, lemma_lex_trichotomy,
    lex_lt, PublicKey};
use crate::fork_choice_tree::bump64;
use crate::oracle_execution::{assoc_unique, assoc_upsert};
use crate::swarm_types::{Account, Instruction, Key, Transaction, TransferBread, Value};

verus! {

/// A staged change to one key of the authenticated store.
#[derive(Clone, Copy, Debug, PartialEq, Eq)]
pub enum StateOperation {
    Update(Value),
    Delete,
}

/// The byte identity of a store key.
pub open spec fn key_id(k: Key) -> Seq<u8> {
    match k {
        Key::Account(p) => p@,
    }
}

/// Mathematical image of the two-layer state: the committed values of the
/// touched keys, and the staged overlay in ascending key order.
#[verifier::ext_equal]
pub struct LayerModel {
    pub base: Seq<(Seq<u8>, Option<Value>)>,
    pub pending: Seq<(Seq<u8>, StateOperation)>,
}

impl LayerModel {
    pub open spec fn base_has(self, pk: Seq<u8>) -> bool {
        exists|i: int| 0 <= i < self.base.len() && self.base[i].0 == pk
    }

    pub open spec fn base_idx(self, pk: Seq<u8>) -> int {
        choose|i: int| 0 <= i < self.base.len() && self.base[i].0 == pk
    }

    /// The committed value under `pk`; a key outside the snapshot is absent.
    pub open spec fn base_get(self, pk: Seq<u8>) -> Option<Value> {
        if self.base_has(pk) {
            self.base[self.base_idx(pk)].1
        } else {
            None
        }
    }

    pub open spec fn pend_has(self, pk: Seq<u8>) -> bool {
        exists|i: int| 0 <= i < self.pending.len() && self.pending[i].0 == pk
    }

    pub open spec fn pend_idx(self, pk: Seq<u8>) -> int {
        choose|i: int| 0 <= i < self.pending.len() && self.pending[i].0 == pk
    }

    /// Read through the overlay: a staged update wins, a staged delete reads
    /// as absent, anything else falls through to the committed value.
    pub open spec fn get(self, pk: Seq<u8>) -> Option<Value> {
        if self.pend_has(pk) {
            match self.pending[self.pend_idx(pk)].1 {
                StateOperation::Update(v) => Some(v),
                StateOperation::Delete => None,
            }
        } else {
            self.base_get(pk)
        }
    }

    /// Committed keys unique; the overlay strictly ascending by key.
    pub open spec fn wf(self) -> bool {
        &&& forall|i: int, j: int| 0 <= i < j < self.base.len() ==> self.base[i].0 != self.base[j].0
        &&& forall|i: int, j: int|
            0 <= i < j < self.pending.len() ==> lex_lt(
                (#[trigger] self.pending[i]).0,
                (#[trigger] self.pending[j]).0,
            )
        &&& forall|i: int| 0 <= i < self.pending.len() ==> (#[trigger] self.pending[i]).0.len()
            == 32
    }

    /// The overlay with `pk` staged as `op`: replaced in place, or inserted
    /// at its key-sorted position.
    pub open spec fn stage(self, pk: Seq<u8>, op: StateOperation) -> LayerModel {
        if self.pend_has(pk) {
            LayerModel { pending: self.pending.update(self.pend_idx(pk), (pk, op)), ..self }
        } else {
            LayerModel {
                pending: self.pending.insert(pend_insert_pos(self.pending, pk), (pk, op)),
                ..self
            }
        }
    }

    /// The account readable under `pk`, if the slot holds one.
    pub open spec fn account_at(self, pk: Seq<u8>) -> Option<Account> {
        match self.get(pk) {
            Some(Value::Account(a)) => Some(a),
            _ => None,
        }
    }
}

/// `p` is where key `pk` belongs in the sorted overlay.
pub open spec fn is_pend_pos(s: Seq<(Seq<u8>, StateOperation)>, pk: Seq<u8>, p: int) -> bool {
    &&& 0 <= p <= s.len()
    &&& forall|j: int| 0 <= j < p ==> lex_lt((#[trigger] s[j]).0, pk)
    &&& p < s.len() ==> !lex_lt(s[p].0, pk)
}

/// The unique insert position of key `pk`.
pub open spec fn pend_insert_pos(s: Seq<(Seq<u8>, StateOperation)>, pk: Seq<u8>) -> int {
    choose|p: int| is_pend_pos(s, pk, p)
}

proof fn lemma_pend_pos_unique(s: Seq<(Seq<u8>, StateOperation)>, pk: Seq<u8>, p1: int, p2: int)
    requires
        is_pend_pos(s, pk, p1),
        is_pend_pos(s, pk, p2),
    ensures
        p1 == p2,
{
    if p1 < p2 {
        assert(lex_lt(s[p1].0, pk));
        lemma_lex_irreflexive(s[p1].0);
    }
    if p2 < p1 {
        assert(lex_lt(s[p2].0, pk));
        lemma_lex_irreflexive(s[p2].0);
    }
}

/// Staging keeps the overlay sorted, and reads of other keys unchanged.
proof fn lemma_stage_wf(m: LayerModel, pk: Seq<u8>, op: StateOperation, p: int)
    requires
        m.wf(),
        pk.len() == 32,
        !m.pend_has(pk),
        is_pend_pos(m.pending, pk, p),
    ensures
        m.stage(pk, op).wf(),
        m.stage(pk, op).pending == m.pending.insert(p, (pk, op)),
{
    lemma_pend_pos_unique(m.pending, pk, p, pend_insert_pos(m.pending, pk));
    let s2 = m.pending.insert(p, (pk, op));
    assert(forall|j: int| 0 <= j < p ==> s2[j] == m.pending[j]);
    assert(s2[p] == (pk, op));
    assert(forall|j: int| p < j < s2.len() ==> s2[j] == m.pending[j - 1]);
    assert forall|i: int, j: int| 0 <= i < j < s2.len() implies lex_lt(
        (#[trigger] s2[i]).0,
        (#[trigger] s2[j]).0,
    ) by {
        if i < p && j < p {
        } else if i < p && j == p {
        } else if i == p && j > p {
            // the key differs from its successor, so it sorts strictly below
            let w = s2[j].0;
            assert(w == m.pending[j - 1].0);
            assert(!lex_lt(w, pk) || j - 1 >= p);
            if j - 1 == p {
                assert(!lex_lt(w, pk));
                assert(w != pk) by {
                    if w == pk {
                        assert(m.pending[j - 1].0 == pk);
                        assert(m.pend_has(pk));
                    }
                };
                lemma_lex_trichotomy(pk, w);
            } else {
                assert(lex_lt(m.pending[p].0, w));
                assert(!lex_lt(m.pending[p].0, pk));
                assert(m.pending[p].0 != pk) by {
                    if m.pending[p].0 == pk {
                        assert(m.pend_has(pk));
                    }
                };
                lemma_lex_trichotomy(pk, m.pending[p].0);
                lemma_lex_transitive(pk, m.pending[p].0, w);
            }
        } else if i < p && j > p {
            if j - 1 == i {
            } else {
                assert(lex_lt(m.pending[i].0, m.pending[j - 1].0));
            }
        } else {
            assert(s2[i] == m.pending[i - 1] && s2[j] == m.pending[j - 1]);
        }
    };
}

/// The outcome of a batch so far: the staged overlay, the next expected
/// nonce per account with a valid transaction, and the invalid transactions
/// in order.
#[verifier::ext_equal]
pub struct SwarmOutcome {
    pub layer: LayerModel,
    pub processed: Seq<(Seq<u8>, u64)>,
    pub invalid: Seq<Transaction>,
}

impl SwarmOutcome {
    pub open spec fn wf(self) -> bool {
        &&& self.layer.wf()
        &&& assoc_unique(self.processed)
    }
}

/// The whole effect of one transaction. The sender must exist through the
/// overlay and match the nonce, and must hold the transferred amount;
/// otherwise the transaction is invalid and stages nothing. A valid transfer
/// stages the sender with the advanced nonce and reduced balance, then the
/// receiver (a fresh account if absent) with the increased balance — in that
/// order, so a self-transfer's receiver write wins. Balances and nonces
/// saturate at the maximum.
pub open spec fn swarm_step(o: SwarmOutcome, tx: Transaction) -> (SwarmOutcome, bool) {
    let pk = tx.public_key@;
    match o.layer.account_at(pk) {
        None => (SwarmOutcome { invalid: o.invalid.push(tx), ..o }, false),
        Some(sender) => {
            if sender.nonce != tx.nonce {
                (SwarmOutcome { invalid: o.invalid.push(tx), ..o }, false)
            } else {
                let Instruction::TransferBread(tb) = tx.instruction;
                if sender.bread < tb.amount {
                    (SwarmOutcome { invalid: o.invalid.push(tx), ..o }, false)
                } else {
                    let receiver = match o.layer.account_at(tb.to@) {
                        Some(a) => a,
                        None => Account { nonce: 0, bread: 0 },
                    };
                    let sender2 = Account {
                        nonce: bump64(tx.nonce),
                        bread: (sender.bread - tb.amount) as u64,
                    };
                    let receiver2 = Account {
                        nonce: receiver.nonce,
                        bread: sat_add64(receiver.bread, tb.amount),
                    };
                    let layer2 = o.layer.stage(pk, StateOperation::Update(Value::Account(sender2)));
                    let layer3 = layer2.stage(
                        tb.to@,
                        StateOperation::Update(Value::Account(receiver2)),
                    );
                    (
                        SwarmOutcome {
                            layer: layer3,
                            processed: assoc_upsert(o.processed, pk, bump64(tx.nonce)),
                            invalid: o.invalid,
                        },
                        true,
                    )
                }
            }
        },
    }
}

/// Saturating addition.
pub open spec fn sat_add64(a: u64, b: u64) -> u64 {
    if a + b > u64::MAX {
        u64::MAX
    } else {
        (a + b) as u64
    }
}

/// The whole effect of a batch, transaction by transaction in order.
pub open spec fn swarm_run(o: SwarmOutcome, txs: Seq<Transaction>) -> SwarmOutcome
    decreases txs.len(),
{
    if txs.len() == 0 {
        o
    } else {
        swarm_run(swarm_step(o, txs[0]).0, txs.drop_first())
    }
}

/// LAW (swarm). An invalid transaction stages nothing: the overlay after the
/// step is exactly the overlay before it, so no key the transaction touched
/// is modified.
pub proof fn lemma_invalid_stages_nothing(o: SwarmOutcome, tx: Transaction)
    requires
        o.wf(),
    ensures
        !swarm_step(o, tx).1 ==> swarm_step(o, tx).0.layer == o.layer,
        !swarm_step(o, tx).1 ==> swarm_step(o, tx).0.processed == o.processed,
{
}

/// Every sorted overlay offers an insert position for any key.
proof fn lemma_pend_pos_exists(s: Seq<(Seq<u8>, StateOperation)>, pk: Seq<u8>)
    requires
        forall|i: int, j: int|
            0 <= i < j < s.len() ==> lex_lt((#[trigger] s[i]).0, (#[trigger] s[j]).0),
    ensures
        exists|p: int| is_pend_pos(s, pk, p),
    decreases s.len(),
{
    if s.len() == 0 {
        assert(is_pend_pos(s, pk, 0));
    } else if !lex_lt(s[0].0, pk) {
        assert(is_pend_pos(s, pk, 0));
    } else {
        let tail = s.drop_first();
        assert(forall|j: int| 0 <= j < tail.len() ==> tail[j] == s[j + 1]);
        lemma_pend_pos_exists(tail, pk);
        let q = choose|q: int| is_pend_pos(tail, pk, q);
        assert forall|j: int| 0 <= j < q + 1 implies lex_lt((#[trigger] s[j]).0, pk) by {
            if j > 0 {
                assert(lex_lt(tail[j - 1].0, pk));
            }
        };
        assert(is_pend_pos(s, pk, q + 1));
    }
}

/// Staging any key keeps the overlay sorted.
proof fn lemma_stage_wf_any(m: LayerModel, pk: Seq<u8>, op: StateOperation)
    requires
        m.wf(),
        pk.len() == 32,
    ensures
        m.stage(pk, op).wf(),
{
    if m.pend_has(pk) {
        let i = m.pend_idx(pk);
        assert(0 <= i < m.pending.len() && m.pending[i].0 == pk);
        let s2 = m.pending.update(i, (pk, op));
        assert(forall|j: int| 0 <= j < s2.len() ==> s2[j].0 == m.pending[j].0);
    } else {
        lemma_pend_pos_exists(m.pending, pk);
        let p = choose|p: int| is_pend_pos(m.pending, pk, p);
        lemma_stage_wf(m, pk, op, p);
    }
}

/// One step keeps the outcome well-formed.
pub proof fn lemma_swarm_step_wf(o: SwarmOutcome, tx: Transaction)
    requires
        o.wf(),
    ensures
        swarm_step(o, tx).0.wf(),
{
    let pk = tx.public_key@;
    let (o2, valid) = swarm_step(o, tx);
    if valid {
        let Instruction::TransferBread(tb) = tx.instruction;
        let sender = o.layer.account_at(pk)->Some_0;
        let sender2 = Account { nonce: bump64(tx.nonce), bread: (sender.bread - tb.amount) as u64 };
        let layer2 = o.layer.stage(pk, StateOperation::Update(Value::Account(sender2)));
        lemma_stage_wf_any(o.layer, pk, StateOperation::Update(Value::Account(sender2)));
        let receiver = match o.layer.account_at(tb.to@) {
            Some(a) => a,
            None => Account { nonce: 0, bread: 0 },
        };
        let receiver2 = Account { nonce: receiver.nonce, bread: sat_add64(receiver.bread, tb.amount) };
        lemma_stage_wf_any(layer2, tb.to@, StateOperation::Update(Value::Account(receiver2)));
        crate::oracle_execution::lemma_assoc_upsert_unique(o.processed, pk, bump64(tx.nonce));
    }
}

/// The two-layer execution state: the committed values of the keys a batch
/// may touch, and the staged overlay in ascending key order.
pub struct StateLayer {
    base: Vec<(Key, Option<Value>)>,
    pending: Vec<(Key, StateOperation)>,
}

impl View for StateLayer {
    type V = LayerModel;

    closed spec fn view(&self) -> LayerModel {
        LayerModel {
            base: self.base@.map_values(|e: (Key, Option<Value>)| (key_id(e.0), e.1)),
            pending: self.pending@.map_values(|e: (Key, StateOperation)| (key_id(e.0), e.1)),
        }
    }
}

/// Do two keys name the same slot?
fn key_equals(a: &Key, b: &Key) -> (r: bool)
    ensures
        r == (key_id(*a) == key_id(*b)),
{
    match (a, b) {
        (Key::Account(x), Key::Account(y)) => x.equals(y),
    }
}

impl StateLayer {
    /// A fresh overlay above the given committed snapshot, which must list
    /// each key at most once. A key absent from the snapshot reads as an
    /// absent value.
    pub fn new(base: Vec<(Key, Option<Value>)>) -> (r: StateLayer)
        requires
            forall|i: int, j: int|
                0 <= i < j < base@.len() ==> key_id(base@[i].0) != key_id(base@[j].0),
        ensures
            r@.wf(),
            r@.base == base@.map_values(|e: (Key, Option<Value>)| (key_id(e.0), e.1)),
            r@.pending.len() == 0,
    {
        let r = StateLayer { base, pending: Vec::new() };
        proof {
            assert(r@.pending =~= Seq::<(Seq<u8>, StateOperation)>::empty());
        }
        r
    }

    /// Index of `key` in the overlay, if staged.
    fn find_pending(&self, key: &Key) -> (r: Option<usize>)
        requires
            self@.wf(),
        ensures
            match r {
                Some(i) => i < self@.pending.len() && self@.pending[i as int].0 == key_id(*key)
                    && self@.pend_idx(key_id(*key)) == i && self@.pend_has(key_id(*key)),
                None => !self@.pend_has(key_id(*key)),
            },
    {
        let ghost pk = key_id(*key);
        let mut i: usize = 0;
        while i < self.pending.len()
            invariant
                self@.wf(),
                i <= self@.pending.len(),
                self@.pending.len() == self.pending@.len(),
                pk == key_id(*key),
                forall|j: int| 0 <= j < i ==> self@.pending[j].0 != pk,
            decreases self@.pending.len() - i,
        {
            if key_equals(&self.pending[i].0, key) {
                proof {
                    assert(self@.pending[i as int].0 == pk);
                    let k = self@.pend_idx(pk);
                    assert(0 <= k < self@.pending.len() && self@.pending[k].0 == pk);
                    if k != i {
                        lemma_lex_irreflexive(pk);
                    }
                }
                return Some(i);
            }
            i += 1;
        }
        proof {
            if self@.pend_has(pk) {
                let k = self@.pend_idx(pk);
                assert(0 <= k < self@.pending.len() && self@.pending[k].0 == pk);
            }
        }
        None
    }

    /// Index of `key` in the committed snapshot, if present.
    fn find_base(&self, key: &Key) -> (r: Option<usize>)
        requires
            self@.wf(),
        ensures
            match r {
                Some(i) => i < self@.base.len() && self@.base[i as int].0 == key_id(*key)
                    && self@.base_idx(key_id(*key)) == i && self@.base_has(key_id(*key)),
                None => !self@.base_has(key_id(*key)),
            },
    {
        let ghost pk = key_id(*key);
        let mut i: usize = 0;
        while i < self.base.len()
            invariant
                self@.wf(),
                i <= self@.base.len(),
                self@.base.len() == self.base@.len(),
                pk == key_id(*key),
                forall|j: int| 0 <= j < i ==> self@.base[j].0 != pk,
            decreases self@.base.len() - i,
        {
            if key_equals(&self.base[i].0, key) {
                proof {
                    assert(self@.base[i as int].0 == pk);
                    let k = self@.base_idx(pk);
                    assert(0 <= k < self@.base.len() && self@.base[k].0 == pk);
                    if k != i {
                        assert(false);
                    }
                }
                return Some(i);
            }
            i += 1;
        }
        proof {
            if self@.base_has(pk) {
                let k = self@.base_idx(pk);
                assert(0 <= k < self@.base.len() && self@.base[k].0 == pk);
            }
        }
        None
    }

    /// Read a value through the overlay: staged writes win, staged deletes
    /// read as absent, and everything else falls through to the snapshot.
    pub fn get(&self, key: &Key) -> (r: Option<Value>)
        requires
            self@.wf(),
        ensures
            r == self@.get(key_id(*key)),
    {
        match self.find_pending(key) {
            Some(i) => match self.pending[i].1 {
                StateOperation::Update(v) => Some(v),
                StateOperation::Delete => None,
            },
            None => match self.find_base(key) {
                Some(i) => self.base[i].1,
                None => None,
            },
        }
    }

    /// Stage `op` under `key`, replacing any earlier staging of the same key
    /// and keeping the overlay sorted.
    fn insert(&mut self, key: Key, op: StateOperation)
        requires
            old(self)@.wf(),
        ensures
            final(self)@.wf(),
            final(self)@ == old(self)@.stage(key_id(key), op),
    {
        let ghost m0 = self@;
        let ghost pk = key_id(key);
        proof {
            lemma_stage_wf_any(m0, pk, op);
        }
        match self.find_pending(&key) {
            Some(i) => {
                self.pending[i] = (key, op);
                proof {
                    assert(self@.pending =~= m0.pending.update(m0.pend_idx(pk), (pk, op)));
                    assert(self@ =~~= m0.stage(pk, op));
                }
            },
            None => {
                // scan for the sorted position
                let mut p: usize = 0;
                let plen = self.pending.len();
                loop
                    invariant
                        self@ == m0,
                        m0.wf(),
                        pk == key_id(key),
                        pk.len() == 32,
                        !m0.pend_has(pk),
                        plen == self.pending@.len(),
                        p <= plen,
                        forall|j: int| 0 <= j < p ==> lex_lt((#[trigger] m0.pending[j]).0, pk),
                    ensures
                        self@ == m0,
                        is_pend_pos(m0.pending, pk, p as int),
                        p <= self.pending@.len(),
                    decreases plen - p,
                {
                    if p >= plen {
                        break ;
                    }
                    let kp = self.pending[p].0;
                    match (kp, key) {
                        (Key::Account(x), Key::Account(y)) => {
                            if bytes32_lt(&x.bytes, &y.bytes) {
                                proof {
                                    assert(lex_lt(m0.pending[p as int].0, pk));
                                }
                                p += 1;
                            } else {
                                proof {
                                    assert(!lex_lt(m0.pending[p as int].0, pk));
                                }
                                break ;
                            }
                        },
                    }
                }
                self.pending.insert(p, (key, op));
                proof {
                    lemma_pend_pos_unique(m0.pending, pk, p as int, pend_insert_pos(m0.pending, pk));
                    assert(self@.pending =~= m0.pending.insert(p as int, (pk, op)));
                    assert(self@ =~~= m0.stage(pk, op));
                }
            },
        }
    }

    /// Hand the staged changes out in ascending key order for the commit.
    pub fn commit(self) -> (r: Vec<(Key, StateOperation)>)
        requires
            self@.wf(),
        ensures
            r@.map_values(|e: (Key, StateOperation)| (key_id(e.0), e.1)) == self@.pending,
            forall|i: int, j: int|
                0 <= i < j < r@.len() ==> lex_lt(key_id(#[trigger] r@[i].0), key_id(
                    #[trigger] r@[j].0,
                )),
    {
        let r = self.pending;
        proof {
            assert(r@.map_values(|e: (Key, StateOperation)| (key_id(e.0), e.1)) =~= self@.pending);
            assert forall|i: int, j: int| 0 <= i < j < r@.len() implies lex_lt(
                key_id(#[trigger] r@[i].0),
                key_id(#[trigger] r@[j].0),
            ) by {
                assert(self@.pending[i].0 == key_id(r@[i].0));
                assert(self@.pending[j].0 == key_id(r@[j].0));
            };
        }
        r
    }

    /// Validate the sender through the overlay: the account must exist and
    /// match the transaction's nonce. On success the returned account
    /// carries the advanced (saturating) nonce, not yet staged.
    fn prepare_sender_account(&self, tx: &Transaction) -> (r: Option<Account>)
        requires
            self@.wf(),
        ensures
            match self@.account_at(tx.public_key@) {
                Some(a) => if a.nonce == tx.nonce {
                    r == Some(Account { nonce: bump64(tx.nonce), bread: a.bread })
                } else {
                    r is None
                },
                None => r is None,
            },
    {
        let account = match self.get(&Key::Account(tx.public_key)) {
            Some(Value::Account(a)) => a,
            _ => {
                return None;
            },
        };
        if account.nonce != tx.nonce {
            return None;
        }
        let next = if tx.nonce == u64::MAX {
            u64::MAX
        } else {
            tx.nonce + 1
        };
        Some(Account { nonce: next, bread: account.bread })
    }

    /// Apply a bread transfer for a prepared sender: reject an uncovered
    /// amount, otherwise stage the sender's debit and then the receiver's
    /// credit (so a self-transfer's credit wins), creating the receiver if
    /// absent. The credited balance saturates at the maximum.
    fn apply_transfer_bread(
        &mut self,
        sender_pk: PublicKey,
        sender: &Account,
        tb: &TransferBread,
    ) -> (valid: bool)
        requires
            old(self)@.wf(),
        ensures
            final(self)@.wf(),
            !valid ==> final(self)@ == old(self)@ && sender.bread < tb.amount,
            valid ==> sender.bread >= tb.amount && final(self)@ == old(self)@.stage(
                sender_pk@,
                StateOperation::Update(
                    Value::Account(
                        Account { nonce: sender.nonce, bread: (sender.bread - tb.amount) as u64 },
                    ),
                ),
            ).stage(
                tb.to@,
                StateOperation::Update(
                    Value::Account(
                        Account {
                            nonce: (match old(self)@.account_at(tb.to@) {
                                Some(a) => a,
                                None => Account { nonce: 0, bread: 0 },
                            }).nonce,
                            bread: sat_add64(
                                (match old(self)@.account_at(tb.to@) {
                                    Some(a) => a,
                                    None => Account { nonce: 0, bread: 0 },
                                }).bread,
                                tb.amount,
                            ),
                        },
                    ),
                ),
            ),
    {
        if sender.bread < tb.amount {
            return false;
        }
        let mut receiver = match self.get(&Key::Account(tb.to)) {
            Some(Value::Account(a)) => a,
            _ => Account { nonce: 0, bread: 0 },
        };
        let debited = Account { nonce: sender.nonce, bread: sender.bread - tb.amount };
        self.insert(Key::Account(sender_pk), StateOperation::Update(Value::Account(debited)));
        receiver.bread = if receiver.bread > u64::MAX - tb.amount {
            u64::MAX
        } else {
            receiver.bread + tb.amount
        };
        self.insert(Key::Account(tb.to), StateOperation::Update(Value::Account(receiver)));
        proof {
            lemma_stage_wf_any(
                old(self)@,
                sender_pk@,
                StateOperation::Update(Value::Account(debited)),
            );
        }
        true
    }

    /// Execute a batch in order against the overlay, returning the next
    /// expected nonce per account with a valid transaction and the invalid
    /// transactions in order.
    #[verifier::loop_isolation(false)]
    pub fn execute(&mut self, txs: Vec<Transaction>) -> (r: (
        Vec<(PublicKey, u64)>,
        Vec<Transaction>,
    ))
        requires
            old(self)@.wf(),
        ensures
            final(self)@.wf(),
            ({
                let out = swarm_run(
                    SwarmOutcome {
                        layer: old(self)@,
                        processed: Seq::empty(),
                        invalid: Seq::empty(),
                    },
                    txs@,
                );
                &&& final(self)@ == out.layer
                &&& r.0@.map_values(|e: (PublicKey, u64)| (e.0@, e.1)) == out.processed
                &&& r.1@ == out.invalid
            }),
    {
        let ghost o0 = SwarmOutcome {
            layer: self@,
            processed: Seq::empty(),
            invalid: Seq::empty(),
        };
        let mut processed: Vec<(PublicKey, u64)> = Vec::new();
        let mut invalid: Vec<Transaction> = Vec::new();
        let mut k: usize = 0;
        proof {
            assert(o0.processed =~= processed@.map_values(|e: (PublicKey, u64)| (e.0@, e.1)));
            assert(txs@.skip(0) =~= txs@);
        }
        while k < txs.len()
            invariant
                k <= txs@.len(),
                ({
                    let cur = SwarmOutcome {
                        layer: self@,
                        processed: processed@.map_values(|e: (PublicKey, u64)| (e.0@, e.1)),
                        invalid: invalid@,
                    };
                    &&& cur.wf()
                    &&& swarm_run(o0, txs@) == swarm_run(cur, txs@.skip(k as int))
                }),
            decreases txs@.len() - k,
        {
            let ghost cur = SwarmOutcome {
                layer: self@,
                processed: processed@.map_values(|e: (PublicKey, u64)| (e.0@, e.1)),
                invalid: invalid@,
            };
            let tx = txs[k];
            proof {
                assert(txs@.skip(k as int)[0] == tx);
                assert(txs@.skip(k as int).drop_first() =~= txs@.skip(k as int + 1));
                lemma_swarm_step_wf(cur, tx);
            }
            let sender = match self.prepare_sender_account(&tx) {
                Some(a) => a,
                None => {
                    invalid.push(tx);
                    proof {
                        assert((SwarmOutcome { invalid: cur.invalid.push(tx), ..cur })
                            =~~= swarm_step(cur, tx).0);
                    }
                    k += 1;
                    continue ;
                },
            };
            let Instruction::TransferBread(tb) = tx.instruction;
            let valid = self.apply_transfer_bread(tx.public_key, &sender, &tb);
            if !valid {
                invalid.push(tx);
                proof {
                    assert((SwarmOutcome { invalid: cur.invalid.push(tx), ..cur }) =~~= swarm_step(
                        cur,
                        tx,
                    ).0);
                }
                k += 1;
                continue ;
            }
            let next_nonce = if tx.nonce == u64::MAX {
                u64::MAX
            } else {
                tx.nonce + 1
            };
            match crate::oracle_execution::find_key_nonce(&processed, &tx.public_key) {
                Some(i) => {
                    processed[i].1 = next_nonce;
                    proof {
                        assert(processed@.map_values(|e: (PublicKey, u64)| (e.0@, e.1))
                            =~= assoc_upsert(cur.processed, tx.public_key@, bump64(tx.nonce)));
                    }
                },
                None => {
                    processed.push((tx.public_key, next_nonce));
                    proof {
                        assert(processed@.map_values(|e: (PublicKey, u64)| (e.0@, e.1))
                            =~= assoc_upsert(cur.processed, tx.public_key@, bump64(tx.nonce)));
                    }
                },
            }
            proof {
                assert((SwarmOutcome {
                    layer: self@,
                    processed: processed@.map_values(|e: (PublicKey, u64)| (e.0@, e.1)),
                    invalid: invalid@,
                }) =~~= swarm_step(cur, tx).0);
            }
            k += 1;
        }
        proof {
            assert(txs@.skip(txs@.len() as int) =~= Seq::<Transaction>::empty());
        }
        (processed, invalid)
    }
}

/// Whether a batch at `target_height` is applied at all: only the next
/// height is; the committed height itself is re-reported without changes,
/// and any other target is outside the executor's contract.
pub fn plan_state_transition(committed_height: u64, target_height: u64) -> (r: bool)
    requires
        target_height == committed_height || (committed_height < u64::MAX && target_height
            == committed_height + 1),
    ensures
        r == (target_height == committed_height + 1),
{
    committed_height < u64::MAX && target_height == committed_height + 1
}

} // verus!
