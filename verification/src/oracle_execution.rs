//! The oracle's state-transition executor: it applies a batch of
//! transactions in order against the builder accounts and the fork-choice
//! tree, counts accepted proposals, and attempts frame finalization once the
//! configured threshold is reached.

use vstd::prelude::*;

use crate::digest::{zero_digest, Digest, PublicKey};
use crate::fork_choice_tree::{bump64, ForkChoiceTree, TreeErrorModel, TreeModel};
use crate::oracle_types::{BuilderAccount, Event, Frame, Instruction, Transaction};

verus! {

/// The oracle's whole mutable state.
pub struct State {
    pub builders: Vec<(PublicKey, BuilderAccount)>,
    pub fork_tree: ForkChoiceTree,
    pub finalize_frame_block_proposal_min: u64,
    pub frame_block_proposal_count: u64,
}

/// Mathematical image of the oracle state: builder nonces by account key,
/// the tree, and the finalization threshold and counter.
#[verifier::ext_equal]
pub struct StateModel {
    pub builders: Seq<(Seq<u8>, u64)>,
    pub tree: TreeModel,
    pub min: u64,
    pub count: u64,
}

impl View for State {
    type V = StateModel;

    open spec fn view(&self) -> StateModel {
        StateModel {
            builders: self.builders@.map_values(
                |e: (PublicKey, BuilderAccount)| (e.0@, e.1.nonce),
            ),
            tree: self.fork_tree@,
            min: self.finalize_frame_block_proposal_min,
            count: self.frame_block_proposal_count,
        }
    }
}

/// A key occurs at most once.
pub open spec fn assoc_unique(s: Seq<(Seq<u8>, u64)>) -> bool {
    forall|i: int, j: int| 0 <= i < j < s.len() ==> s[i].0 != s[j].0
}

/// Some entry has key `pk`.
pub open spec fn assoc_has(s: Seq<(Seq<u8>, u64)>, pk: Seq<u8>) -> bool {
    exists|i: int| 0 <= i < s.len() && s[i].0 == pk
}

/// Index of the entry with key `pk` (unique under `assoc_unique`).
pub open spec fn assoc_idx(s: Seq<(Seq<u8>, u64)>, pk: Seq<u8>) -> int {
    choose|i: int| 0 <= i < s.len() && s[i].0 == pk
}

/// The value at `pk`, or zero where no entry exists.
pub open spec fn assoc_get_or_zero(s: Seq<(Seq<u8>, u64)>, pk: Seq<u8>) -> u64 {
    if assoc_has(s, pk) {
        s[assoc_idx(s, pk)].1
    } else {
        0
    }
}

/// The sequence with `pk` bound to `v`: updated in place, or appended.
pub open spec fn assoc_upsert(s: Seq<(Seq<u8>, u64)>, pk: Seq<u8>, v: u64) -> Seq<(Seq<u8>, u64)> {
    if assoc_has(s, pk) {
        s.update(assoc_idx(s, pk), (pk, v))
    } else {
        s.push((pk, v))
    }
}

/// Upserting keeps keys unique.
pub proof fn lemma_assoc_upsert_unique(s: Seq<(Seq<u8>, u64)>, pk: Seq<u8>, v: u64)
    requires
        assoc_unique(s),
    ensures
        assoc_unique(assoc_upsert(s, pk, v)),
{
    if assoc_has(s, pk) {
        let i = assoc_idx(s, pk);
        assert(0 <= i < s.len() && s[i].0 == pk);
    }
}

impl StateModel {
    /// Builder keys unique, tree well-formed.
    pub open spec fn wf(self) -> bool {
        &&& assoc_unique(self.builders)
        &&& self.tree.wf()
    }
}

/// Everything one batch produces: the new state, the next expected nonce per
/// account that had a valid transaction, the invalid transactions in order,
/// the finalized frames in order, and the nodes where finalization stopped
/// on a tie.
#[verifier::ext_equal]
pub struct OracleOutcome {
    pub state: StateModel,
    pub processed: Seq<(Seq<u8>, u64)>,
    pub invalid: Seq<Transaction>,
    pub frames: Seq<(u64, Seq<u8>)>,
    pub forks: Seq<Seq<u8>>,
}

impl OracleOutcome {
    pub open spec fn wf(self) -> bool {
        &&& self.state.wf()
        &&& assoc_unique(self.processed)
    }
}

/// A batch starts from the given state with empty accumulators.
pub open spec fn oracle_start(s: StateModel) -> OracleOutcome {
    OracleOutcome {
        state: s,
        processed: Seq::empty(),
        invalid: Seq::empty(),
        frames: Seq::empty(),
        forks: Seq::empty(),
    }
}

/// The whole effect of one transaction. A nonce mismatch (against the
/// account's nonce, zero for an unknown account) marks the transaction
/// invalid and changes nothing else. Otherwise the account nonce advances
/// (saturating) and the proposal is offered to the tree; a rejected proposal
/// still consumes the nonce but adds no weight. Whenever the accepted-count
/// reaches the threshold, finalization is attempted: success emits a frame
/// and resets the counter, a tie records the forked node and keeps counter
/// and tree as they were.
pub open spec fn oracle_step(o: OracleOutcome, tx: Transaction) -> OracleOutcome {
    let s = o.state;
    let pk = tx.public_key@;
    if assoc_get_or_zero(s.builders, pk) != tx.nonce {
        OracleOutcome { invalid: o.invalid.push(tx), ..o }
    } else {
        let builders2 = assoc_upsert(s.builders, pk, bump64(tx.nonce));
        let Instruction::ProposeBlock(p) = tx.instruction;
        let proposable = p.block_hash@ != zero_digest();
        let proposal_ok = proposable && s.tree.propose_err(
            p.block_height,
            p.parent_hash@,
            p.block_hash@,
        ) is None;
        let tree2 = if proposable {
            s.tree.propose_spec(p.block_height, p.parent_hash@, p.block_hash@)
        } else {
            s.tree
        };
        let count2 = if proposal_ok {
            bump64(s.count)
        } else {
            s.count
        };
        let processed2 = assoc_upsert(o.processed, pk, bump64(tx.nonce));
        if count2 >= s.min {
            match tree2.finalize_result() {
                Ok((f, h)) => OracleOutcome {
                    state: StateModel {
                        builders: builders2,
                        tree: tree2.finalize_spec(),
                        min: s.min,
                        count: 0,
                    },
                    processed: processed2,
                    invalid: o.invalid,
                    frames: o.frames.push((f, h)),
                    forks: o.forks,
                },
                Err(e) => OracleOutcome {
                    state: StateModel { builders: builders2, tree: tree2, min: s.min, count: count2 },
                    processed: processed2,
                    invalid: o.invalid,
                    frames: o.frames,
                    forks: match e {
                        TreeErrorModel::UnsolvableFork(x) => o.forks.push(x),
                        _ => o.forks,
                    },
                },
            }
        } else {
            OracleOutcome {
                state: StateModel { builders: builders2, tree: tree2, min: s.min, count: count2 },
                processed: processed2,
                invalid: o.invalid,
                frames: o.frames,
                forks: o.forks,
            }
        }
    }
}

/// The whole effect of a batch, transaction by transaction in order.
pub open spec fn oracle_run(o: OracleOutcome, txs: Seq<Transaction>) -> OracleOutcome
    decreases txs.len(),
{
    if txs.len() == 0 {
        o
    } else {
        oracle_run(oracle_step(o, txs[0]), txs.drop_first())
    }
}

/// One step keeps the outcome well-formed.
pub proof fn lemma_oracle_step_wf(o: OracleOutcome, tx: Transaction)
    requires
        o.wf(),
    ensures
        oracle_step(o, tx).wf(),
{
    let s = o.state;
    let pk = tx.public_key@;
    if assoc_get_or_zero(s.builders, pk) == tx.nonce {
        lemma_assoc_upsert_unique(s.builders, pk, bump64(tx.nonce));
        lemma_assoc_upsert_unique(o.processed, pk, bump64(tx.nonce));
        let Instruction::ProposeBlock(p) = tx.instruction;
        let tree2 = if p.block_hash@ != zero_digest() {
            s.tree.propose_spec(p.block_height, p.parent_hash@, p.block_hash@)
        } else {
            s.tree
        };
        if p.block_hash@ != zero_digest() {
            crate::fork_choice_tree::lemma_propose_spec_wf(
                s.tree,
                p.block_height,
                p.parent_hash@,
                p.block_hash@,
            );
        }
        crate::fork_choice_tree::lemma_finalize_spec_wf(tree2);
    }
}

/// LAW (oracle). The proposal counter resets to zero exactly on a successful
/// finalization: a step that emits a frame leaves it at zero, and any other
/// step leaves it unchanged or raises it by the one accepted proposal, so a
/// running count never falls back without a finalized frame.
pub proof fn lemma_count_reset(o: OracleOutcome, tx: Transaction)
    requires
        o.wf(),
    ensures
        ({
            let o2 = oracle_step(o, tx);
            &&& o2.frames.len() > o.frames.len() ==> o2.state.count == 0
            &&& o2.frames.len() == o.frames.len() ==> (o2.state.count == o.state.count
                || o2.state.count == bump64(o.state.count))
            &&& (o2.frames.len() == o.frames.len() && o.state.count > 0) ==> o2.state.count > 0
        }),
{
}

/// What one batch returns beside the new state.
pub struct StateTransitionResult {
    /// For each account with at least one valid transaction, the next nonce
    /// it is expected to use.
    pub processed_nonces: Vec<(PublicKey, u64)>,
    /// The transactions rejected for a nonce mismatch, in batch order.
    pub invalid_txs: Vec<Transaction>,
    /// One event per finalized frame, in order.
    pub generated_events: Vec<Event>,
    /// The nodes at which finalization stopped on a score tie, in order.
    pub unsolvable_forks: Vec<Digest>,
}

impl State {
    /// A fresh oracle state over a genesis hash and a finalization
    /// threshold.
    pub fn new(genesis_block_hash: Digest, finalize_frame_block_proposal_min: u64) -> (r: State)
        requires
            genesis_block_hash@ != zero_digest(),
        ensures
            r@.wf(),
            r@.builders.len() == 0,
            r@.tree == ForkChoiceTree::new_spec(genesis_block_hash@),
            r@.min == finalize_frame_block_proposal_min,
            r@.count == 0,
    {
        let r = State {
            builders: Vec::new(),
            fork_tree: ForkChoiceTree::new(genesis_block_hash),
            finalize_frame_block_proposal_min,
            frame_block_proposal_count: 0,
        };
        proof {
            assert(r@.builders =~= Seq::<(Seq<u8>, u64)>::empty());
            assert(r@.tree =~~= ForkChoiceTree::new_spec(genesis_block_hash@));
        }
        r
    }
}

/// Find the entry with key `pk` in a key-unique association vector.
fn find_key(v: &Vec<(PublicKey, BuilderAccount)>, pk: &PublicKey) -> (r: Option<usize>)
    requires
        assoc_unique(v@.map_values(|e: (PublicKey, BuilderAccount)| (e.0@, e.1.nonce))),
    ensures
        ({
            let s = v@.map_values(|e: (PublicKey, BuilderAccount)| (e.0@, e.1.nonce));
            match r {
                Some(i) => i < s.len() && s[i as int].0 == pk@ && assoc_idx(s, pk@) == i
                    && assoc_has(s, pk@),
                None => !assoc_has(s, pk@),
            }
        }),
{
    let ghost s = v@.map_values(|e: (PublicKey, BuilderAccount)| (e.0@, e.1.nonce));
    let mut i: usize = 0;
    while i < v.len()
        invariant
            assoc_unique(s),
            s == v@.map_values(|e: (PublicKey, BuilderAccount)| (e.0@, e.1.nonce)),
            i <= v@.len(),
            s.len() == v@.len(),
            forall|j: int| 0 <= j < i ==> s[j].0 != pk@,
        decreases v@.len() - i,
    {
        if v[i].0.equals(pk) {
            proof {
                assert(s[i as int].0 == pk@);
                let k = assoc_idx(s, pk@);
                assert(0 <= k < s.len() && s[k].0 == pk@);
                if k != i {
                    assert(false);
                }
            }
            return Some(i);
        }
        i += 1;
    }
    proof {
        if assoc_has(s, pk@) {
            let k = assoc_idx(s, pk@);
            assert(0 <= k < s.len() && s[k].0 == pk@);
        }
    }
    None
}

/// Find the entry with key `pk` in a key-unique nonce vector.
pub(crate) fn find_key_nonce(v: &Vec<(PublicKey, u64)>, pk: &PublicKey) -> (r: Option<usize>)
    requires
        assoc_unique(v@.map_values(|e: (PublicKey, u64)| (e.0@, e.1))),
    ensures
        ({
            let s = v@.map_values(|e: (PublicKey, u64)| (e.0@, e.1));
            match r {
                Some(i) => i < s.len() && s[i as int].0 == pk@ && assoc_idx(s, pk@) == i
                    && assoc_has(s, pk@),
                None => !assoc_has(s, pk@),
            }
        }),
{
    let ghost s = v@.map_values(|e: (PublicKey, u64)| (e.0@, e.1));
    let mut i: usize = 0;
    while i < v.len()
        invariant
            assoc_unique(s),
            s == v@.map_values(|e: (PublicKey, u64)| (e.0@, e.1)),
            i <= v@.len(),
            s.len() == v@.len(),
            forall|j: int| 0 <= j < i ==> s[j].0 != pk@,
        decreases v@.len() - i,
    {
        if v[i].0.equals(pk) {
            proof {
                assert(s[i as int].0 == pk@);
                let k = assoc_idx(s, pk@);
                assert(0 <= k < s.len() && s[k].0 == pk@);
                if k != i {
                    assert(false);
                }
            }
            return Some(i);
        }
        i += 1;
    }
    proof {
        if assoc_has(s, pk@) {
            let k = assoc_idx(s, pk@);
            assert(0 <= k < s.len() && s[k].0 == pk@);
        }
    }
    None
}

/// Execute a batch of transactions against the oracle state, in order,
/// returning the per-account nonce advances, the rejected transactions, the
/// finalized-frame events and the unsolvable forks met on the way.
#[verifier::loop_isolation(false)]
pub fn execute_state_transition(state: &mut State, txs: Vec<Transaction>) -> (r:
    StateTransitionResult)
    requires
        old(state)@.wf(),
    ensures
        final(state)@.wf(),
        ({
            let out = oracle_run(oracle_start(old(state)@), txs@);
            &&& final(state)@ == out.state
            &&& r.processed_nonces@.map_values(|e: (PublicKey, u64)| (e.0@, e.1)) == out.processed
            &&& r.invalid_txs@ == out.invalid
            &&& r.generated_events@.len() == out.frames.len()
            &&& forall|i: int|
                0 <= i < out.frames.len() ==> ((#[trigger] r.generated_events@[i]) matches
                Event::FrameFinalized(fr) && fr.frame_number == out.frames[i].0 && fr.chain_head@
                    == out.frames[i].1)
            &&& r.unsolvable_forks@.map_values(|d: Digest| d@) == out.forks
        }),
{
    let ghost o0 = oracle_start(old(state)@);
    let mut processed_nonces: Vec<(PublicKey, u64)> = Vec::new();
    let mut invalid_txs: Vec<Transaction> = Vec::new();
    let mut generated_events: Vec<Event> = Vec::new();
    let mut unsolvable_forks: Vec<Digest> = Vec::new();
    let mut k: usize = 0;
    proof {
        assert(o0.processed =~= processed_nonces@.map_values(|e: (PublicKey, u64)| (e.0@, e.1)));
        assert(o0.forks =~= unsolvable_forks@.map_values(|d: Digest| d@));
        assert(o0.frames =~= Seq::new(
            generated_events@.len() as nat,
            |i: int|
                match generated_events@[i] {
                    Event::FrameFinalized(fr) => (fr.frame_number, fr.chain_head@),
                },
        ));
        assert(o0.invalid =~= invalid_txs@);
        assert((OracleOutcome {
            state: state@,
            processed: processed_nonces@.map_values(|e: (PublicKey, u64)| (e.0@, e.1)),
            invalid: invalid_txs@,
            frames: Seq::new(
                generated_events@.len() as nat,
                |i: int|
                    match generated_events@[i] {
                        Event::FrameFinalized(fr) => (fr.frame_number, fr.chain_head@),
                    },
            ),
            forks: unsolvable_forks@.map_values(|d: Digest| d@),
        }) =~~= o0);
        assert(txs@.skip(0) =~= txs@);
    }
    while k < txs.len()
        invariant
            k <= txs@.len(),
            ({
                let cur = OracleOutcome {
                    state: state@,
                    processed: processed_nonces@.map_values(|e: (PublicKey, u64)| (e.0@, e.1)),
                    invalid: invalid_txs@,
                    frames: Seq::new(
                        generated_events@.len() as nat,
                        |i: int|
                            match generated_events@[i] {
                                Event::FrameFinalized(fr) => (fr.frame_number, fr.chain_head@),
                            },
                    ),
                    forks: unsolvable_forks@.map_values(|d: Digest| d@),
                };
                &&& cur.wf()
                &&& oracle_run(o0, txs@) == oracle_run(cur, txs@.skip(k as int))
            }),
        decreases txs@.len() - k,
    {
        let ghost cur = OracleOutcome {
            state: state@,
            processed: processed_nonces@.map_values(|e: (PublicKey, u64)| (e.0@, e.1)),
            invalid: invalid_txs@,
            frames: Seq::new(
                generated_events@.len() as nat,
                |i: int|
                    match generated_events@[i] {
                        Event::FrameFinalized(fr) => (fr.frame_number, fr.chain_head@),
                    },
            ),
            forks: unsolvable_forks@.map_values(|d: Digest| d@),
        };
        let tx = txs[k];
        proof {
            assert(txs@.skip(k as int)[0] == tx);
            assert(txs@.skip(k as int).drop_first() =~= txs@.skip(k as int + 1));
            lemma_oracle_step_wf(cur, tx);
        }
        let pk = tx.public_key;
        let nonce_ok = match find_key(&state.builders, &pk) {
            Some(i) => state.builders[i].1.nonce == tx.nonce,
            None => tx.nonce == 0,
        };
        if !nonce_ok {
            invalid_txs.push(tx);
            proof {
                let nxt = OracleOutcome { invalid: cur.invalid.push(tx), ..cur };
                assert(nxt =~~= oracle_step(cur, tx));
                assert(invalid_txs@ == nxt.invalid);
            }
        } else {
            // advance the account nonce, saturating at the maximum
            let next_nonce = if tx.nonce == u64::MAX {
                u64::MAX
            } else {
                tx.nonce + 1
            };
            match find_key(&state.builders, &pk) {
                Some(i) => {
                    state.builders[i].1 = BuilderAccount { nonce: next_nonce };
                    proof {
                        assert(state@.builders =~= assoc_upsert(
                            cur.state.builders,
                            pk@,
                            bump64(tx.nonce),
                        ));
                    }
                },
                None => {
                    state.builders.push((pk, BuilderAccount { nonce: next_nonce }));
                    proof {
                        assert(state@.builders =~= assoc_upsert(
                            cur.state.builders,
                            pk@,
                            bump64(tx.nonce),
                        ));
                    }
                },
            }
            match find_key_nonce(&processed_nonces, &pk) {
                Some(i) => {
                    processed_nonces[i].1 = next_nonce;
                    proof {
                        assert(processed_nonces@.map_values(|e: (PublicKey, u64)| (e.0@, e.1))
                            =~= assoc_upsert(cur.processed, pk@, bump64(tx.nonce)));
                    }
                },
                None => {
                    processed_nonces.push((pk, next_nonce));
                    proof {
                        assert(processed_nonces@.map_values(|e: (PublicKey, u64)| (e.0@, e.1))
                            =~= assoc_upsert(cur.processed, pk@, bump64(tx.nonce)));
                    }
                },
            }
            // offer the proposal to the tree; the sentinel hash proposes
            // nothing
            let Instruction::ProposeBlock(p) = tx.instruction;
            let zero = Digest::zero();
            let proposal_ok = if p.block_hash.equals(&zero) {
                false
            } else {
                match state.fork_tree.propose_block(p.block_height, p.parent_hash, p.block_hash) {
                    Ok(()) => true,
                    Err(_) => false,
                }
            };
            if proposal_ok {
                state.frame_block_proposal_count = if state.frame_block_proposal_count == u64::MAX {
                    u64::MAX
                } else {
                    state.frame_block_proposal_count + 1
                };
            }
            if state.frame_block_proposal_count >= state.finalize_frame_block_proposal_min {
                match state.fork_tree.finalize_block_frame() {
                    Ok((frame_number, chain_head)) => {
                        generated_events.push(
                            Event::FrameFinalized(Frame { frame_number, chain_head }),
                        );
                        state.frame_block_proposal_count = 0;
                    },
                    Err(e) => {
                        match e {
                            crate::fork_choice_tree::ForkChoiceTreeError::UnsolvableFork(d) => {
                                unsolvable_forks.push(d);
                            },
                            _ => {
                                proof {
                                    assert(false);
                                }
                            },
                        }
                    },
                }
            }
            proof {
                let nxt = oracle_step(cur, tx);
                assert(Seq::new(
                    generated_events@.len() as nat,
                    |i: int|
                        match generated_events@[i] {
                            Event::FrameFinalized(fr) => (fr.frame_number, fr.chain_head@),
                        },
                ) =~= nxt.frames);
                assert(unsolvable_forks@.map_values(|d: Digest| d@) =~= nxt.forks);
                assert(state@ =~~= nxt.state);
            }
        }
        k += 1;
    }
    proof {
        assert(txs@.skip(txs@.len() as int) =~= Seq::<Transaction>::empty());
    }
    StateTransitionResult { processed_nonces, invalid_txs, generated_events, unsolvable_forks }
}

} // verus!
