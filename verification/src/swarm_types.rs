//! The swarm's data types and wire format: bread-transfer transactions,
//! blocks with a bounded transaction list, accounts, commit metadata, and
//! the authenticated store's key and value sums.

use vstd::prelude::*;

use crate::codec::{
    dec_varint, enc_u64, enc_varint, lemma_varint_complete, read_bytes, read_u64, read_u8,
    read_varint_u32, read_varint_u64, write_bytes, write_u64, write_u8, write_varint, CodecError,
};
use crate::digest::{sha256, sha256_of, Digest, PublicKey, Signature};
use crate::mempool::MempoolTransaction;

verus! {

broadcast use vstd::array::group_array_axioms;

/// The most transactions one block may carry.
pub const MAX_BLOCK_TRANSACTIONS: usize = 10;

/// Move `amount` units of bread to account `to`.
#[derive(Clone, Copy, Debug, PartialEq, Eq)]
pub struct TransferBread {
    pub amount: u64,
    pub to: PublicKey,
}

/// The one instruction the swarm executes.
#[derive(Clone, Copy, Debug, PartialEq, Eq)]
pub enum Instruction {
    TransferBread(TransferBread),
}

/// A signed, nonce-ordered instruction from a user account. The signature is
/// carried but checked upstream.
#[derive(Clone, Copy, Debug, PartialEq, Eq)]
pub struct Transaction {
    pub nonce: u64,
    pub instruction: Instruction,
    pub public_key: PublicKey,
    pub signature: Signature,
}

/// A user account: its next nonce and its bread balance.
#[derive(Clone, Copy, Debug, PartialEq, Eq, Structural)]
pub struct Account {
    pub nonce: u64,
    pub bread: u64,
}

impl Default for Account {
    /// A fresh account holds nothing and starts at nonce zero.
    fn default() -> (r: Account)
        ensures
            r.nonce == 0 && r.bread == 0,
    {
        Account { nonce: 0, bread: 0 }
    }
}

/// Per-commit header: the committed height and the store's operation counter
/// at the start of the batch.
#[derive(Clone, Copy, Debug, PartialEq, Eq, Structural)]
pub struct CommitMetadata {
    pub height: u64,
    pub start: u64,
}

/// A key of the authenticated store.
#[derive(Clone, Copy, Debug, PartialEq, Eq, Hash)]
pub enum Key {
    Account(PublicKey),
}

/// A value of the authenticated store.
#[derive(Clone, Copy, Debug, PartialEq, Eq)]
pub enum Value {
    Account(Account),
    CommitMetadata(CommitMetadata),
}

/// Wire image of a transfer: amount, receiver.
pub open spec fn enc_transfer_bread(t: TransferBread) -> Seq<u8> {
    enc_u64(t.amount) + t.to@
}

/// Wire image of an instruction: tag 0, then the transfer.
pub open spec fn enc_instruction(i: Instruction) -> Seq<u8> {
    match i {
        Instruction::TransferBread(t) => seq![0u8] + enc_transfer_bread(t),
    }
}

/// Wire image of a transaction: nonce, instruction, key, signature.
pub open spec fn enc_transaction(t: Transaction) -> Seq<u8> {
    enc_u64(t.nonce) + enc_instruction(t.instruction) + t.public_key@ + t.signature@
}

/// Wire image of an account: nonce, bread.
pub open spec fn enc_account(a: Account) -> Seq<u8> {
    enc_u64(a.nonce) + enc_u64(a.bread)
}

/// Wire image of commit metadata: height, start.
pub open spec fn enc_commit_metadata(c: CommitMetadata) -> Seq<u8> {
    enc_u64(c.height) + enc_u64(c.start)
}

/// Wire image of a key: tag 0, then the account key.
pub open spec fn enc_key(k: Key) -> Seq<u8> {
    match k {
        Key::Account(p) => seq![0u8] + p@,
    }
}

/// Wire image of a value: tag 0 with an account or tag 1 with commit
/// metadata.
pub open spec fn enc_value(v: Value) -> Seq<u8> {
    match v {
        Value::Account(a) => seq![0u8] + enc_account(a),
        Value::CommitMetadata(c) => seq![1u8] + enc_commit_metadata(c),
    }
}

/// The replay identity of a transaction: the hash of its nonce, instruction
/// and key — the signature is left out, so any valid signature names the
/// same transaction.
pub open spec fn spec_transaction_digest(t: Transaction) -> Seq<u8> {
    sha256_of(enc_u64(t.nonce) + enc_instruction(t.instruction) + t.public_key@)
}

impl TransferBread {
    /// Append the wire image.
    pub fn write(&self, buf: &mut Vec<u8>)
        ensures
            final(buf)@ == old(buf)@ + enc_transfer_bread(*self),
    {
        write_u64(buf, self.amount);
        write_bytes(buf, &self.to.bytes);
        proof {
            assert(buf@ =~= old(buf)@ + enc_transfer_bread(*self));
        }
    }

    /// Bytes the wire image takes.
    pub fn encode_size(&self) -> (r: usize)
        ensures
            r == enc_transfer_bread(*self).len(),
    {
        40
    }

    /// Read a transfer. Succeeds exactly when 40 bytes remain.
    pub fn read_cfg(buf: &Vec<u8>, pos: usize) -> (r: Result<(TransferBread, usize), CodecError>)
        ensures
            match r {
                Ok((t, end)) => {
                    &&& pos + 40 <= buf@.len()
                    &&& end == pos + 40
                    &&& buf@.subrange(pos as int, end as int) == enc_transfer_bread(t)
                },
                Err(e) => e == CodecError::EndOfBuffer && pos + 40 > buf@.len(),
            },
    {
        let (amount, p1) = read_u64(buf, pos)?;
        let (to, p2) = match read_bytes::<32>(buf, p1) {
            Ok(v) => v,
            Err(e) => {
                return Err(e);
            },
        };
        let t = TransferBread { amount, to: PublicKey { bytes: to } };
        proof {
            assert(buf@.subrange(pos as int, p2 as int) =~= enc_transfer_bread(t));
        }
        Ok((t, p2))
    }
}

impl Instruction {
    /// Append the wire image.
    pub fn write(&self, buf: &mut Vec<u8>)
        ensures
            final(buf)@ == old(buf)@ + enc_instruction(*self),
    {
        match self {
            Instruction::TransferBread(t) => {
                write_u8(buf, 0);
                t.write(buf);
                proof {
                    assert(buf@ =~= old(buf)@ + enc_instruction(*self));
                }
            },
        }
    }

    /// Bytes the wire image takes.
    pub fn encode_size(&self) -> (r: usize)
        ensures
            r == enc_instruction(*self).len(),
    {
        match self {
            Instruction::TransferBread(t) => 1 + t.encode_size(),
        }
    }

    /// Read an instruction: it succeeds exactly when the tag byte is the
    /// transfer tag and the body fits.
    pub fn read_cfg(buf: &Vec<u8>, pos: usize) -> (r: Result<(Instruction, usize), CodecError>)
        ensures
            match r {
                Ok((i, end)) => {
                    &&& pos + 41 <= buf@.len()
                    &&& buf@[pos as int] == 0u8
                    &&& end == pos + 41
                    &&& buf@.subrange(pos as int, end as int) == enc_instruction(i)
                },
                Err(e) => match e {
                    CodecError::EndOfBuffer => pos + 1 > buf@.len() || (buf@[pos as int] == 0u8
                        && pos + 41 > buf@.len()),
                    CodecError::InvalidEnum(b) => pos + 1 <= buf@.len() && buf@[pos as int] != 0u8
                        && b == buf@[pos as int],
                    _ => false,
                },
            },
    {
        let (tag, p1) = read_u8(buf, pos)?;
        match tag {
            0 => {
                let (t, p2) = match TransferBread::read_cfg(buf, p1) {
                    Ok(v) => v,
                    Err(e) => {
                        return Err(e);
                    },
                };
                let i = Instruction::TransferBread(t);
                proof {
                    assert(buf@.subrange(pos as int, p2 as int) =~= enc_instruction(i));
                }
                Ok((i, p2))
            },
            _ => Err(CodecError::InvalidEnum(tag)),
        }
    }
}

impl Transaction {
    /// Append the wire image.
    pub fn write(&self, buf: &mut Vec<u8>)
        ensures
            final(buf)@ == old(buf)@ + enc_transaction(*self),
    {
        write_u64(buf, self.nonce);
        self.instruction.write(buf);
        write_bytes(buf, &self.public_key.bytes);
        write_bytes(buf, &self.signature.bytes);
        proof {
            assert(buf@ =~= old(buf)@ + enc_transaction(*self));
        }
    }

    /// Bytes the wire image takes.
    pub fn encode_size(&self) -> (r: usize)
        ensures
            r == enc_transaction(*self).len(),
    {
        8 + self.instruction.encode_size() + 32 + 64
    }

    /// Read a transaction: it succeeds exactly when all 145 bytes fit and
    /// the instruction tag is valid.
    pub fn read_cfg(buf: &Vec<u8>, pos: usize) -> (r: Result<(Transaction, usize), CodecError>)
        ensures
            match r {
                Ok((t, end)) => {
                    &&& pos + 145 <= buf@.len()
                    &&& buf@[pos + 8] == 0u8
                    &&& end == pos + 145
                    &&& buf@.subrange(pos as int, end as int) == enc_transaction(t)
                },
                Err(e) => match e {
                    CodecError::EndOfBuffer => pos + 145 > buf@.len() && (pos + 9 > buf@.len()
                        || buf@[pos + 8] == 0u8),
                    CodecError::InvalidEnum(b) => pos + 9 <= buf@.len() && buf@[pos + 8] != 0u8
                        && b == buf@[pos + 8],
                    _ => false,
                },
            },
    {
        let (nonce, p1) = read_u64(buf, pos)?;
        let (instruction, p2) = match Instruction::read_cfg(buf, p1) {
            Ok(v) => v,
            Err(e) => {
                return Err(e);
            },
        };
        let (pk, p3) = match read_bytes::<32>(buf, p2) {
            Ok(v) => v,
            Err(e) => {
                return Err(e);
            },
        };
        let (sig, p4) = match read_bytes::<64>(buf, p3) {
            Ok(v) => v,
            Err(e) => {
                return Err(e);
            },
        };
        let t = Transaction {
            nonce,
            instruction,
            public_key: PublicKey { bytes: pk },
            signature: Signature { bytes: sig },
        };
        proof {
            assert(buf@.subrange(pos as int, p4 as int) =~= enc_transaction(t));
        }
        Ok((t, p4))
    }

    /// The transaction's replay identity: nonce, instruction and key hashed,
    /// signature left out.
    pub fn digest(&self) -> (r: Digest)
        ensures
            r@ == spec_transaction_digest(*self),
    {
        let mut preimage: Vec<u8> = Vec::new();
        write_u64(&mut preimage, self.nonce);
        self.instruction.write(&mut preimage);
        write_bytes(&mut preimage, &self.public_key.bytes);
        proof {
            assert(preimage@ =~= enc_u64(self.nonce) + enc_instruction(self.instruction)
                + self.public_key@);
        }
        sha256(&preimage)
    }
}

impl MempoolTransaction for Transaction {
    open spec fn spec_public_key(&self) -> Seq<u8> {
        self.public_key@
    }

    open spec fn spec_nonce(&self) -> u64 {
        self.nonce
    }

    open spec fn spec_digest(&self) -> Seq<u8> {
        spec_transaction_digest(*self)
    }

    fn public_key(&self) -> (r: PublicKey) {
        self.public_key
    }

    fn nonce(&self) -> (r: u64) {
        self.nonce
    }

    fn digest(&self) -> (r: Digest) {
        Transaction::digest(self)
    }
}

impl Account {
    /// Append the wire image.
    pub fn write(&self, buf: &mut Vec<u8>)
        ensures
            final(buf)@ == old(buf)@ + enc_account(*self),
    {
        write_u64(buf, self.nonce);
        write_u64(buf, self.bread);
        proof {
            assert(buf@ =~= old(buf)@ + enc_account(*self));
        }
    }

    /// Bytes the wire image takes.
    pub fn encode_size(&self) -> (r: usize)
        ensures
            r == enc_account(*self).len(),
    {
        16
    }

    /// Read an account. Succeeds exactly when 16 bytes remain.
    pub fn read_cfg(buf: &Vec<u8>, pos: usize) -> (r: Result<(Account, usize), CodecError>)
        ensures
            match r {
                Ok((a, end)) => {
                    &&& pos + 16 <= buf@.len()
                    &&& end == pos + 16
                    &&& buf@.subrange(pos as int, end as int) == enc_account(a)
                },
                Err(e) => e == CodecError::EndOfBuffer && pos + 16 > buf@.len(),
            },
    {
        let (nonce, p1) = read_u64(buf, pos)?;
        let (bread, p2) = match read_u64(buf, p1) {
            Ok(v) => v,
            Err(e) => {
                return Err(e);
            },
        };
        let a = Account { nonce, bread };
        proof {
            assert(buf@.subrange(pos as int, p2 as int) =~= enc_account(a));
        }
        Ok((a, p2))
    }
}

impl CommitMetadata {
    /// Append the wire image.
    pub fn write(&self, buf: &mut Vec<u8>)
        ensures
            final(buf)@ == old(buf)@ + enc_commit_metadata(*self),
    {
        write_u64(buf, self.height);
        write_u64(buf, self.start);
        proof {
            assert(buf@ =~= old(buf)@ + enc_commit_metadata(*self));
        }
    }

    /// Bytes the wire image takes.
    pub fn encode_size(&self) -> (r: usize)
        ensures
            r == enc_commit_metadata(*self).len(),
    {
        16
    }

    /// Read commit metadata. Succeeds exactly when 16 bytes remain.
    pub fn read_cfg(buf: &Vec<u8>, pos: usize) -> (r: Result<(CommitMetadata, usize), CodecError>)
        ensures
            match r {
                Ok((c, end)) => {
                    &&& pos + 16 <= buf@.len()
                    &&& end == pos + 16
                    &&& buf@.subrange(pos as int, end as int) == enc_commit_metadata(c)
                },
                Err(e) => e == CodecError::EndOfBuffer && pos + 16 > buf@.len(),
            },
    {
        let (height, p1) = read_u64(buf, pos)?;
        let (start, p2) = match read_u64(buf, p1) {
            Ok(v) => v,
            Err(e) => {
                return Err(e);
            },
        };
        let c = CommitMetadata { height, start };
        proof {
            assert(buf@.subrange(pos as int, p2 as int) =~= enc_commit_metadata(c));
        }
        Ok((c, p2))
    }
}

impl Key {
    /// Append the wire image.
    pub fn write(&self, buf: &mut Vec<u8>)
        ensures
            final(buf)@ == old(buf)@ + enc_key(*self),
    {
        match self {
            Key::Account(p) => {
                write_u8(buf, 0);
                write_bytes(buf, &p.bytes);
                proof {
                    assert(buf@ =~= old(buf)@ + enc_key(*self));
                }
            },
        }
    }

    /// Bytes the wire image takes.
    pub fn encode_size(&self) -> (r: usize)
        ensures
            r == enc_key(*self).len(),
    {
        match self {
            Key::Account(_) => 33,
        }
    }

    /// Read a key: it succeeds exactly when the tag byte is the account tag
    /// and the key fits.
    pub fn read_cfg(buf: &Vec<u8>, pos: usize) -> (r: Result<(Key, usize), CodecError>)
        ensures
            match r {
                Ok((k, end)) => {
                    &&& pos + 33 <= buf@.len()
                    &&& buf@[pos as int] == 0u8
                    &&& end == pos + 33
                    &&& buf@.subrange(pos as int, end as int) == enc_key(k)
                },
                Err(e) => match e {
                    CodecError::EndOfBuffer => pos + 1 > buf@.len() || (buf@[pos as int] == 0u8
                        && pos + 33 > buf@.len()),
                    CodecError::InvalidEnum(b) => pos + 1 <= buf@.len() && buf@[pos as int] != 0u8
                        && b == buf@[pos as int],
                    _ => false,
                },
            },
    {
        let (tag, p1) = read_u8(buf, pos)?;
        match tag {
            0 => {
                let (pk, p2) = match read_bytes::<32>(buf, p1) {
                    Ok(v) => v,
                    Err(e) => {
                        return Err(e);
                    },
                };
                let k = Key::Account(PublicKey { bytes: pk });
                proof {
                    assert(buf@.subrange(pos as int, p2 as int) =~= enc_key(k));
                }
                Ok((k, p2))
            },
            _ => Err(CodecError::InvalidEnum(tag)),
        }
    }

    /// The physical key of the authenticated store: the hash of the wire
    /// image.
    pub fn storage_digest(&self) -> (r: Digest)
        ensures
            r@ == sha256_of(enc_key(*self)),
    {
        let mut image: Vec<u8> = Vec::new();
        self.write(&mut image);
        sha256(&image)
    }
}

impl Value {
    /// Append the wire image.
    pub fn write(&self, buf: &mut Vec<u8>)
        ensures
            final(buf)@ == old(buf)@ + enc_value(*self),
    {
        match self {
            Value::Account(a) => {
                write_u8(buf, 0);
                a.write(buf);
            },
            Value::CommitMetadata(c) => {
                write_u8(buf, 1);
                c.write(buf);
            },
        }
        proof {
            assert(buf@ =~= old(buf)@ + enc_value(*self));
        }
    }

    /// Bytes the wire image takes.
    pub fn encode_size(&self) -> (r: usize)
        ensures
            r == enc_value(*self).len(),
    {
        match self {
            Value::Account(a) => 1 + a.encode_size(),
            Value::CommitMetadata(c) => 1 + c.encode_size(),
        }
    }

    /// Read a value: it succeeds exactly when the tag is known and 17 bytes
    /// fit.
    pub fn read_cfg(buf: &Vec<u8>, pos: usize) -> (r: Result<(Value, usize), CodecError>)
        ensures
            match r {
                Ok((v, end)) => {
                    &&& pos + 17 <= buf@.len()
                    &&& (buf@[pos as int] == 0u8 || buf@[pos as int] == 1u8)
                    &&& end == pos + 17
                    &&& buf@.subrange(pos as int, end as int) == enc_value(v)
                },
                Err(e) => match e {
                    CodecError::EndOfBuffer => pos + 1 > buf@.len() || ((buf@[pos as int] == 0u8
                        || buf@[pos as int] == 1u8) && pos + 17 > buf@.len()),
                    CodecError::InvalidEnum(b) => pos + 1 <= buf@.len() && buf@[pos as int] != 0u8
                        && buf@[pos as int] != 1u8 && b == buf@[pos as int],
                    _ => false,
                },
            },
    {
        let (tag, p1) = read_u8(buf, pos)?;
        match tag {
            0 => {
                let (a, p2) = match Account::read_cfg(buf, p1) {
                    Ok(v) => v,
                    Err(e) => {
                        return Err(e);
                    },
                };
                let v = Value::Account(a);
                proof {
                    assert(buf@.subrange(pos as int, p2 as int) =~= enc_value(v));
                }
                Ok((v, p2))
            },
            1 => {
                let (c, p2) = match CommitMetadata::read_cfg(buf, p1) {
                    Ok(v) => v,
                    Err(e) => {
                        return Err(e);
                    },
                };
                let v = Value::CommitMetadata(c);
                proof {
                    assert(buf@.subrange(pos as int, p2 as int) =~= enc_value(v));
                }
                Ok((v, p2))
            },
            _ => Err(CodecError::InvalidEnum(tag)),
        }
    }
}

/// The transaction digests of a block body, concatenated in order.
pub open spec fn tx_digests(txs: Seq<Transaction>) -> Seq<u8>
    decreases txs.len(),
{
    if txs.len() == 0 {
        Seq::empty()
    } else {
        spec_transaction_digest(txs[0]) + tx_digests(txs.drop_first())
    }
}

proof fn lemma_tx_digests_snoc(s: Seq<Transaction>)
    requires
        s.len() > 0,
    ensures
        tx_digests(s) == tx_digests(s.drop_last()) + spec_transaction_digest(s.last()),
    decreases s.len(),
{
    if s.len() == 1 {
        assert(s.drop_last() =~= Seq::<Transaction>::empty());
        assert(s.drop_first() =~= Seq::<Transaction>::empty());
        assert(tx_digests(s.drop_first()) == Seq::<u8>::empty());
        assert(tx_digests(s.drop_last()) == Seq::<u8>::empty());
        assert(s[0] == s.last());
        assert(tx_digests(s) =~= tx_digests(s.drop_last()) + spec_transaction_digest(s.last()));
    } else {
        lemma_tx_digests_snoc(s.drop_first());
        assert(s.drop_first().drop_last() =~= s.drop_last().drop_first());
        assert(s.drop_first().last() == s.last());
        assert(s.drop_last()[0] == s[0]);
        assert(s.drop_last().len() > 0);
        assert(tx_digests(s.drop_last()) == spec_transaction_digest(s[0]) + tx_digests(
            s.drop_last().drop_first(),
        ));
        assert(tx_digests(s) == spec_transaction_digest(s[0]) + tx_digests(s.drop_first()));
        vstd::seq_lib::lemma_concat_associative(
            spec_transaction_digest(s[0]),
            tx_digests(s.drop_last().drop_first()),
            spec_transaction_digest(s.last()),
        );
        assert(tx_digests(s) =~= tx_digests(s.drop_last()) + spec_transaction_digest(s.last()));
    }
}

/// The wire images of a block's transactions, concatenated in order.
pub open spec fn enc_tx_list(txs: Seq<Transaction>) -> Seq<u8>
    decreases txs.len(),
{
    if txs.len() == 0 {
        Seq::empty()
    } else {
        enc_transaction(txs[0]) + enc_tx_list(txs.drop_first())
    }
}

proof fn lemma_enc_tx_list_snoc(s: Seq<Transaction>)
    requires
        s.len() > 0,
    ensures
        enc_tx_list(s) == enc_tx_list(s.drop_last()) + enc_transaction(s.last()),
    decreases s.len(),
{
    if s.len() == 1 {
        assert(s.drop_last() =~= Seq::<Transaction>::empty());
        assert(s.drop_first() =~= Seq::<Transaction>::empty());
        assert(enc_tx_list(s.drop_first()) == Seq::<u8>::empty());
        assert(enc_tx_list(s.drop_last()) == Seq::<u8>::empty());
        assert(s[0] == s.last());
        assert(enc_tx_list(s) =~= enc_tx_list(s.drop_last()) + enc_transaction(s.last()));
    } else {
        lemma_enc_tx_list_snoc(s.drop_first());
        assert(s.drop_first().drop_last() =~= s.drop_last().drop_first());
        assert(s.drop_first().last() == s.last());
        assert(s.drop_last()[0] == s[0]);
        assert(s.drop_last().len() > 0);
        assert(enc_tx_list(s.drop_last()) == enc_transaction(s[0]) + enc_tx_list(
            s.drop_last().drop_first(),
        ));
        assert(enc_tx_list(s) == enc_transaction(s[0]) + enc_tx_list(s.drop_first()));
        vstd::seq_lib::lemma_concat_associative(
            enc_transaction(s[0]),
            enc_tx_list(s.drop_last().drop_first()),
            enc_transaction(s.last()),
        );
        assert(enc_tx_list(s) =~= enc_tx_list(s.drop_last()) + enc_transaction(s.last()));
    }
}

/// A block's digest: parent, big-endian height, and the transaction digests
/// in order, hashed.
pub open spec fn spec_block_digest(parent: Seq<u8>, height: u64, txs: Seq<Transaction>) -> Seq<
    u8,
> {
    sha256_of(parent + enc_u64(height) + tx_digests(txs))
}

/// Wire image of a block: parent, varint height, varint transaction count,
/// then the transactions.
pub open spec fn enc_block(parent: Seq<u8>, height: u64, txs: Seq<Transaction>) -> Seq<u8> {
    parent + enc_varint(height) + enc_varint(txs.len() as u64) + enc_tx_list(txs)
}

/// The structural condition under which a block parses at `pos`: the parent,
/// a height varint and a count varint fit, the count is within the bound,
/// and each of that many 145-byte transactions fits with a valid tag.
pub open spec fn block_parse_shape(s: Seq<u8>, pos: int) -> bool {
    &&& 0 <= pos
    &&& pos + 32 <= s.len()
    &&& match dec_varint(s, pos + 32, 0, 0, 64) {
        Ok((h, p1)) => match dec_varint(s, p1, 0, 0, 32) {
            Ok((n, p2)) => {
                &&& n <= MAX_BLOCK_TRANSACTIONS as int
                &&& p2 + n * 145 <= s.len()
                &&& forall|i: int| 0 <= i < n ==> #[trigger] s[p2 + i * 145 + 8] == 0u8
            },
            Err(_) => false,
        },
        Err(_) => false,
    }
}

/// A block: parent, height, and a bounded transaction list, with the digest
/// memoized at construction.
#[derive(Clone, Debug, PartialEq, Eq)]
pub struct Block {
    pub parent: Digest,
    pub height: u64,
    pub transactions: Vec<Transaction>,
    digest: Digest,
}

impl Block {
    /// The block's parent digest, readable in specifications.
    pub closed spec fn spec_parent(self) -> Seq<u8> {
        self.parent@
    }

    /// The block's height, readable in specifications.
    pub closed spec fn spec_height(self) -> u64 {
        self.height
    }

    /// The block's transactions, readable in specifications.
    pub closed spec fn spec_transactions(self) -> Seq<Transaction> {
        self.transactions@
    }

    /// The memoized digest matches the block's content.
    pub closed spec fn wf(self) -> bool {
        &&& self.transactions@.len() <= MAX_BLOCK_TRANSACTIONS
        &&& self.digest@ == spec_block_digest(self.parent@, self.height, self.transactions@)
    }

    /// Hash parent, height and the transaction digests.
    fn compute_digest(parent: &Digest, height: u64, transactions: &Vec<Transaction>) -> (r: Digest)
        ensures
            r@ == spec_block_digest(parent@, height, transactions@),
    {
        let mut image: Vec<u8> = Vec::new();
        write_bytes(&mut image, &parent.bytes);
        write_u64(&mut image, height);
        let mut i: usize = 0;
        while i < transactions.len()
            invariant
                i <= transactions@.len(),
                image@ == parent@ + enc_u64(height) + tx_digests(transactions@.take(i as int)),
            decreases transactions@.len() - i,
        {
            let d = transactions[i].digest();
            write_bytes(&mut image, &d.bytes);
            proof {
                lemma_tx_digests_snoc(transactions@.take(i + 1));
                assert(transactions@.take(i + 1).drop_last() =~= transactions@.take(i as int));
                assert(transactions@.take(i + 1).last() == transactions@[i as int]);
                assert(image@ =~= parent@ + enc_u64(height) + tx_digests(
                    transactions@.take(i + 1),
                ));
            }
            i += 1;
        }
        proof {
            assert(transactions@.take(transactions@.len() as int) =~= transactions@);
        }
        sha256(&image)
    }

    /// Build a block over at most `MAX_BLOCK_TRANSACTIONS` transactions and
    /// memoize its digest.
    pub fn new(parent: Digest, height: u64, transactions: Vec<Transaction>) -> (r: Block)
        requires
            transactions@.len() <= MAX_BLOCK_TRANSACTIONS,
        ensures
            r.wf(),
            r.spec_parent() == parent@,
            r.spec_height() == height,
            r.spec_transactions() == transactions@,
    {
        let digest = Self::compute_digest(&parent, height, &transactions);
        Block { parent, height, transactions, digest }
    }

    /// The memoized digest, which also serves as the block's commitment.
    pub fn digest(&self) -> (r: Digest)
        requires
            self.wf(),
        ensures
            r@ == spec_block_digest(self.spec_parent(), self.spec_height(), self.spec_transactions()),
    {
        self.digest
    }

    /// The block's broadcast commitment: the same hash as the digest.
    pub fn commitment(&self) -> (r: Digest)
        requires
            self.wf(),
        ensures
            r@ == spec_block_digest(self.spec_parent(), self.spec_height(), self.spec_transactions()),
    {
        self.digest
    }

    /// Append the wire image.
    pub fn write(&self, buf: &mut Vec<u8>)
        ensures
            final(buf)@ == old(buf)@ + enc_block(
                self.spec_parent(),
                self.spec_height(),
                self.spec_transactions(),
            ),
    {
        write_bytes(buf, &self.parent.bytes);
        write_varint(buf, self.height);
        write_varint(buf, self.transactions.len() as u64);
        let ghost head = old(buf)@ + self.parent@ + enc_varint(self.height) + enc_varint(
            self.transactions@.len() as u64,
        );
        proof {
            assert(buf@ =~= head + enc_tx_list(self.transactions@.take(0)));
        }
        let mut i: usize = 0;
        while i < self.transactions.len()
            invariant
                i <= self.transactions@.len(),
                head == old(buf)@ + self.parent@ + enc_varint(self.height) + enc_varint(
                    self.transactions@.len() as u64,
                ),
                buf@ == head + enc_tx_list(self.transactions@.take(i as int)),
            decreases self.transactions@.len() - i,
        {
            self.transactions[i].write(buf);
            proof {
                lemma_enc_tx_list_snoc(self.transactions@.take(i + 1));
                assert(self.transactions@.take(i + 1).drop_last() =~= self.transactions@.take(
                    i as int,
                ));
                assert(self.transactions@.take(i + 1).last() == self.transactions@[i as int]);
                assert(buf@ =~= head + enc_tx_list(self.transactions@.take(i + 1)));
            }
            i += 1;
        }
        proof {
            assert(self.transactions@.take(self.transactions@.len() as int)
                =~= self.transactions@);
            assert(buf@ =~= old(buf)@ + enc_block(self.parent@, self.height, self.transactions@));
        }
    }

    /// Bytes the wire image takes.
    pub fn encode_size(&self) -> (r: usize)
        ensures
            r == enc_block(self.spec_parent(), self.spec_height(), self.spec_transactions()).len(),
    {
        let mut image: Vec<u8> = Vec::new();
        self.write(&mut image);
        image.len()
    }

    /// Read a block: it succeeds exactly when the parent, both varints and
    /// the counted transactions all parse and the count is within the bound.
    /// A count past the bound is rejected as `InvalidLength`.
    #[verifier::loop_isolation(false)]
    pub fn read_cfg(buf: &Vec<u8>, pos: usize) -> (r: Result<(Block, usize), CodecError>)
        ensures
            match r {
                Ok((b, end)) => {
                    &&& block_parse_shape(buf@, pos as int)
                    &&& pos <= end <= buf@.len()
                    &&& buf@.subrange(pos as int, end as int) == enc_block(
                        b.spec_parent(),
                        b.spec_height(),
                        b.spec_transactions(),
                    )
                    &&& b.spec_transactions().len() <= MAX_BLOCK_TRANSACTIONS
                    &&& b.wf()
                },
                Err(e) => {
                    &&& !block_parse_shape(buf@, pos as int)
                    &&& (e matches CodecError::InvalidLength(n) ==> n
                        > MAX_BLOCK_TRANSACTIONS)
                },
            },
    {
        let (parent, p0) = read_bytes::<32>(buf, pos)?;
        let (height, p1) = match read_varint_u64(buf, p0) {
            Ok(v) => v,
            Err(e) => {
                proof {
                    crate::codec::lemma_dec_varint_err_kind(buf@, p0 as int, 0, 0, 64);
                }
                return Err(e);
            },
        };
        let (count, p2) = match read_varint_u32(buf, p1) {
            Ok(v) => v,
            Err(e) => {
                proof {
                    crate::codec::lemma_dec_varint_err_kind(buf@, p1 as int, 0, 0, 32);
                }
                return Err(e);
            },
        };
        proof {
            lemma_varint_complete(buf@, p0 as int, 64, height as int, p1 as int);
            lemma_varint_complete(buf@, p1 as int, 32, count as int, p2 as int);
        }
        if count > 10 {
            return Err(CodecError::InvalidLength(count as usize));
        }
        let count_us = count as usize;
        let mut transactions: Vec<Transaction> = Vec::new();
        let mut q: usize = p2;
        proof {
            assert(buf@.subrange(p2 as int, p2 as int) =~= enc_tx_list(transactions@));
        }
        while transactions.len() < count_us
            invariant
                transactions@.len() <= count_us,
                q == p2 + transactions@.len() * 145,
                q <= buf@.len(),
                buf@.subrange(p2 as int, q as int) == enc_tx_list(transactions@),
                forall|i: int|
                    0 <= i < transactions@.len() ==> #[trigger] buf@[p2 + i * 145 + 8] == 0u8,
            decreases count_us - transactions@.len(),
        {
            let ghost j = transactions@.len() as int;
            let (t, q2) = match Transaction::read_cfg(buf, q) {
                Ok(v) => v,
                Err(e) => {
                    proof {
                        assert(p2 + count * 145 >= q + 145) by (nonlinear_arith)
                            requires
                                q == p2 + j * 145,
                                j < count as int,
                                j >= 0,
                        ;
                        assert(!block_parse_shape(buf@, pos as int));
                    }
                    return Err(e);
                },
            };
            let ghost prev = transactions@;
            transactions.push(t);
            proof {
                assert(transactions@.drop_last() =~= prev);
                assert(transactions@.last() == t);
                lemma_enc_tx_list_snoc(transactions@);
                assert(buf@.subrange(p2 as int, q2 as int) =~= buf@.subrange(p2 as int, q as int)
                    + buf@.subrange(q as int, q2 as int));
                assert((j + 1) * 145 == j * 145 + 145) by (nonlinear_arith);
                assert(buf@.subrange(p2 as int, q2 as int) =~= enc_tx_list(transactions@));
                assert(buf@[p2 + j * 145 + 8] == 0u8);
            }
            q = q2;
        }
        let digest = Self::compute_digest(&Digest { bytes: parent }, height, &transactions);
        let b = Block {
            parent: Digest { bytes: parent },
            height,
            transactions,
            digest,
        };
        proof {
            assert(block_parse_shape(buf@, pos as int)) by {
                assert(p2 + count * 145 == q) by (nonlinear_arith)
                    requires
                        q == p2 + (count as int) * 145,
                ;
            };
            assert(buf@.subrange(pos as int, q as int) =~= enc_block(
                b.parent@,
                b.height,
                b.transactions@,
            )) by {
                assert(buf@.subrange(pos as int, p0 as int) =~= b.parent@);
                assert(buf@.subrange(pos as int, q as int) =~= buf@.subrange(pos as int, p0 as int)
                    + buf@.subrange(p0 as int, p1 as int) + buf@.subrange(p1 as int, p2 as int)
                    + buf@.subrange(p2 as int, q as int));
            };
        }
        Ok((b, q))
    }
}

} // verus!
