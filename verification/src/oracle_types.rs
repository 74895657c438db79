//! The oracle's data types and their deterministic wire format: transactions
//! carrying block proposals, finalized-frame records, and builder accounts.
//! All integers travel big-endian; tagged sums carry a one-byte tag.

use vstd::prelude::*;

use crate::codec::{
    enc_u64, read_bytes, read_u64, read_u8, write_bytes, write_u64, write_u8, CodecError,
};
use crate::digest::{sha256, sha256_of, Digest, PublicKey, Signature};
use crate::mempool::MempoolTransaction;

verus! {

broadcast use vstd::array::group_array_axioms;

/// A proposal naming a new block by height, parent and hash.
#[derive(Clone, Copy, Debug, PartialEq, Eq)]
pub struct BlockProposal {
    pub block_height: u64,
    pub parent_hash: Digest,
    pub block_hash: Digest,
}

/// The one instruction the oracle executes.
#[derive(Clone, Copy, Debug, PartialEq, Eq)]
pub enum Instruction {
    ProposeBlock(BlockProposal),
}

/// A signed, nonce-ordered instruction from a builder account. The signature
/// is carried but checked upstream.
#[derive(Clone, Copy, Debug, PartialEq, Eq)]
pub struct Transaction {
    pub nonce: u64,
    pub instruction: Instruction,
    pub public_key: PublicKey,
    pub signature: Signature,
}

/// A finalized frame: its number and the finalized chain head.
#[derive(Clone, Copy, Debug, PartialEq, Eq)]
pub struct Frame {
    pub frame_number: u64,
    pub chain_head: Digest,
}

/// An event the oracle executor emits.
#[derive(Clone, Copy, Debug, PartialEq, Eq)]
pub enum Event {
    FrameFinalized(Frame),
}

/// A builder account: only a nonce.
#[derive(Clone, Copy, Debug, PartialEq, Eq, Structural)]
pub struct BuilderAccount {
    pub nonce: u64,
}

impl Default for BuilderAccount {
    /// A fresh builder account starts at nonce zero.
    fn default() -> (r: BuilderAccount)
        ensures
            r.nonce == 0,
    {
        BuilderAccount { nonce: 0 }
    }
}

/// Wire image of a proposal: height, parent, hash.
pub open spec fn enc_block_proposal(p: BlockProposal) -> Seq<u8> {
    enc_u64(p.block_height) + p.parent_hash@ + p.block_hash@
}

/// Wire image of an instruction: tag 0, then the proposal.
pub open spec fn enc_instruction(i: Instruction) -> Seq<u8> {
    match i {
        Instruction::ProposeBlock(p) => seq![0u8] + enc_block_proposal(p),
    }
}

/// Wire image of a transaction: nonce, instruction, key, signature.
pub open spec fn enc_transaction(t: Transaction) -> Seq<u8> {
    enc_u64(t.nonce) + enc_instruction(t.instruction) + t.public_key@ + t.signature@
}

/// Wire image of a frame: number, head.
pub open spec fn enc_frame(f: Frame) -> Seq<u8> {
    enc_u64(f.frame_number) + f.chain_head@
}

/// The replay identity of a transaction: the hash of its nonce, instruction
/// and key — the signature is left out, so any valid signature names the
/// same transaction.
pub open spec fn spec_transaction_digest(t: Transaction) -> Seq<u8> {
    sha256_of(enc_u64(t.nonce) + enc_instruction(t.instruction) + t.public_key@)
}

impl BlockProposal {
    /// Append the wire image.
    pub fn write(&self, buf: &mut Vec<u8>)
        ensures
            final(buf)@ == old(buf)@ + enc_block_proposal(*self),
    {
        write_u64(buf, self.block_height);
        write_bytes(buf, &self.parent_hash.bytes);
        write_bytes(buf, &self.block_hash.bytes);
        proof {
            assert(buf@ =~= old(buf)@ + enc_block_proposal(*self));
        }
    }

    /// Bytes the wire image takes.
    pub fn encode_size(&self) -> (r: usize)
        ensures
            r == enc_block_proposal(*self).len(),
    {
        72
    }

    /// Read a proposal. Succeeds exactly when 72 bytes remain.
    pub fn read_cfg(buf: &Vec<u8>, pos: usize) -> (r: Result<(BlockProposal, usize), CodecError>)
        ensures
            match r {
                Ok((p, end)) => {
                    &&& pos + 72 <= buf@.len()
                    &&& end == pos + 72
                    &&& buf@.subrange(pos as int, end as int) == enc_block_proposal(p)
                },
                Err(e) => e == CodecError::EndOfBuffer && pos + 72 > buf@.len(),
            },
    {
        let (height, p1) = read_u64(buf, pos)?;
        let (parent, p2) = read_bytes::<32>(buf, p1)?;
        let (hash, p3) = match read_bytes::<32>(buf, p2) {
            Ok(v) => v,
            Err(e) => {
                return Err(e);
            },
        };
        let p = BlockProposal {
            block_height: height,
            parent_hash: Digest { bytes: parent },
            block_hash: Digest { bytes: hash },
        };
        proof {
            assert(buf@.subrange(pos as int, p3 as int) =~= enc_block_proposal(p));
        }
        Ok((p, p3))
    }
}

impl Instruction {
    /// Append the wire image.
    pub fn write(&self, buf: &mut Vec<u8>)
        ensures
            final(buf)@ == old(buf)@ + enc_instruction(*self),
    {
        match self {
            Instruction::ProposeBlock(p) => {
                write_u8(buf, 0);
                p.write(buf);
                proof {
                    assert(buf@ =~= old(buf)@ + enc_instruction(*self));
                }
            },
        }
    }

    /// Bytes the wire image takes.
    pub fn encode_size(&self) -> (r: usize)
        ensures
            r == enc_instruction(*self).len(),
    {
        match self {
            Instruction::ProposeBlock(p) => 1 + p.encode_size(),
        }
    }

    /// Read an instruction: it succeeds exactly when the tag byte is the
    /// proposal tag and the whole body fits; an unknown tag is rejected as
    /// `InvalidEnum`, a short buffer as `EndOfBuffer`.
    pub fn read_cfg(buf: &Vec<u8>, pos: usize) -> (r: Result<(Instruction, usize), CodecError>)
        ensures
            match r {
                Ok((i, end)) => {
                    &&& pos + 73 <= buf@.len()
                    &&& buf@[pos as int] == 0u8
                    &&& end == pos + 73
                    &&& buf@.subrange(pos as int, end as int) == enc_instruction(i)
                },
                Err(e) => match e {
                    CodecError::EndOfBuffer => pos + 1 > buf@.len() || (buf@[pos as int] == 0u8
                        && pos + 73 > buf@.len()),
                    CodecError::InvalidEnum(b) => pos + 1 <= buf@.len() && buf@[pos as int] != 0u8
                        && b == buf@[pos as int],
                    _ => false,
                },
            },
    {
        let (tag, p1) = read_u8(buf, pos)?;
        match tag {
            0 => {
                let (p, p2) = match BlockProposal::read_cfg(buf, p1) {
                    Ok(v) => v,
                    Err(e) => {
                        return Err(e);
                    },
                };
                let i = Instruction::ProposeBlock(p);
                proof {
                    assert(buf@.subrange(pos as int, p2 as int) =~= enc_instruction(i));
                }
                Ok((i, p2))
            },
            _ => Err(CodecError::InvalidEnum(tag)),
        }
    }
}

impl Transaction {
    /// Append the wire image.
    pub fn write(&self, buf: &mut Vec<u8>)
        ensures
            final(buf)@ == old(buf)@ + enc_transaction(*self),
    {
        write_u64(buf, self.nonce);
        self.instruction.write(buf);
        write_bytes(buf, &self.public_key.bytes);
        write_bytes(buf, &self.signature.bytes);
        proof {
            assert(buf@ =~= old(buf)@ + enc_transaction(*self));
        }
    }

    /// Bytes the wire image takes.
    pub fn encode_size(&self) -> (r: usize)
        ensures
            r == enc_transaction(*self).len(),
    {
        8 + self.instruction.encode_size() + 32 + 64
    }

    /// Read a transaction: it succeeds exactly when all 177 bytes fit and
    /// the instruction tag is valid.
    pub fn read_cfg(buf: &Vec<u8>, pos: usize) -> (r: Result<(Transaction, usize), CodecError>)
        ensures
            match r {
                Ok((t, end)) => {
                    &&& pos + 177 <= buf@.len()
                    &&& buf@[pos + 8] == 0u8
                    &&& end == pos + 177
                    &&& buf@.subrange(pos as int, end as int) == enc_transaction(t)
                },
                Err(e) => match e {
                    CodecError::EndOfBuffer => pos + 177 > buf@.len() && (pos + 9 > buf@.len()
                        || buf@[pos + 8] == 0u8),
                    CodecError::InvalidEnum(b) => pos + 9 <= buf@.len() && buf@[pos + 8] != 0u8
                        && b == buf@[pos + 8],
                    _ => false,
                },
            },
    {
        let (nonce, p1) = read_u64(buf, pos)?;
        let (instruction, p2) = match Instruction::read_cfg(buf, p1) {
            Ok(v) => v,
            Err(e) => {
                return Err(e);
            },
        };
        let (pk, p3) = match read_bytes::<32>(buf, p2) {
            Ok(v) => v,
            Err(e) => {
                return Err(e);
            },
        };
        let (sig, p4) = match read_bytes::<64>(buf, p3) {
            Ok(v) => v,
            Err(e) => {
                return Err(e);
            },
        };
        let t = Transaction {
            nonce,
            instruction,
            public_key: PublicKey { bytes: pk },
            signature: Signature { bytes: sig },
        };
        proof {
            assert(buf@.subrange(pos as int, p4 as int) =~= enc_transaction(t));
        }
        Ok((t, p4))
    }

    /// The transaction's replay identity: nonce, instruction and key hashed,
    /// signature left out.
    pub fn digest(&self) -> (r: Digest)
        ensures
            r@ == spec_transaction_digest(*self),
    {
        let mut preimage: Vec<u8> = Vec::new();
        write_u64(&mut preimage, self.nonce);
        self.instruction.write(&mut preimage);
        write_bytes(&mut preimage, &self.public_key.bytes);
        proof {
            assert(preimage@ =~= enc_u64(self.nonce) + enc_instruction(self.instruction)
                + self.public_key@);
        }
        sha256(&preimage)
    }
}

impl MempoolTransaction for Transaction {
    open spec fn spec_public_key(&self) -> Seq<u8> {
        self.public_key@
    }

    open spec fn spec_nonce(&self) -> u64 {
        self.nonce
    }

    open spec fn spec_digest(&self) -> Seq<u8> {
        spec_transaction_digest(*self)
    }

    fn public_key(&self) -> (r: PublicKey) {
        self.public_key
    }

    fn nonce(&self) -> (r: u64) {
        self.nonce
    }

    fn digest(&self) -> (r: Digest) {
        Transaction::digest(self)
    }
}

impl Frame {
    /// Append the wire image.
    pub fn write(&self, buf: &mut Vec<u8>)
        ensures
            final(buf)@ == old(buf)@ + enc_frame(*self),
    {
        write_u64(buf, self.frame_number);
        write_bytes(buf, &self.chain_head.bytes);
        proof {
            assert(buf@ =~= old(buf)@ + enc_frame(*self));
        }
    }

    /// Bytes the wire image takes.
    pub fn encode_size(&self) -> (r: usize)
        ensures
            r == enc_frame(*self).len(),
    {
        40
    }

    /// Read a frame. Succeeds exactly when 40 bytes remain.
    pub fn read_cfg(buf: &Vec<u8>, pos: usize) -> (r: Result<(Frame, usize), CodecError>)
        ensures
            match r {
                Ok((f, end)) => {
                    &&& pos + 40 <= buf@.len()
                    &&& end == pos + 40
                    &&& buf@.subrange(pos as int, end as int) == enc_frame(f)
                },
                Err(e) => e == CodecError::EndOfBuffer && pos + 40 > buf@.len(),
            },
    {
        let (number, p1) = read_u64(buf, pos)?;
        let (head, p2) = match read_bytes::<32>(buf, p1) {
            Ok(v) => v,
            Err(e) => {
                return Err(e);
            },
        };
        let f = Frame { frame_number: number, chain_head: Digest { bytes: head } };
        proof {
            assert(buf@.subrange(pos as int, p2 as int) =~= enc_frame(f));
        }
        Ok((f, p2))
    }
}

} // verus!
