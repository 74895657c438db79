//! The transaction and event digests, cross-checked against the hash the
//! rest of the system uses.

use commonware_cryptography::{Hasher, Sha256};

use fcn::digest::{Digest, PublicKey, Signature};
use fcn::oracle_types::{BlockProposal, Instruction, Transaction};
use fcn::oracle_wire::MessageEvent;

fn d(b: u8) -> Digest {
    Digest { bytes: [b; 32] }
}

fn sample_tx(sig: u8) -> Transaction {
    Transaction {
        nonce: 42,
        instruction: Instruction::ProposeBlock(BlockProposal {
            block_height: 7,
            parent_hash: d(0x11),
            block_hash: d(0x22),
        }),
        public_key: PublicKey { bytes: [3; 32] },
        signature: Signature { bytes: [sig; 64] },
    }
}

#[test]
fn transaction_digest_is_sha256_of_nonce_instruction_and_key() {
    let t = sample_tx(4);
    // rebuild the preimage by hand: big-endian nonce, instruction image, key
    let mut preimage: Vec<u8> = Vec::new();
    preimage.extend_from_slice(&t.nonce.to_be_bytes());
    let mut instr = Vec::new();
    t.instruction.write(&mut instr);
    preimage.extend_from_slice(&instr);
    preimage.extend_from_slice(&t.public_key.bytes);
    let expected = Sha256::hash(&[preimage.as_slice()]);
    assert_eq!(t.digest().bytes, expected.0);
    // and it is a real hash, not the preimage handed back
    assert_eq!(t.digest().bytes.len(), 32);
    assert_ne!(&t.digest().bytes[..], &preimage[..32]);
}

#[test]
fn signature_does_not_change_the_transaction_identity() {
    let a = sample_tx(4);
    let b = sample_tx(9);
    assert_ne!(a.signature, b.signature);
    assert_eq!(a.digest(), b.digest());
    // but the nonce does
    let mut c = sample_tx(4);
    c.nonce = 43;
    assert_ne!(a.digest(), c.digest());
}

#[test]
fn message_event_digest_hashes_the_wire_image() {
    let m = MessageEvent::BlockMinted(12);
    let mut image = Vec::new();
    m.write(&mut image);
    let expected = Sha256::hash(&[image.as_slice()]);
    assert_eq!(m.digest().bytes, expected.0);
    assert_eq!(m.commitment(), m.digest());
}

#[test]
fn zero_digest_is_all_zero_bytes() {
    assert_eq!(Digest::zero().bytes, [0u8; 32]);
    assert!(Digest::zero().equals(&d(0)));
    assert!(!Digest::zero().equals(&d(1)));
}
