//! Wire-format tests, cross-checked where possible against the codec crate
//! the rest of the system speaks.

use commonware_codec::varint::UInt;
use commonware_codec::Write as CommonwareWrite;

use fcn::codec::{read_u64, read_u8, read_varint_u32, read_varint_u64, write_u64, write_varint,
    CodecError};
use fcn::digest::{Digest, PublicKey, Signature};
use fcn::oracle_types::{BlockProposal, Frame, Instruction, Transaction};
use fcn::oracle_wire::MessageEvent;
use fcn::swarm_types as swarm;

fn d(b: u8) -> Digest {
    Digest { bytes: [b; 32] }
}

#[test]
fn u64_travels_big_endian() {
    let mut buf = Vec::new();
    write_u64(&mut buf, 0x0123_4567_89AB_CDEF);
    assert_eq!(buf, vec![0x01, 0x23, 0x45, 0x67, 0x89, 0xAB, 0xCD, 0xEF]);
    let (v, end) = read_u64(&buf, 0).unwrap();
    assert_eq!(v, 0x0123_4567_89AB_CDEF);
    assert_eq!(end, 8);
    assert!(matches!(read_u64(&buf, 1), Err(CodecError::EndOfBuffer)));
}

#[test]
fn varint_matches_the_wire_codec() {
    for v in [0u64, 1, 127, 128, 300, 16383, 16384, u64::MAX] {
        let mut ours = Vec::new();
        write_varint(&mut ours, v);
        let mut theirs: Vec<u8> = Vec::new();
        UInt(v).write(&mut theirs);
        assert_eq!(ours, theirs, "encodings differ at {}", v);
        let (back, end) = read_varint_u64(&ours, 0).unwrap();
        assert_eq!(back, v);
        assert_eq!(end, ours.len());
    }
}

#[test]
fn varint_rejects_non_canonical_and_truncated_forms() {
    // a trailing zero byte is not canonical
    let buf = vec![0x80u8, 0x00];
    assert!(matches!(read_varint_u64(&buf, 0), Err(CodecError::InvalidVarint)));
    // a continuation byte at the end of the buffer
    let buf = vec![0x80u8];
    assert!(matches!(read_varint_u64(&buf, 0), Err(CodecError::EndOfBuffer)));
    // a 32-bit varint may not carry bits past the 32nd
    let buf = vec![0xFFu8, 0xFF, 0xFF, 0xFF, 0x1F];
    assert!(matches!(read_varint_u32(&buf, 0), Err(CodecError::InvalidVarint)));
    let buf = vec![0xFFu8, 0xFF, 0xFF, 0xFF, 0x0F];
    let (v, _) = read_varint_u32(&buf, 0).unwrap();
    assert_eq!(v, u32::MAX);
}

#[test]
fn oracle_transaction_round_trips() {
    let t = Transaction {
        nonce: 42,
        instruction: Instruction::ProposeBlock(BlockProposal {
            block_height: 7,
            parent_hash: d(0x11),
            block_hash: d(0x22),
        }),
        public_key: PublicKey { bytes: [3; 32] },
        signature: Signature { bytes: [4; 64] },
    };
    let mut buf = Vec::new();
    t.write(&mut buf);
    assert_eq!(buf.len(), t.encode_size());
    let (back, end) = Transaction::read_cfg(&buf, 0).unwrap();
    assert_eq!(back, t);
    assert_eq!(end, buf.len());
}

#[test]
fn unknown_instruction_tag_is_rejected() {
    let mut buf = Vec::new();
    write_u8_at(&mut buf, 9);
    for _ in 0..72 {
        write_u8_at(&mut buf, 0);
    }
    assert!(matches!(
        Instruction::read_cfg(&buf, 0),
        Err(CodecError::InvalidEnum(9))
    ));
}

fn write_u8_at(buf: &mut Vec<u8>, v: u8) {
    buf.push(v);
}

#[test]
fn frame_and_message_events_round_trip() {
    let f = Frame { frame_number: 9, chain_head: d(0x55) };
    let mut buf = Vec::new();
    f.write(&mut buf);
    assert_eq!(buf.len(), 40);
    let (back, _) = Frame::read_cfg(&buf, 0).unwrap();
    assert_eq!(back, f);

    for m in [MessageEvent::BlockMinted(5), MessageEvent::FrameFinalized(f)] {
        let mut buf = Vec::new();
        m.write(&mut buf);
        assert_eq!(buf.len(), m.encode_size());
        let (back, end) = MessageEvent::read_cfg(&buf, 0).unwrap();
        assert_eq!(back, m);
        assert_eq!(end, buf.len());
    }
    let bad = vec![7u8, 0, 0, 0, 0, 0, 0, 0, 0];
    assert!(matches!(
        MessageEvent::read_cfg(&bad, 0),
        Err(CodecError::InvalidEnum(7))
    ));
}

#[test]
fn swarm_value_and_key_round_trip() {
    let a = swarm::Account { nonce: 3, bread: 77 };
    let c = swarm::CommitMetadata { height: 5, start: 9 };
    for v in [swarm::Value::Account(a), swarm::Value::CommitMetadata(c)] {
        let mut buf = Vec::new();
        v.write(&mut buf);
        assert_eq!(buf.len(), 17);
        let (back, _) = swarm::Value::read_cfg(&buf, 0).unwrap();
        assert_eq!(back, v);
    }
    let k = swarm::Key::Account(PublicKey { bytes: [8; 32] });
    let mut buf = Vec::new();
    k.write(&mut buf);
    assert_eq!(buf.len(), 33);
    let (back, _) = swarm::Key::read_cfg(&buf, 0).unwrap();
    assert_eq!(back, k);
    let bad = vec![2u8; 33];
    assert!(matches!(
        swarm::Key::read_cfg(&bad, 0),
        Err(CodecError::InvalidEnum(2))
    ));
}

fn swarm_tx(pk: u8, nonce: u64, amount: u64, to: u8) -> swarm::Transaction {
    swarm::Transaction {
        nonce,
        instruction: swarm::Instruction::TransferBread(swarm::TransferBread {
            amount,
            to: PublicKey { bytes: [to; 32] },
        }),
        public_key: PublicKey { bytes: [pk; 32] },
        signature: Signature { bytes: [0; 64] },
    }
}

#[test]
fn block_round_trips_with_varint_height() {
    let txs = vec![swarm_tx(1, 0, 5, 2), swarm_tx(2, 3, 1, 1)];
    let b = swarm::Block::new(d(0x11), 300, txs);
    let mut buf = Vec::new();
    b.write(&mut buf);
    assert_eq!(buf.len(), b.encode_size());
    // height 300 takes two varint bytes, matching the wire codec
    let mut height_bytes: Vec<u8> = Vec::new();
    UInt(300u64).write(&mut height_bytes);
    assert_eq!(&buf[32..34], height_bytes.as_slice());
    let (back, end) = swarm::Block::read_cfg(&buf, 0).unwrap();
    assert_eq!(end, buf.len());
    assert_eq!(back, b);
    assert_eq!(back.digest(), b.digest());
}

#[test]
fn block_with_too_many_transactions_is_rejected() {
    let txs: Vec<swarm::Transaction> = (0..11u64).map(|n| swarm_tx(1, n, 1, 2)).collect();
    // encode a count of 11 by hand: parent, height 0, count 11, bodies
    let mut buf = Vec::new();
    buf.extend_from_slice(&[0x11; 32]);
    buf.push(0);
    buf.push(11);
    for t in &txs {
        t.write(&mut buf);
    }
    assert!(matches!(
        swarm::Block::read_cfg(&buf, 0),
        Err(CodecError::InvalidLength(11))
    ));
}
