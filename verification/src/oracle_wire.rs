//! The oracle's broadcast messages: a minted block number or a finalized
//! frame, as a tagged sum with a stable digest over the wire image.

use vstd::prelude::*;

use crate::codec::{enc_u64, read_u64, read_u8, write_u64, write_u8, CodecError};
use crate::digest::{sha256, sha256_of, Digest};
use crate::oracle_types::{enc_frame, Frame};

verus! {

broadcast use vstd::array::group_array_axioms;

/// A message broadcast to peers.
#[derive(Clone, Copy, Debug, PartialEq, Eq)]
pub enum MessageEvent {
    BlockMinted(u64),
    FrameFinalized(Frame),
}

/// Wire image of a message: tag 0 with a block number, or tag 1 with a
/// frame.
pub open spec fn enc_message_event(m: MessageEvent) -> Seq<u8> {
    match m {
        MessageEvent::BlockMinted(n) => seq![0u8] + enc_u64(n),
        MessageEvent::FrameFinalized(f) => seq![1u8] + enc_frame(f),
    }
}

/// The identity of a message: the hash of its wire image.
pub open spec fn spec_message_event_digest(m: MessageEvent) -> Seq<u8> {
    sha256_of(enc_message_event(m))
}

impl MessageEvent {
    /// Append the wire image.
    pub fn write(&self, buf: &mut Vec<u8>)
        ensures
            final(buf)@ == old(buf)@ + enc_message_event(*self),
    {
        match self {
            MessageEvent::BlockMinted(n) => {
                write_u8(buf, 0);
                write_u64(buf, *n);
            },
            MessageEvent::FrameFinalized(f) => {
                write_u8(buf, 1);
                f.write(buf);
            },
        }
        proof {
            assert(buf@ =~= old(buf)@ + enc_message_event(*self));
        }
    }

    /// Bytes the wire image takes.
    pub fn encode_size(&self) -> (r: usize)
        ensures
            r == enc_message_event(*self).len(),
    {
        match self {
            MessageEvent::BlockMinted(_) => 9,
            MessageEvent::FrameFinalized(f) => 1 + f.encode_size(),
        }
    }

    /// Read a message: it succeeds exactly when the tag is known and its
    /// body fits; an unknown tag is rejected as `InvalidEnum`.
    pub fn read_cfg(buf: &Vec<u8>, pos: usize) -> (r: Result<(MessageEvent, usize), CodecError>)
        ensures
            match r {
                Ok((m, end)) => {
                    &&& pos < end <= buf@.len()
                    &&& buf@.subrange(pos as int, end as int) == enc_message_event(m)
                    &&& (buf@[pos as int] == 0u8 ==> end == pos + 9)
                    &&& (buf@[pos as int] == 1u8 ==> end == pos + 41)
                },
                Err(e) => match e {
                    CodecError::EndOfBuffer => pos + 1 > buf@.len() || (buf@[pos as int] == 0u8
                        && pos + 9 > buf@.len()) || (buf@[pos as int] == 1u8 && pos + 41
                        > buf@.len()),
                    CodecError::InvalidEnum(b) => pos + 1 <= buf@.len() && b == buf@[pos as int]
                        && b != 0u8 && b != 1u8,
                    _ => false,
                },
            },
    {
        let (tag, p1) = read_u8(buf, pos)?;
        match tag {
            0 => {
                let (n, p2) = match read_u64(buf, p1) {
                    Ok(v) => v,
                    Err(e) => {
                        return Err(e);
                    },
                };
                let m = MessageEvent::BlockMinted(n);
                proof {
                    assert(buf@.subrange(pos as int, p2 as int) =~= enc_message_event(m));
                }
                Ok((m, p2))
            },
            1 => {
                let (f, p2) = match Frame::read_cfg(buf, p1) {
                    Ok(v) => v,
                    Err(e) => {
                        return Err(e);
                    },
                };
                let m = MessageEvent::FrameFinalized(f);
                proof {
                    assert(buf@.subrange(pos as int, p2 as int) =~= enc_message_event(m));
                }
                Ok((m, p2))
            },
            _ => Err(CodecError::InvalidEnum(tag)),
        }
    }

    /// The hash of the wire image, which also serves as the broadcast
    /// commitment.
    pub fn digest(&self) -> (r: Digest)
        ensures
            r@ == spec_message_event_digest(*self),
    {
        let mut image: Vec<u8> = Vec::new();
        self.write(&mut image);
        sha256(&image)
    }

    /// The broadcast commitment: the same hash as the digest.
    pub fn commitment(&self) -> (r: Digest)
        ensures
            r@ == spec_message_event_digest(*self),
    {
        self.digest()
    }
}

} // verus!
