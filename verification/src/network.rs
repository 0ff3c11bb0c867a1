//! The wire side of the engine: framed peer payloads carrying votes or
//! proposals, and bounded per-peer gossip queues.
//!
//! Inbound bytes decode into a frame handed to the worker; outbound
//! gossip is encoded here and queued per peer with a bound — a full queue
//! drops the frame, reconnection is lossy by design.

use vstd::prelude::*;

use crate::codec::{
    decode_message, decode_opt_u64, decode_signature, decode_u64, encode_message, encode_opt_u64,
    encode_signature, encode_u64, lemma_dec_enc_message, lemma_dec_enc_opt_u64,
    lemma_dec_enc_signature, lemma_dec_enc_u64, lemma_subrange_slice, spec_dec_message,
    spec_dec_opt_u64, spec_dec_signature, spec_dec_u64, spec_enc_message, spec_enc_opt_u64,
    spec_enc_signature, spec_enc_u64,
};
use crate::types::{BlockProposal, ConsensusMessage};

verus! {

/// A framed peer payload.
pub enum Frame {
    Vote(ConsensusMessage),
    Proposal(BlockProposal),
}

/// Encoding of a proposal: height, view, block hash, valid round, and the
/// proposer signature.
pub open spec fn spec_enc_proposal(p: BlockProposal) -> Seq<u8> {
    spec_enc_u64(p.height) + spec_enc_u64(p.view) + spec_enc_u64(p.block_hash) + spec_enc_opt_u64(
        p.valid_round,
    ) + spec_enc_signature(p.signature)
}

/// Decode a proposal at `pos`.
pub open spec fn spec_dec_proposal(b: Seq<u8>, pos: int) -> Option<(BlockProposal, int)> {
    match spec_dec_u64(b, pos) {
        Some((height, p1)) => match spec_dec_u64(b, p1) {
            Some((view, p2)) => match spec_dec_u64(b, p2) {
                Some((block_hash, p3)) => match spec_dec_opt_u64(b, p3) {
                    Some((valid_round, p4)) => match spec_dec_signature(b, p4) {
                        Some((signature, end)) => Some(
                            (BlockProposal { height, view, block_hash, valid_round, signature }, end),
                        ),
                        None => None,
                    },
                    None => None,
                },
                None => None,
            },
            None => None,
        },
        None => None,
    }
}

/// Round trip for proposals.
pub proof fn lemma_dec_enc_proposal(b: Seq<u8>, pos: int, p: BlockProposal)
    requires
        0 <= pos,
        pos + spec_enc_proposal(p).len() <= b.len(),
        b.subrange(pos, pos + spec_enc_proposal(p).len() as int) == spec_enc_proposal(p),
    ensures
        spec_dec_proposal(b, pos) == Some((p, pos + spec_enc_proposal(p).len())),
{
    let n = spec_enc_proposal(p).len() as int;
    let n_v = spec_enc_opt_u64(p.valid_round).len() as int;
    let n_s = spec_enc_signature(p.signature).len() as int;
    let whole = b.subrange(pos, pos + n);
    lemma_subrange_slice(b, pos, n, 0, 8);
    assert(whole.subrange(0, 8) =~= spec_enc_u64(p.height));
    lemma_dec_enc_u64(b, pos, p.height);
    lemma_subrange_slice(b, pos, n, 8, 16);
    assert(whole.subrange(8, 16) =~= spec_enc_u64(p.view));
    lemma_dec_enc_u64(b, pos + 8, p.view);
    lemma_subrange_slice(b, pos, n, 16, 24);
    assert(whole.subrange(16, 24) =~= spec_enc_u64(p.block_hash));
    lemma_dec_enc_u64(b, pos + 16, p.block_hash);
    lemma_subrange_slice(b, pos, n, 24, 24 + n_v);
    assert(whole.subrange(24, 24 + n_v) =~= spec_enc_opt_u64(p.valid_round));
    lemma_dec_enc_opt_u64(b, pos + 24, p.valid_round);
    lemma_subrange_slice(b, pos, n, 24 + n_v, 24 + n_v + n_s);
    assert(whole.subrange(24 + n_v, 24 + n_v + n_s) =~= spec_enc_signature(p.signature));
    lemma_dec_enc_signature(b, pos + 24 + n_v, p.signature);
}

/// Append the encoding of `p`.
pub fn encode_proposal(out: &mut Vec<u8>, p: &BlockProposal)
    ensures
        final(out)@ == old(out)@ + spec_enc_proposal(*p),
{
    encode_u64(out, p.height);
    encode_u64(out, p.view);
    encode_u64(out, p.block_hash);
    encode_opt_u64(out, &p.valid_round);
    encode_signature(out, p.signature);
    proof {
        assert(out@ =~= old(out)@ + spec_enc_proposal(*p));
    }
}

/// Decode a proposal at `pos`.
pub fn decode_proposal(b: &Vec<u8>, pos: usize) -> (r: Option<(BlockProposal, usize)>)
    ensures
        match r {
            Some((p, end)) => spec_dec_proposal(b@, pos as int) == Some((p, end as int)),
            None => spec_dec_proposal(b@, pos as int) is None,
        },
{
    let (height, p1) = match decode_u64(b, pos) {
        Some(x) => x,
        None => {
            return None;
        }
    };
    let (view, p2) = match decode_u64(b, p1) {
        Some(x) => x,
        None => {
            return None;
        }
    };
    let (block_hash, p3) = match decode_u64(b, p2) {
        Some(x) => x,
        None => {
            return None;
        }
    };
    let (valid_round, p4) = match decode_opt_u64(b, p3) {
        Some(x) => x,
        None => {
            return None;
        }
    };
    let (signature, end) = match decode_signature(b, p4) {
        Some(x) => x,
        None => {
            return None;
        }
    };
    Some((BlockProposal { height, view, block_hash, valid_round, signature }, end))
}

/// Encoding of a frame: a tag byte, then the payload.
pub open spec fn spec_enc_frame(f: Frame) -> Seq<u8> {
    match f {
        Frame::Vote(m) => seq![0u8] + spec_enc_message(m),
        Frame::Proposal(p) => seq![1u8] + spec_enc_proposal(p),
    }
}

/// Decode a frame at the start of `b`.
pub open spec fn spec_dec_frame(b: Seq<u8>) -> Option<Frame> {
    if b.len() < 1 {
        None
    } else if b[0] == 0 {
        match spec_dec_message(b, 1) {
            Some((m, _)) => Some(Frame::Vote(m)),
            None => None,
        }
    } else if b[0] == 1 {
        match spec_dec_proposal(b, 1) {
            Some((p, _)) => Some(Frame::Proposal(p)),
            None => None,
        }
    } else {
        None
    }
}

/// Round trip for frames.
pub proof fn lemma_dec_enc_frame(f: Frame)
    ensures
        spec_dec_frame(spec_enc_frame(f)) == Some(f),
{
    let b = spec_enc_frame(f);
    match f {
        Frame::Vote(m) => {
            assert(b[0] == 0);
            assert(b.subrange(1, 1 + spec_enc_message(m).len() as int) =~= spec_enc_message(m));
            lemma_dec_enc_message(b, 1, m);
        }
        Frame::Proposal(p) => {
            assert(b[0] == 1);
            assert(b.subrange(1, 1 + spec_enc_proposal(p).len() as int) =~= spec_enc_proposal(p));
            lemma_dec_enc_proposal(b, 1, p);
        }
    }
}

/// Encode a frame into fresh bytes.
pub fn encode_frame(f: &Frame) -> (r: Vec<u8>)
    ensures
        r@ == spec_enc_frame(*f),
{
    let mut out: Vec<u8> = Vec::new();
    match f {
        Frame::Vote(m) => {
            out.push(0u8);
            encode_message(&mut out, *m);
            proof {
                assert(out@ =~= spec_enc_frame(*f));
            }
        }
        Frame::Proposal(p) => {
            out.push(1u8);
            encode_proposal(&mut out, p);
            proof {
                assert(out@ =~= spec_enc_frame(*f));
            }
        }
    }
    out
}

/// Decode an inbound peer payload.
pub fn decode_frame(b: &Vec<u8>) -> (r: Option<Frame>)
    ensures
        match r {
            Some(f) => spec_dec_frame(b@) matches Some(g) && frame_eq(f, g),
            None => spec_dec_frame(b@) is None,
        },
{
    if b.len() < 1 {
        return None;
    }
    if b[0] == 0 {
        match decode_message(b, 1) {
            Some((m, _end)) => Some(Frame::Vote(m)),
            None => None,
        }
    } else if b[0] == 1 {
        match decode_proposal(b, 1) {
            Some((p, _end)) => Some(Frame::Proposal(p)),
            None => None,
        }
    } else {
        None
    }
}

/// Structural equality of frames.
pub open spec fn frame_eq(a: Frame, b: Frame) -> bool {
    match (a, b) {
        (Frame::Vote(m1), Frame::Vote(m2)) => m1 == m2,
        (Frame::Proposal(p1), Frame::Proposal(p2)) => p1 == p2,
        _ => false,
    }
}

/// A bounded outbound queue for one peer: frames are kept in emission
/// order and a frame offered to a full queue is dropped.
pub struct PeerQueue {
    pub cap: usize,
    pub frames: Vec<Vec<u8>>,
}

impl PeerQueue {
    /// The queued payloads, oldest first.
    pub closed spec fn spec_frames(self) -> Seq<Seq<u8>> {
        crate::codec::spec_bytes_views(self.frames@)
    }

    /// An empty queue with capacity `cap`.
    pub fn new(cap: usize) -> (r: PeerQueue)
        ensures
            r.cap == cap,
            r.spec_frames().len() == 0,
    {
        PeerQueue { cap, frames: Vec::new() }
    }

    /// Offer a payload: kept in arrival order when there is room, dropped
    /// otherwise.
    pub fn offer(&mut self, payload: Vec<u8>) -> (accepted: bool)
        ensures
            final(self).cap == old(self).cap,
            accepted == (old(self).spec_frames().len() < old(self).cap),
            accepted ==> final(self).spec_frames() == old(self).spec_frames().push(payload@),
            !accepted ==> final(self).spec_frames() == old(self).spec_frames(),
    {
        if self.frames.len() < self.cap {
            let ghost gp = payload@;
            self.frames.push(payload);
            proof {
                assert(self.spec_frames() =~= old(self).spec_frames().push(gp));
            }
            true
        } else {
            false
        }
    }

    /// Take the oldest payload, if any.
    pub fn take_next(&mut self) -> (r: Option<Vec<u8>>)
        ensures
            final(self).cap == old(self).cap,
            match r {
                Some(payload) => old(self).spec_frames().len() > 0 && payload@ == old(
                    self,
                ).spec_frames()[0] && final(self).spec_frames() == old(self).spec_frames().skip(1),
                None => old(self).spec_frames().len() == 0 && final(self).spec_frames() == old(
                    self,
                ).spec_frames(),
            },
    {
        if self.frames.len() == 0 {
            return None;
        }
        let payload = self.frames.remove(0);
        proof {
            assert(self.spec_frames() =~= old(self).spec_frames().skip(1));
        }
        Some(payload)
    }

    /// Number of queued payloads.
    pub fn len(&self) -> (r: usize)
        ensures
            r == self.spec_frames().len(),
    {
        self.frames.len()
    }
}

} // verus!
