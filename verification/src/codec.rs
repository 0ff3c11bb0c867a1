//! The canonical binary wire format: length-prefixed, big-endian, bit-exact.
//!
//! Every form has a spec-level encoder and decoder; the executable functions
//! implement them exactly, and the round-trip lemmas show that decoding an
//! encoding yields the original value, in any surrounding buffer.

use vstd::prelude::*;

use crate::types::{
    CombinedProof, ConsensusMessage, Header, HeaderView, Seal, Signature, Step, VoteOn, VoteTarget,
};
use crate::validator::Validator;

verus! {

/// Slicing a window out of `b` equals slicing the corresponding window out
/// of the subrange starting at `pos`.
pub proof fn lemma_subrange_slice(b: Seq<u8>, pos: int, len: int, lo: int, hi: int)
    requires
        0 <= pos,
        0 <= lo <= hi <= len,
        pos + len <= b.len(),
    ensures
        b.subrange(pos + lo, pos + hi) == b.subrange(pos, pos + len).subrange(lo, hi),
{
    assert(b.subrange(pos + lo, pos + hi) =~= b.subrange(pos, pos + len).subrange(lo, hi));
}

/// Big-endian bytes of a 64-bit value.
pub open spec fn spec_enc_u64(x: u64) -> Seq<u8> {
    seq![
        ((x >> 56) & 0xff) as u8,
        ((x >> 48) & 0xff) as u8,
        ((x >> 40) & 0xff) as u8,
        ((x >> 32) & 0xff) as u8,
        ((x >> 24) & 0xff) as u8,
        ((x >> 16) & 0xff) as u8,
        ((x >> 8) & 0xff) as u8,
        (x & 0xff) as u8,
    ]
}

/// The 64-bit value recomposed from eight big-endian bytes of `b` at `pos`.
pub open spec fn spec_u64_from(b: Seq<u8>, pos: int) -> u64 {
    ((b[pos] as u64) << 56 | (b[pos + 1] as u64) << 48 | (b[pos + 2] as u64) << 40 | (b[pos
        + 3] as u64) << 32 | (b[pos + 4] as u64) << 24 | (b[pos + 5] as u64) << 16 | (b[pos
        + 6] as u64) << 8 | (b[pos + 7] as u64)) as u64
}

/// Decode a 64-bit value at `pos`: succeeds exactly when eight bytes remain.
pub open spec fn spec_dec_u64(b: Seq<u8>, pos: int) -> Option<(u64, int)> {
    if 0 <= pos && pos + 8 <= b.len() {
        Some((spec_u64_from(b, pos), pos + 8))
    } else {
        None
    }
}

/// Recomposing the big-endian bytes of `x` gives `x` back, byte for byte.
proof fn lemma_u64_bytes_recompose(x: u64, b0: u8, b1: u8, b2: u8, b3: u8, b4: u8, b5: u8, b6: u8, b7: u8)
    requires
        b0 == ((x >> 56) & 0xff) as u8,
        b1 == ((x >> 48) & 0xff) as u8,
        b2 == ((x >> 40) & 0xff) as u8,
        b3 == ((x >> 32) & 0xff) as u8,
        b4 == ((x >> 24) & 0xff) as u8,
        b5 == ((x >> 16) & 0xff) as u8,
        b6 == ((x >> 8) & 0xff) as u8,
        b7 == (x & 0xff) as u8,
    ensures
        ((b0 as u64) << 56 | (b1 as u64) << 48 | (b2 as u64) << 40 | (b3 as u64) << 32 | (
        b4 as u64) << 24 | (b5 as u64) << 16 | (b6 as u64) << 8 | (b7 as u64)) as u64 == x,
{
    assert((((((x >> 56) & 0xff) as u8) as u64) << 56 | ((((x >> 48) & 0xff) as u8) as u64) << 48
        | ((((x >> 40) & 0xff) as u8) as u64) << 40 | ((((x >> 32) & 0xff) as u8) as u64) << 32 | (
    (((x >> 24) & 0xff) as u8) as u64) << 24 | ((((x >> 16) & 0xff) as u8) as u64) << 16 | ((((x
        >> 8) & 0xff) as u8) as u64) << 8 | (((x & 0xff) as u8) as u64)) as u64 == x)
        by (bit_vector);
}

/// Round trip: decoding at the start of an embedded `spec_enc_u64(x)` yields
/// `x` and steps past it.
pub proof fn lemma_dec_enc_u64(b: Seq<u8>, pos: int, x: u64)
    requires
        0 <= pos,
        pos + 8 <= b.len(),
        b.subrange(pos, pos + 8) == spec_enc_u64(x),
    ensures
        spec_dec_u64(b, pos) == Some((x, pos + 8)),
{
    assert(b[pos] == spec_enc_u64(x)[0]);
    assert(b[pos + 1] == spec_enc_u64(x)[1]);
    assert(b[pos + 2] == spec_enc_u64(x)[2]);
    assert(b[pos + 3] == spec_enc_u64(x)[3]);
    assert(b[pos + 4] == spec_enc_u64(x)[4]);
    assert(b[pos + 5] == spec_enc_u64(x)[5]);
    assert(b[pos + 6] == spec_enc_u64(x)[6]);
    assert(b[pos + 7] == spec_enc_u64(x)[7]);
    lemma_u64_bytes_recompose(
        x,
        b[pos],
        b[pos + 1],
        b[pos + 2],
        b[pos + 3],
        b[pos + 4],
        b[pos + 5],
        b[pos + 6],
        b[pos + 7],
    );
}

/// Append the big-endian bytes of `x`.
pub fn encode_u64(out: &mut Vec<u8>, x: u64)
    ensures
        final(out)@ == old(out)@ + spec_enc_u64(x),
{
    out.push(((x >> 56) & 0xff) as u8);
    out.push(((x >> 48) & 0xff) as u8);
    out.push(((x >> 40) & 0xff) as u8);
    out.push(((x >> 32) & 0xff) as u8);
    out.push(((x >> 24) & 0xff) as u8);
    out.push(((x >> 16) & 0xff) as u8);
    out.push(((x >> 8) & 0xff) as u8);
    out.push((x & 0xff) as u8);
    proof {
        assert(out@ =~= old(out)@ + spec_enc_u64(x));
    }
}

/// Decode a 64-bit value at `pos`.
pub fn decode_u64(b: &Vec<u8>, pos: usize) -> (r: Option<(u64, usize)>)
    ensures
        match r {
            Some((x, end)) => spec_dec_u64(b@, pos as int) == Some((x, end as int)),
            None => spec_dec_u64(b@, pos as int) is None,
        },
{
    if pos >= b.len() || b.len() - pos < 8 {
        return None;
    }
    let x = (b[pos] as u64) << 56 | (b[pos + 1] as u64) << 48 | (b[pos + 2] as u64) << 40 | (b[pos
        + 3] as u64) << 32 | (b[pos + 4] as u64) << 24 | (b[pos + 5] as u64) << 16 | (b[pos
        + 6] as u64) << 8 | (b[pos + 7] as u64);
    Some((x, pos + 8))
}

/// One-byte tag of a step.
pub open spec fn spec_step_tag(s: Step) -> u8 {
    match s {
        Step::Propose => 0,
        Step::Prevote => 1,
        Step::Precommit => 2,
        Step::Commit => 3,
    }
}

/// Encoding of a step: its tag byte.
pub open spec fn spec_enc_step(s: Step) -> Seq<u8> {
    seq![spec_step_tag(s)]
}

/// Decode a step at `pos`: succeeds exactly on a valid tag byte.
pub open spec fn spec_dec_step(b: Seq<u8>, pos: int) -> Option<(Step, int)> {
    if 0 <= pos && pos + 1 <= b.len() {
        if b[pos] == 0 {
            Some((Step::Propose, pos + 1))
        } else if b[pos] == 1 {
            Some((Step::Prevote, pos + 1))
        } else if b[pos] == 2 {
            Some((Step::Precommit, pos + 1))
        } else if b[pos] == 3 {
            Some((Step::Commit, pos + 1))
        } else {
            None
        }
    } else {
        None
    }
}

/// Round trip for steps.
pub proof fn lemma_dec_enc_step(b: Seq<u8>, pos: int, s: Step)
    requires
        0 <= pos,
        pos + 1 <= b.len(),
        b.subrange(pos, pos + 1) == spec_enc_step(s),
    ensures
        spec_dec_step(b, pos) == Some((s, pos + 1)),
{
    assert(b[pos] == spec_enc_step(s)[0]);
}

/// Append the tag byte of `s`.
pub fn encode_step(out: &mut Vec<u8>, s: Step)
    ensures
        final(out)@ == old(out)@ + spec_enc_step(s),
{
    let tag: u8 = match s {
        Step::Propose => 0,
        Step::Prevote => 1,
        Step::Precommit => 2,
        Step::Commit => 3,
    };
    out.push(tag);
    proof {
        assert(out@ =~= old(out)@ + spec_enc_step(s));
    }
}

/// Decode a step at `pos`.
pub fn decode_step(b: &Vec<u8>, pos: usize) -> (r: Option<(Step, usize)>)
    ensures
        match r {
            Some((s, end)) => spec_dec_step(b@, pos as int) == Some((s, end as int)),
            None => spec_dec_step(b@, pos as int) is None,
        },
{
    if pos >= b.len() {
        return None;
    }
    match b[pos] {
        0 => Some((Step::Propose, pos + 1)),
        1 => Some((Step::Prevote, pos + 1)),
        2 => Some((Step::Precommit, pos + 1)),
        3 => Some((Step::Commit, pos + 1)),
        _ => None,
    }
}

/// Encoding of a vote target: tag 0 for Nil, tag 1 followed by the hash.
pub open spec fn spec_enc_target(t: VoteTarget) -> Seq<u8> {
    match t {
        VoteTarget::Nil => seq![0u8],
        VoteTarget::Block(h) => seq![1u8] + spec_enc_u64(h),
    }
}

/// Decode a vote target at `pos`.
pub open spec fn spec_dec_target(b: Seq<u8>, pos: int) -> Option<(VoteTarget, int)> {
    if 0 <= pos && pos + 1 <= b.len() {
        if b[pos] == 0 {
            Some((VoteTarget::Nil, pos + 1))
        } else if b[pos] == 1 {
            match spec_dec_u64(b, pos + 1) {
                Some((h, end)) => Some((VoteTarget::Block(h), end)),
                None => None,
            }
        } else {
            None
        }
    } else {
        None
    }
}

/// Round trip for vote targets.
pub proof fn lemma_dec_enc_target(b: Seq<u8>, pos: int, t: VoteTarget)
    requires
        0 <= pos,
        pos + spec_enc_target(t).len() <= b.len(),
        b.subrange(pos, pos + spec_enc_target(t).len() as int) == spec_enc_target(t),
    ensures
        spec_dec_target(b, pos) == Some((t, pos + spec_enc_target(t).len())),
{
    let e = spec_enc_target(t);
    assert(b[pos] == e[0]);
    match t {
        VoteTarget::Nil => {
        }
        VoteTarget::Block(h) => {
            assert(b.subrange(pos + 1, pos + 9) =~= e.subrange(1, 9));
            assert(e.subrange(1, 9) =~= spec_enc_u64(h));
            lemma_dec_enc_u64(b, pos + 1, h);
        }
    }
}

/// Append the encoding of `t`.
pub fn encode_target(out: &mut Vec<u8>, t: VoteTarget)
    ensures
        final(out)@ == old(out)@ + spec_enc_target(t),
{
    match t {
        VoteTarget::Nil => {
            out.push(0u8);
            proof {
                assert(out@ =~= old(out)@ + spec_enc_target(t));
            }
        }
        VoteTarget::Block(h) => {
            out.push(1u8);
            encode_u64(out, h);
            proof {
                assert(out@ =~= old(out)@ + spec_enc_target(t));
            }
        }
    }
}

/// Decode a vote target at `pos`.
pub fn decode_target(b: &Vec<u8>, pos: usize) -> (r: Option<(VoteTarget, usize)>)
    ensures
        match r {
            Some((t, end)) => spec_dec_target(b@, pos as int) == Some((t, end as int)),
            None => spec_dec_target(b@, pos as int) is None,
        },
{
    if pos >= b.len() {
        return None;
    }
    if b[pos] == 0 {
        Some((VoteTarget::Nil, pos + 1))
    } else if b[pos] == 1 {
        match decode_u64(b, pos + 1) {
            Some((h, end)) => Some((VoteTarget::Block(h), end)),
            None => None,
        }
    } else {
        None
    }
}

/// Encoding of a vote subject: height, view, step, target.
pub open spec fn spec_enc_vote_on(v: VoteOn) -> Seq<u8> {
    spec_enc_u64(v.height) + spec_enc_u64(v.view) + spec_enc_step(v.step) + spec_enc_target(
        v.target,
    )
}

/// Decode a vote subject at `pos`.
pub open spec fn spec_dec_vote_on(b: Seq<u8>, pos: int) -> Option<(VoteOn, int)> {
    match spec_dec_u64(b, pos) {
        Some((height, p1)) => match spec_dec_u64(b, p1) {
            Some((view, p2)) => match spec_dec_step(b, p2) {
                Some((step, p3)) => match spec_dec_target(b, p3) {
                    Some((target, end)) => Some((VoteOn { height, view, step, target }, end)),
                    None => None,
                },
                None => None,
            },
            None => None,
        },
        None => None,
    }
}

/// Round trip for vote subjects.
pub proof fn lemma_dec_enc_vote_on(b: Seq<u8>, pos: int, v: VoteOn)
    requires
        0 <= pos,
        pos + spec_enc_vote_on(v).len() <= b.len(),
        b.subrange(pos, pos + spec_enc_vote_on(v).len() as int) == spec_enc_vote_on(v),
    ensures
        spec_dec_vote_on(b, pos) == Some((v, pos + spec_enc_vote_on(v).len())),
{
    let e = spec_enc_vote_on(v);
    let n = e.len() as int;
    let n_t = spec_enc_target(v.target).len() as int;
    let whole = b.subrange(pos, pos + n);
    lemma_subrange_slice(b, pos, n, 0, 8);
    assert(whole.subrange(0, 8) =~= spec_enc_u64(v.height));
    lemma_dec_enc_u64(b, pos, v.height);
    lemma_subrange_slice(b, pos, n, 8, 16);
    assert(whole.subrange(8, 16) =~= spec_enc_u64(v.view));
    lemma_dec_enc_u64(b, pos + 8, v.view);
    lemma_subrange_slice(b, pos, n, 16, 17);
    assert(whole.subrange(16, 17) =~= spec_enc_step(v.step));
    lemma_dec_enc_step(b, pos + 16, v.step);
    lemma_subrange_slice(b, pos, n, 17, 17 + n_t);
    assert(whole.subrange(17, 17 + n_t) =~= spec_enc_target(v.target));
    lemma_dec_enc_target(b, pos + 17, v.target);
}

/// Append the encoding of `v`.
pub fn encode_vote_on(out: &mut Vec<u8>, v: VoteOn)
    ensures
        final(out)@ == old(out)@ + spec_enc_vote_on(v),
{
    encode_u64(out, v.height);
    encode_u64(out, v.view);
    encode_step(out, v.step);
    encode_target(out, v.target);
    proof {
        assert(out@ =~= old(out)@ + spec_enc_vote_on(v));
    }
}

/// Decode a vote subject at `pos`.
pub fn decode_vote_on(b: &Vec<u8>, pos: usize) -> (r: Option<(VoteOn, usize)>)
    ensures
        match r {
            Some((v, end)) => spec_dec_vote_on(b@, pos as int) == Some((v, end as int)),
            None => spec_dec_vote_on(b@, pos as int) is None,
        },
{
    let (height, p1) = match decode_u64(b, pos) {
        Some(x) => x,
        None => {
            return None;
        }
    };
    let (view, p2) = match decode_u64(b, p1) {
        Some(x) => x,
        None => {
            return None;
        }
    };
    let (step, p3) = match decode_step(b, p2) {
        Some(x) => x,
        None => {
            return None;
        }
    };
    let (target, end) = match decode_target(b, p3) {
        Some(x) => x,
        None => {
            return None;
        }
    };
    Some((VoteOn { height, view, step, target }, end))
}

/// Encoding of a signature: signer address, then the signed vote.
pub open spec fn spec_enc_signature(s: Signature) -> Seq<u8> {
    spec_enc_u64(s.signer) + spec_enc_vote_on(s.signed)
}

/// Decode a signature at `pos`.
pub open spec fn spec_dec_signature(b: Seq<u8>, pos: int) -> Option<(Signature, int)> {
    match spec_dec_u64(b, pos) {
        Some((signer, p1)) => match spec_dec_vote_on(b, p1) {
            Some((signed, end)) => Some((Signature { signer, signed }, end)),
            None => None,
        },
        None => None,
    }
}

/// Round trip for signatures.
pub proof fn lemma_dec_enc_signature(b: Seq<u8>, pos: int, s: Signature)
    requires
        0 <= pos,
        pos + spec_enc_signature(s).len() <= b.len(),
        b.subrange(pos, pos + spec_enc_signature(s).len() as int) == spec_enc_signature(s),
    ensures
        spec_dec_signature(b, pos) == Some((s, pos + spec_enc_signature(s).len())),
{
    let n = spec_enc_signature(s).len() as int;
    let n_v = spec_enc_vote_on(s.signed).len() as int;
    let whole = b.subrange(pos, pos + n);
    lemma_subrange_slice(b, pos, n, 0, 8);
    assert(whole.subrange(0, 8) =~= spec_enc_u64(s.signer));
    lemma_dec_enc_u64(b, pos, s.signer);
    lemma_subrange_slice(b, pos, n, 8, 8 + n_v);
    assert(whole.subrange(8, 8 + n_v) =~= spec_enc_vote_on(s.signed));
    lemma_dec_enc_vote_on(b, pos + 8, s.signed);
}

/// Append the encoding of `s`.
pub fn encode_signature(out: &mut Vec<u8>, s: Signature)
    ensures
        final(out)@ == old(out)@ + spec_enc_signature(s),
{
    encode_u64(out, s.signer);
    encode_vote_on(out, s.signed);
    proof {
        assert(out@ =~= old(out)@ + spec_enc_signature(s));
    }
}

/// Decode a signature at `pos`.
pub fn decode_signature(b: &Vec<u8>, pos: usize) -> (r: Option<(Signature, usize)>)
    ensures
        match r {
            Some((s, end)) => spec_dec_signature(b@, pos as int) == Some((s, end as int)),
            None => spec_dec_signature(b@, pos as int) is None,
        },
{
    let (signer, p1) = match decode_u64(b, pos) {
        Some(x) => x,
        None => {
            return None;
        }
    };
    let (signed, end) = match decode_vote_on(b, p1) {
        Some(x) => x,
        None => {
            return None;
        }
    };
    Some((Signature { signer, signed }, end))
}

/// Encoding of a signed consensus message: the vote, then the signature.
pub open spec fn spec_enc_message(m: ConsensusMessage) -> Seq<u8> {
    spec_enc_vote_on(m.on) + spec_enc_signature(m.signature)
}

/// Decode a consensus message at `pos`.
pub open spec fn spec_dec_message(b: Seq<u8>, pos: int) -> Option<(ConsensusMessage, int)> {
    match spec_dec_vote_on(b, pos) {
        Some((on, p1)) => match spec_dec_signature(b, p1) {
            Some((signature, end)) => Some((ConsensusMessage { on, signature }, end)),
            None => None,
        },
        None => None,
    }
}

/// Round trip for consensus messages.
pub proof fn lemma_dec_enc_message(b: Seq<u8>, pos: int, m: ConsensusMessage)
    requires
        0 <= pos,
        pos + spec_enc_message(m).len() <= b.len(),
        b.subrange(pos, pos + spec_enc_message(m).len() as int) == spec_enc_message(m),
    ensures
        spec_dec_message(b, pos) == Some((m, pos + spec_enc_message(m).len())),
{
    let n = spec_enc_message(m).len() as int;
    let n_v = spec_enc_vote_on(m.on).len() as int;
    let n_s = spec_enc_signature(m.signature).len() as int;
    let whole = b.subrange(pos, pos + n);
    lemma_subrange_slice(b, pos, n, 0, n_v);
    assert(whole.subrange(0, n_v) =~= spec_enc_vote_on(m.on));
    lemma_dec_enc_vote_on(b, pos, m.on);
    lemma_subrange_slice(b, pos, n, n_v, n_v + n_s);
    assert(whole.subrange(n_v, n_v + n_s) =~= spec_enc_signature(m.signature));
    lemma_dec_enc_signature(b, pos + n_v, m.signature);
}

/// Append the encoding of `m`.
pub fn encode_message(out: &mut Vec<u8>, m: ConsensusMessage)
    ensures
        final(out)@ == old(out)@ + spec_enc_message(m),
{
    encode_vote_on(out, m.on);
    encode_signature(out, m.signature);
    proof {
        assert(out@ =~= old(out)@ + spec_enc_message(m));
    }
}

/// Decode a consensus message at `pos`.
pub fn decode_message(b: &Vec<u8>, pos: usize) -> (r: Option<(ConsensusMessage, usize)>)
    ensures
        match r {
            Some((m, end)) => spec_dec_message(b@, pos as int) == Some((m, end as int)),
            None => spec_dec_message(b@, pos as int) is None,
        },
{
    let (on, p1) = match decode_vote_on(b, pos) {
        Some(x) => x,
        None => {
            return None;
        }
    };
    let (signature, end) = match decode_signature(b, p1) {
        Some(x) => x,
        None => {
            return None;
        }
    };
    Some((ConsensusMessage { on, signature }, end))
}

/// Encoding of a byte string: its length, then its bytes.
pub open spec fn spec_enc_bytes(d: Seq<u8>) -> Seq<u8> {
    spec_enc_u64(d.len() as u64) + d
}

/// Decode a byte string at `pos`: a length, then that many bytes.
pub open spec fn spec_dec_bytes(b: Seq<u8>, pos: int) -> Option<(Seq<u8>, int)> {
    match spec_dec_u64(b, pos) {
        Some((len, p1)) => {
            if p1 + len <= b.len() {
                Some((b.subrange(p1, p1 + len), p1 + len))
            } else {
                None
            }
        }
        None => None,
    }
}

/// Round trip for byte strings.
pub proof fn lemma_dec_enc_bytes(b: Seq<u8>, pos: int, d: Seq<u8>)
    requires
        0 <= pos,
        d.len() <= u64::MAX,
        pos + spec_enc_bytes(d).len() <= b.len(),
        b.subrange(pos, pos + spec_enc_bytes(d).len() as int) == spec_enc_bytes(d),
    ensures
        spec_dec_bytes(b, pos) == Some((d, pos + 8 + d.len())),
{
    let n = spec_enc_bytes(d).len() as int;
    let whole = b.subrange(pos, pos + n);
    lemma_subrange_slice(b, pos, n, 0, 8);
    assert(whole.subrange(0, 8) =~= spec_enc_u64(d.len() as u64));
    lemma_dec_enc_u64(b, pos, d.len() as u64);
    lemma_subrange_slice(b, pos, n, 8, n);
    assert(whole.subrange(8, n) =~= d);
}

/// Append the encoding of `data`.
pub fn encode_bytes(out: &mut Vec<u8>, data: &Vec<u8>)
    ensures
        final(out)@ == old(out)@ + spec_enc_bytes(data@),
{
    encode_u64(out, data.len() as u64);
    let mut i: usize = 0;
    let n = data.len();
    while i < n
        invariant
            n == data@.len(),
            0 <= i <= n,
            out@ == old(out)@ + spec_enc_u64(data@.len() as u64) + data@.take(i as int),
        decreases n - i,
    {
        out.push(data[i]);
        proof {
            assert(out@ =~= old(out)@ + spec_enc_u64(data@.len() as u64) + data@.take(i + 1));
        }
        i += 1;
    }
    proof {
        assert(data@.take(n as int) =~= data@);
        assert(out@ =~= old(out)@ + spec_enc_bytes(data@));
    }
}

/// Decode a byte string at `pos`.
pub fn decode_bytes(b: &Vec<u8>, pos: usize) -> (r: Option<(Vec<u8>, usize)>)
    ensures
        match r {
            Some((d, end)) => spec_dec_bytes(b@, pos as int) == Some((d@, end as int)),
            None => spec_dec_bytes(b@, pos as int) is None,
        },
{
    let (len, p1) = match decode_u64(b, pos) {
        Some(x) => x,
        None => {
            return None;
        }
    };
    if len > (b.len() - p1) as u64 {
        return None;
    }
    let l = len as usize;
    let end = p1 + l;
    let mut d: Vec<u8> = Vec::new();
    let mut j: usize = p1;
    while j < end
        invariant
            end <= b@.len(),
            p1 <= j <= end,
            d@ == b@.subrange(p1 as int, j as int),
        decreases end - j,
    {
        d.push(b[j]);
        proof {
            assert(d@ =~= b@.subrange(p1 as int, j + 1));
        }
        j += 1;
    }
    Some((d, end))
}

/// Encoding of a signature sequence, in order, without a count.
pub open spec fn spec_enc_sig_seq(s: Seq<Signature>) -> Seq<u8>
    decreases s.len(),
{
    if s.len() == 0 {
        Seq::empty()
    } else {
        spec_enc_sig_seq(s.drop_last()) + spec_enc_signature(s.last())
    }
}

/// The encoding of a nonempty signature sequence starts with its first
/// element's encoding.
proof fn lemma_enc_sig_seq_first(s: Seq<Signature>)
    requires
        s.len() > 0,
    ensures
        spec_enc_sig_seq(s) == spec_enc_signature(s[0]) + spec_enc_sig_seq(s.skip(1)),
    decreases s.len(),
{
    if s.len() == 1 {
        assert(s.drop_last() =~= Seq::<Signature>::empty());
        assert(s.skip(1) =~= Seq::<Signature>::empty());
        assert(spec_enc_sig_seq(s) =~= spec_enc_signature(s[0]) + spec_enc_sig_seq(s.skip(1)));
    } else {
        lemma_enc_sig_seq_first(s.drop_last());
        assert(s.skip(1).drop_last() =~= s.drop_last().skip(1));
        assert(s.skip(1).last() == s.last());
        assert(s.drop_last()[0] == s[0]);
        assert(spec_enc_sig_seq(s) == spec_enc_sig_seq(s.drop_last()) + spec_enc_signature(
            s.last(),
        ));
        assert(spec_enc_sig_seq(s.skip(1)) == spec_enc_sig_seq(s.drop_last().skip(1))
            + spec_enc_signature(s.last()));
        assert(spec_enc_sig_seq(s) =~= spec_enc_signature(s[0]) + spec_enc_sig_seq(s.skip(1)));
    }
}

/// Decode `count` consecutive signatures at `pos`.
pub open spec fn spec_dec_sig_seq(b: Seq<u8>, pos: int, count: nat) -> Option<(Seq<Signature>, int)>
    decreases count,
{
    if count == 0 {
        Some((Seq::empty(), pos))
    } else {
        match spec_dec_signature(b, pos) {
            Some((sig, p1)) => match spec_dec_sig_seq(b, p1, (count - 1) as nat) {
                Some((rest, end)) => Some((seq![sig] + rest, end)),
                None => None,
            },
            None => None,
        }
    }
}

/// Round trip for signature sequences.
pub proof fn lemma_dec_enc_sig_seq(b: Seq<u8>, pos: int, s: Seq<Signature>)
    requires
        0 <= pos,
        pos + spec_enc_sig_seq(s).len() <= b.len(),
        b.subrange(pos, pos + spec_enc_sig_seq(s).len() as int) == spec_enc_sig_seq(s),
    ensures
        spec_dec_sig_seq(b, pos, s.len()) == Some((s, pos + spec_enc_sig_seq(s).len())),
    decreases s.len(),
{
    if s.len() > 0 {
        lemma_enc_sig_seq_first(s);
        let n = spec_enc_sig_seq(s).len() as int;
        let n_f = spec_enc_signature(s[0]).len() as int;
        let whole = b.subrange(pos, pos + n);
        lemma_subrange_slice(b, pos, n, 0, n_f);
        assert(whole.subrange(0, n_f) =~= spec_enc_signature(s[0]));
        lemma_dec_enc_signature(b, pos, s[0]);
        lemma_subrange_slice(b, pos, n, n_f, n);
        assert(whole.subrange(n_f, n) =~= spec_enc_sig_seq(s.skip(1)));
        lemma_dec_enc_sig_seq(b, pos + n_f, s.skip(1));
        assert(seq![s[0]] + s.skip(1) =~= s);
    }
}

/// Append the encodings of all of `sigs`, in order.
pub fn encode_sig_seq(out: &mut Vec<u8>, sigs: &Vec<Signature>)
    ensures
        final(out)@ == old(out)@ + spec_enc_sig_seq(sigs@),
{
    let n = sigs.len();
    let mut i: usize = 0;
    while i < n
        invariant
            n == sigs@.len(),
            0 <= i <= n,
            out@ == old(out)@ + spec_enc_sig_seq(sigs@.take(i as int)),
        decreases n - i,
    {
        proof {
            assert(sigs@.take(i + 1).drop_last() =~= sigs@.take(i as int));
            assert(sigs@.take(i + 1).last() == sigs@[i as int]);
        }
        encode_signature(out, sigs[i]);
        i += 1;
    }
    proof {
        assert(sigs@.take(n as int) =~= sigs@);
    }
}

/// Decode `count` consecutive signatures at `pos`.
pub fn decode_sig_seq(b: &Vec<u8>, pos: usize, count: u64) -> (r: Option<(Vec<Signature>, usize)>)
    ensures
        match r {
            Some((sigs, end)) => spec_dec_sig_seq(b@, pos as int, count as nat) == Some(
                (sigs@, end as int),
            ),
            None => spec_dec_sig_seq(b@, pos as int, count as nat) is None,
        },
{
    let mut sigs: Vec<Signature> = Vec::new();
    let mut cur: usize = pos;
    let mut i: u64 = 0;
    while i < count
        invariant
            0 <= i <= count,
            spec_dec_sig_seq(b@, pos as int, count as nat) == (match spec_dec_sig_seq(
                b@,
                cur as int,
                (count - i) as nat,
            ) {
                Some((rest, end)) => Some::<(Seq<Signature>, int)>((sigs@ + rest, end)),
                None => None::<(Seq<Signature>, int)>,
            }),
        decreases count - i,
    {
        match decode_signature(b, cur) {
            Some((sig, next)) => {
                sigs.push(sig);
                proof {
                    assert(sigs@ == sigs@.drop_last().push(sig));
                }
                let ghost prev = sigs@.drop_last();
                cur = next;
                i += 1;
                proof {
                    assert forall|rest: Seq<Signature>| true implies prev + (seq![sig] + rest) == (
                    prev.push(sig) + rest) by {
                        assert(prev + (seq![sig] + rest) =~= prev.push(sig) + rest);
                    }
                    assert(sigs@ == prev.push(sig));
                }
            }
            None => {
                return None;
            }
        }
    }
    proof {
        assert(sigs@ + Seq::<Signature>::empty() =~= sigs@);
    }
    Some((sigs, cur))
}

/// Encoding of a seal: the view, the proposer signature, then the counted
/// precommit signatures.
pub open spec fn spec_enc_seal(view: u64, proposer_sig: Signature, precommits: Seq<Signature>) -> Seq<
    u8,
> {
    spec_enc_u64(view) + spec_enc_signature(proposer_sig) + spec_enc_u64(precommits.len() as u64)
        + spec_enc_sig_seq(precommits)
}

/// Decode a seal at `pos`.
pub open spec fn spec_dec_seal(b: Seq<u8>, pos: int) -> Option<((u64, Signature, Seq<Signature>), int)> {
    match spec_dec_u64(b, pos) {
        Some((view, p1)) => match spec_dec_signature(b, p1) {
            Some((proposer_sig, p2)) => match spec_dec_u64(b, p2) {
                Some((count, p3)) => match spec_dec_sig_seq(b, p3, count as nat) {
                    Some((precommits, end)) => Some(((view, proposer_sig, precommits), end)),
                    None => None,
                },
                None => None,
            },
            None => None,
        },
        None => None,
    }
}

/// Round trip for seals.
pub proof fn lemma_dec_enc_seal(b: Seq<u8>, pos: int, view: u64, proposer_sig: Signature, precommits: Seq<Signature>)
    requires
        0 <= pos,
        precommits.len() <= u64::MAX,
        pos + spec_enc_seal(view, proposer_sig, precommits).len() <= b.len(),
        b.subrange(pos, pos + spec_enc_seal(view, proposer_sig, precommits).len() as int)
            == spec_enc_seal(view, proposer_sig, precommits),
    ensures
        spec_dec_seal(b, pos) == Some(
            ((view, proposer_sig, precommits), pos + spec_enc_seal(
                view,
                proposer_sig,
                precommits,
            ).len()),
        ),
{
    let n = spec_enc_seal(view, proposer_sig, precommits).len() as int;
    let n_p = spec_enc_signature(proposer_sig).len() as int;
    let n_s = spec_enc_sig_seq(precommits).len() as int;
    let whole = b.subrange(pos, pos + n);
    lemma_subrange_slice(b, pos, n, 0, 8);
    assert(whole.subrange(0, 8) =~= spec_enc_u64(view));
    lemma_dec_enc_u64(b, pos, view);
    lemma_subrange_slice(b, pos, n, 8, 8 + n_p);
    assert(whole.subrange(8, 8 + n_p) =~= spec_enc_signature(proposer_sig));
    lemma_dec_enc_signature(b, pos + 8, proposer_sig);
    lemma_subrange_slice(b, pos, n, 8 + n_p, 16 + n_p);
    assert(whole.subrange(8 + n_p, 16 + n_p) =~= spec_enc_u64(precommits.len() as u64));
    lemma_dec_enc_u64(b, pos + 8 + n_p, precommits.len() as u64);
    lemma_subrange_slice(b, pos, n, 16 + n_p, 16 + n_p + n_s);
    assert(whole.subrange(16 + n_p, 16 + n_p + n_s) =~= spec_enc_sig_seq(precommits));
    lemma_dec_enc_sig_seq(b, pos + 16 + n_p, precommits);
}

/// Law: encoding a seal and decoding the result yields the same fields —
/// the view, the proposer signature, and the precommit signatures — with
/// the whole encoding consumed.
pub proof fn lemma_seal_round_trip(view: u64, proposer_sig: Signature, precommits: Seq<Signature>)
    requires
        precommits.len() <= u64::MAX,
    ensures
        spec_dec_seal(spec_enc_seal(view, proposer_sig, precommits), 0) == Some(
            ((view, proposer_sig, precommits), spec_enc_seal(view, proposer_sig, precommits).len() as int),
        ),
{
    let e = spec_enc_seal(view, proposer_sig, precommits);
    assert(e.subrange(0, e.len() as int) =~= e);
    lemma_dec_enc_seal(e, 0, view, proposer_sig, precommits);
}

/// Encode a seal into fresh bytes.
pub fn encode_seal(seal: &Seal) -> (r: Vec<u8>)
    ensures
        r@ == spec_enc_seal(seal.view, seal.proposer_sig, seal.precommits@),
{
    let mut out: Vec<u8> = Vec::new();
    encode_u64(&mut out, seal.view);
    encode_signature(&mut out, seal.proposer_sig);
    encode_u64(&mut out, seal.precommits.len() as u64);
    encode_sig_seq(&mut out, &seal.precommits);
    proof {
        assert(out@ =~= spec_enc_seal(seal.view, seal.proposer_sig, seal.precommits@));
    }
    out
}

/// Decode a seal at `pos`.
pub fn decode_seal(b: &Vec<u8>, pos: usize) -> (r: Option<(Seal, usize)>)
    ensures
        match r {
            Some((seal, end)) => spec_dec_seal(b@, pos as int) == Some(
                ((seal.view, seal.proposer_sig, seal.precommits@), end as int),
            ),
            None => spec_dec_seal(b@, pos as int) is None,
        },
{
    let (view, p1) = match decode_u64(b, pos) {
        Some(x) => x,
        None => {
            return None;
        }
    };
    let (proposer_sig, p2) = match decode_signature(b, p1) {
        Some(x) => x,
        None => {
            return None;
        }
    };
    let (count, p3) = match decode_u64(b, p2) {
        Some(x) => x,
        None => {
            return None;
        }
    };
    let (precommits, end) = match decode_sig_seq(b, p3, count) {
        Some(x) => x,
        None => {
            return None;
        }
    };
    Some((Seal { view, proposer_sig, precommits }, end))
}

/// Encoding of a combined epoch proof: signal height, validator-set proof,
/// finality proof.
pub open spec fn spec_enc_combined(signal_number: u64, set_proof: Seq<u8>, finality_proof: Seq<u8>) -> Seq<
    u8,
> {
    spec_enc_u64(signal_number) + spec_enc_bytes(set_proof) + spec_enc_bytes(finality_proof)
}

/// Decode a combined epoch proof at `pos`.
pub open spec fn spec_dec_combined(b: Seq<u8>, pos: int) -> Option<((u64, Seq<u8>, Seq<u8>), int)> {
    match spec_dec_u64(b, pos) {
        Some((signal_number, p1)) => match spec_dec_bytes(b, p1) {
            Some((set_proof, p2)) => match spec_dec_bytes(b, p2) {
                Some((finality_proof, end)) => Some(
                    ((signal_number, set_proof, finality_proof), end),
                ),
                None => None,
            },
            None => None,
        },
        None => None,
    }
}

/// Round trip for combined epoch proofs.
pub proof fn lemma_dec_enc_combined(b: Seq<u8>, pos: int, signal_number: u64, set_proof: Seq<u8>, finality_proof: Seq<u8>)
    requires
        0 <= pos,
        set_proof.len() <= u64::MAX,
        finality_proof.len() <= u64::MAX,
        pos + spec_enc_combined(signal_number, set_proof, finality_proof).len() <= b.len(),
        b.subrange(
            pos,
            pos + spec_enc_combined(signal_number, set_proof, finality_proof).len() as int,
        ) == spec_enc_combined(signal_number, set_proof, finality_proof),
    ensures
        spec_dec_combined(b, pos) == Some(
            ((signal_number, set_proof, finality_proof), pos + spec_enc_combined(
                signal_number,
                set_proof,
                finality_proof,
            ).len()),
        ),
{
    let n = spec_enc_combined(signal_number, set_proof, finality_proof).len() as int;
    let n_s = spec_enc_bytes(set_proof).len() as int;
    let n_f = spec_enc_bytes(finality_proof).len() as int;
    let whole = b.subrange(pos, pos + n);
    lemma_subrange_slice(b, pos, n, 0, 8);
    assert(whole.subrange(0, 8) =~= spec_enc_u64(signal_number));
    lemma_dec_enc_u64(b, pos, signal_number);
    lemma_subrange_slice(b, pos, n, 8, 8 + n_s);
    assert(whole.subrange(8, 8 + n_s) =~= spec_enc_bytes(set_proof));
    lemma_dec_enc_bytes(b, pos + 8, set_proof);
    lemma_subrange_slice(b, pos, n, 8 + n_s, 8 + n_s + n_f);
    assert(whole.subrange(8 + n_s, 8 + n_s + n_f) =~= spec_enc_bytes(finality_proof));
    lemma_dec_enc_bytes(b, pos + 8 + n_s, finality_proof);
}

/// Law: combining an epoch-transition proof and splitting the result
/// yields the same three parts, with the whole encoding consumed.
pub proof fn lemma_combined_round_trip(signal_number: u64, set_proof: Seq<u8>, finality_proof: Seq<u8>)
    requires
        set_proof.len() <= u64::MAX,
        finality_proof.len() <= u64::MAX,
    ensures
        spec_dec_combined(spec_enc_combined(signal_number, set_proof, finality_proof), 0) == Some(
            (
                (signal_number, set_proof, finality_proof),
                spec_enc_combined(signal_number, set_proof, finality_proof).len() as int,
            ),
        ),
{
    let e = spec_enc_combined(signal_number, set_proof, finality_proof);
    assert(e.subrange(0, e.len() as int) =~= e);
    lemma_dec_enc_combined(e, 0, signal_number, set_proof, finality_proof);
}

/// Combine an epoch-transition proof into one canonical byte string.
pub fn combine_proofs(signal_number: u64, set_proof: &Vec<u8>, finality_proof: &Vec<u8>) -> (r: Vec<
    u8,
>)
    ensures
        r@ == spec_enc_combined(signal_number, set_proof@, finality_proof@),
{
    let mut out: Vec<u8> = Vec::new();
    encode_u64(&mut out, signal_number);
    encode_bytes(&mut out, set_proof);
    encode_bytes(&mut out, finality_proof);
    proof {
        assert(out@ =~= spec_enc_combined(signal_number, set_proof@, finality_proof@));
    }
    out
}

/// Split a combined epoch-transition proof back into its three parts.
pub fn destructure_proofs(b: &Vec<u8>) -> (r: Option<CombinedProof>)
    ensures
        match r {
            Some(proof_parts) => spec_dec_combined(b@, 0) matches Some((parts, _)) && parts == (
                proof_parts.signal_number,
                proof_parts.set_proof@,
                proof_parts.finality_proof@,
            ),
            None => spec_dec_combined(b@, 0) is None,
        },
{
    let (signal_number, p1) = match decode_u64(b, 0) {
        Some(x) => x,
        None => {
            return None;
        }
    };
    let (set_proof, p2) = match decode_bytes(b, p1) {
        Some(x) => x,
        None => {
            return None;
        }
    };
    let (finality_proof, _end) = match decode_bytes(b, p2) {
        Some(x) => x,
        None => {
            return None;
        }
    };
    Some(CombinedProof { signal_number, set_proof, finality_proof })
}

/// Encoding of an optional 64-bit value: tag 0 for absent, tag 1 and the
/// value for present.
pub open spec fn spec_enc_opt_u64(o: Option<u64>) -> Seq<u8> {
    match o {
        None => seq![0u8],
        Some(x) => seq![1u8] + spec_enc_u64(x),
    }
}

/// Decode an optional 64-bit value at `pos`.
pub open spec fn spec_dec_opt_u64(b: Seq<u8>, pos: int) -> Option<(Option<u64>, int)> {
    if 0 <= pos && pos + 1 <= b.len() {
        if b[pos] == 0 {
            Some((None, pos + 1))
        } else if b[pos] == 1 {
            match spec_dec_u64(b, pos + 1) {
                Some((x, end)) => Some((Some(x), end)),
                None => None,
            }
        } else {
            None
        }
    } else {
        None
    }
}

/// Round trip for optional 64-bit values.
pub proof fn lemma_dec_enc_opt_u64(b: Seq<u8>, pos: int, o: Option<u64>)
    requires
        0 <= pos,
        pos + spec_enc_opt_u64(o).len() <= b.len(),
        b.subrange(pos, pos + spec_enc_opt_u64(o).len() as int) == spec_enc_opt_u64(o),
    ensures
        spec_dec_opt_u64(b, pos) == Some((o, pos + spec_enc_opt_u64(o).len())),
{
    let e = spec_enc_opt_u64(o);
    assert(b[pos] == e[0]);
    match o {
        None => {
        }
        Some(x) => {
            let n = e.len() as int;
            let whole = b.subrange(pos, pos + n);
            lemma_subrange_slice(b, pos, n, 1, 9);
            assert(whole.subrange(1, 9) =~= spec_enc_u64(x));
            lemma_dec_enc_u64(b, pos + 1, x);
        }
    }
}

/// Append the encoding of `o`.
pub fn encode_opt_u64(out: &mut Vec<u8>, o: &Option<u64>)
    ensures
        final(out)@ == old(out)@ + spec_enc_opt_u64(*o),
{
    match o {
        None => {
            out.push(0u8);
            proof {
                assert(out@ =~= old(out)@ + spec_enc_opt_u64(*o));
            }
        }
        Some(x) => {
            out.push(1u8);
            encode_u64(out, *x);
            proof {
                assert(out@ =~= old(out)@ + spec_enc_opt_u64(*o));
            }
        }
    }
}

/// Decode an optional 64-bit value at `pos`.
pub fn decode_opt_u64(b: &Vec<u8>, pos: usize) -> (r: Option<(Option<u64>, usize)>)
    ensures
        match r {
            Some((o, end)) => spec_dec_opt_u64(b@, pos as int) == Some((o, end as int)),
            None => spec_dec_opt_u64(b@, pos as int) is None,
        },
{
    if pos >= b.len() {
        return None;
    }
    if b[pos] == 0 {
        Some((None, pos + 1))
    } else if b[pos] == 1 {
        match decode_u64(b, pos + 1) {
            Some((x, end)) => Some((Some(x), end)),
            None => None,
        }
    } else {
        None
    }
}

/// Encoding of an optional byte string.
pub open spec fn spec_enc_opt_bytes(o: Option<Seq<u8>>) -> Seq<u8> {
    match o {
        None => seq![0u8],
        Some(d) => seq![1u8] + spec_enc_bytes(d),
    }
}

/// Decode an optional byte string at `pos`.
pub open spec fn spec_dec_opt_bytes(b: Seq<u8>, pos: int) -> Option<(Option<Seq<u8>>, int)> {
    if 0 <= pos && pos + 1 <= b.len() {
        if b[pos] == 0 {
            Some((None, pos + 1))
        } else if b[pos] == 1 {
            match spec_dec_bytes(b, pos + 1) {
                Some((d, end)) => Some((Some(d), end)),
                None => None,
            }
        } else {
            None
        }
    } else {
        None
    }
}

/// Round trip for optional byte strings.
pub proof fn lemma_dec_enc_opt_bytes(b: Seq<u8>, pos: int, o: Option<Seq<u8>>)
    requires
        0 <= pos,
        o matches Some(d) ==> d.len() <= u64::MAX,
        pos + spec_enc_opt_bytes(o).len() <= b.len(),
        b.subrange(pos, pos + spec_enc_opt_bytes(o).len() as int) == spec_enc_opt_bytes(o),
    ensures
        spec_dec_opt_bytes(b, pos) == Some((o, pos + spec_enc_opt_bytes(o).len())),
{
    let e = spec_enc_opt_bytes(o);
    assert(b[pos] == e[0]);
    match o {
        None => {
        }
        Some(d) => {
            let n = e.len() as int;
            let whole = b.subrange(pos, pos + n);
            lemma_subrange_slice(b, pos, n, 1, n);
            assert(whole.subrange(1, n) =~= spec_enc_bytes(d));
            lemma_dec_enc_bytes(b, pos + 1, d);
        }
    }
}

/// Append the encoding of `o`.
pub fn encode_opt_bytes(out: &mut Vec<u8>, o: &Option<Vec<u8>>)
    ensures
        final(out)@ == old(out)@ + spec_enc_opt_bytes(match *o {
            Some(ref d) => Some(d@),
            None => None,
        }),
{
    match o {
        None => {
            out.push(0u8);
            proof {
                assert(out@ =~= old(out)@ + spec_enc_opt_bytes(None));
            }
        }
        Some(d) => {
            out.push(1u8);
            encode_bytes(out, d);
            proof {
                assert(out@ =~= old(out)@ + spec_enc_opt_bytes(Some(d@)));
            }
        }
    }
}

/// Decode an optional byte string at `pos`.
pub fn decode_opt_bytes(b: &Vec<u8>, pos: usize) -> (r: Option<(Option<Vec<u8>>, usize)>)
    ensures
        match r {
            Some((o, end)) => spec_dec_opt_bytes(b@, pos as int) == Some(
                (
                    match o {
                        Some(ref d) => Some(d@),
                        None => None,
                    },
                    end as int,
                ),
            ),
            None => spec_dec_opt_bytes(b@, pos as int) is None,
        },
{
    if pos >= b.len() {
        return None;
    }
    if b[pos] == 0 {
        Some((None, pos + 1))
    } else if b[pos] == 1 {
        match decode_bytes(b, pos + 1) {
            Some((d, end)) => Some((Some(d), end)),
            None => None,
        }
    } else {
        None
    }
}

/// The element views of a sequence of byte vectors.
pub open spec fn spec_bytes_views(s: Seq<Vec<u8>>) -> Seq<Seq<u8>> {
    Seq::new(s.len(), |i: int| s[i]@)
}

/// Encoding of a sequence of byte strings, in order, without a count.
pub open spec fn spec_enc_bytes_seq(s: Seq<Seq<u8>>) -> Seq<u8>
    decreases s.len(),
{
    if s.len() == 0 {
        Seq::empty()
    } else {
        spec_enc_bytes_seq(s.drop_last()) + spec_enc_bytes(s.last())
    }
}

/// The encoding of a nonempty sequence of byte strings starts with its
/// first element's encoding.
proof fn lemma_enc_bytes_seq_first(s: Seq<Seq<u8>>)
    requires
        s.len() > 0,
    ensures
        spec_enc_bytes_seq(s) == spec_enc_bytes(s[0]) + spec_enc_bytes_seq(s.skip(1)),
    decreases s.len(),
{
    if s.len() == 1 {
        assert(s.drop_last() =~= Seq::<Seq<u8>>::empty());
        assert(s.skip(1) =~= Seq::<Seq<u8>>::empty());
        assert(spec_enc_bytes_seq(s) =~= spec_enc_bytes(s[0]) + spec_enc_bytes_seq(s.skip(1)));
    } else {
        lemma_enc_bytes_seq_first(s.drop_last());
        assert(s.skip(1).drop_last() =~= s.drop_last().skip(1));
        assert(s.skip(1).last() == s.last());
        assert(s.drop_last()[0] == s[0]);
        assert(spec_enc_bytes_seq(s) =~= spec_enc_bytes(s[0]) + spec_enc_bytes_seq(s.skip(1)));
    }
}

/// Decode `count` consecutive byte strings at `pos`.
pub open spec fn spec_dec_bytes_seq(b: Seq<u8>, pos: int, count: nat) -> Option<
    (Seq<Seq<u8>>, int),
>
    decreases count,
{
    if count == 0 {
        Some((Seq::empty(), pos))
    } else {
        match spec_dec_bytes(b, pos) {
            Some((d, p1)) => match spec_dec_bytes_seq(b, p1, (count - 1) as nat) {
                Some((rest, end)) => Some((seq![d] + rest, end)),
                None => None,
            },
            None => None,
        }
    }
}

/// Round trip for sequences of byte strings.
pub proof fn lemma_dec_enc_bytes_seq(b: Seq<u8>, pos: int, s: Seq<Seq<u8>>)
    requires
        0 <= pos,
        forall|i: int| 0 <= i < s.len() ==> s[i].len() <= u64::MAX,
        pos + spec_enc_bytes_seq(s).len() <= b.len(),
        b.subrange(pos, pos + spec_enc_bytes_seq(s).len() as int) == spec_enc_bytes_seq(s),
    ensures
        spec_dec_bytes_seq(b, pos, s.len()) == Some((s, pos + spec_enc_bytes_seq(s).len())),
    decreases s.len(),
{
    if s.len() > 0 {
        lemma_enc_bytes_seq_first(s);
        let n = spec_enc_bytes_seq(s).len() as int;
        let n_f = spec_enc_bytes(s[0]).len() as int;
        let whole = b.subrange(pos, pos + n);
        lemma_subrange_slice(b, pos, n, 0, n_f);
        assert(whole.subrange(0, n_f) =~= spec_enc_bytes(s[0]));
        lemma_dec_enc_bytes(b, pos, s[0]);
        lemma_subrange_slice(b, pos, n, n_f, n);
        assert(whole.subrange(n_f, n) =~= spec_enc_bytes_seq(s.skip(1)));
        assert(forall|i: int| 0 <= i < s.skip(1).len() ==> s.skip(1)[i].len() <= u64::MAX);
        lemma_dec_enc_bytes_seq(b, pos + n_f, s.skip(1));
        assert(seq![s[0]] + s.skip(1) =~= s);
    }
}

/// Append the encodings of all of `data`, in order.
pub fn encode_bytes_seq(out: &mut Vec<u8>, data: &Vec<Vec<u8>>)
    ensures
        final(out)@ == old(out)@ + spec_enc_bytes_seq(spec_bytes_views(data@)),
{
    let n = data.len();
    let mut i: usize = 0;
    while i < n
        invariant
            n == data@.len(),
            0 <= i <= n,
            out@ == old(out)@ + spec_enc_bytes_seq(spec_bytes_views(data@.take(i as int))),
        decreases n - i,
    {
        proof {
            assert(spec_bytes_views(data@.take(i + 1)).drop_last() =~= spec_bytes_views(
                data@.take(i as int),
            ));
            assert(spec_bytes_views(data@.take(i + 1)).last() == data@[i as int]@);
        }
        encode_bytes(out, &data[i]);
        i += 1;
    }
    proof {
        assert(spec_bytes_views(data@.take(n as int)) =~= spec_bytes_views(data@));
    }
}

/// Decode `count` consecutive byte strings at `pos`.
pub fn decode_bytes_seq(b: &Vec<u8>, pos: usize, count: u64) -> (r: Option<(Vec<Vec<u8>>, usize)>)
    ensures
        match r {
            Some((d, end)) => spec_dec_bytes_seq(b@, pos as int, count as nat) == Some(
                (spec_bytes_views(d@), end as int),
            ),
            None => spec_dec_bytes_seq(b@, pos as int, count as nat) is None,
        },
{
    let mut items: Vec<Vec<u8>> = Vec::new();
    let mut cur: usize = pos;
    let mut i: u64 = 0;
    while i < count
        invariant
            0 <= i <= count,
            spec_dec_bytes_seq(b@, pos as int, count as nat) == (match spec_dec_bytes_seq(
                b@,
                cur as int,
                (count - i) as nat,
            ) {
                Some((rest, end)) => Some::<(Seq<Seq<u8>>, int)>(
                    (spec_bytes_views(items@) + rest, end),
                ),
                None => None::<(Seq<Seq<u8>>, int)>,
            }),
        decreases count - i,
    {
        match decode_bytes(b, cur) {
            Some((d, next)) => {
                let ghost prev = spec_bytes_views(items@);
                let ghost dv = d@;
                items.push(d);
                cur = next;
                i += 1;
                proof {
                    assert(spec_bytes_views(items@) =~= prev.push(dv));
                    assert forall|rest: Seq<Seq<u8>>| true implies prev + (seq![dv] + rest) == (
                    prev.push(dv) + rest) by {
                        assert(prev + (seq![dv] + rest) =~= prev.push(dv) + rest);
                    }
                }
            }
            None => {
                return None;
            }
        }
    }
    proof {
        assert(spec_bytes_views(items@) + Seq::<Seq<u8>>::empty() =~= spec_bytes_views(items@));
    }
    Some((items, cur))
}

/// Encoding of one validator: address, then weight.
pub open spec fn spec_enc_validator(v: Validator) -> Seq<u8> {
    spec_enc_u64(v.address) + spec_enc_u64(v.weight)
}

/// Encoding of a validator sequence, in order, without a count.
pub open spec fn spec_enc_val_seq(s: Seq<Validator>) -> Seq<u8>
    decreases s.len(),
{
    if s.len() == 0 {
        Seq::empty()
    } else {
        spec_enc_val_seq(s.drop_last()) + spec_enc_validator(s.last())
    }
}

/// The encoding of a nonempty validator sequence starts with its first
/// element's encoding.
proof fn lemma_enc_val_seq_first(s: Seq<Validator>)
    requires
        s.len() > 0,
    ensures
        spec_enc_val_seq(s) == spec_enc_validator(s[0]) + spec_enc_val_seq(s.skip(1)),
    decreases s.len(),
{
    if s.len() == 1 {
        assert(s.drop_last() =~= Seq::<Validator>::empty());
        assert(s.skip(1) =~= Seq::<Validator>::empty());
        assert(spec_enc_val_seq(s) =~= spec_enc_validator(s[0]) + spec_enc_val_seq(s.skip(1)));
    } else {
        lemma_enc_val_seq_first(s.drop_last());
        assert(s.skip(1).drop_last() =~= s.drop_last().skip(1));
        assert(s.skip(1).last() == s.last());
        assert(s.drop_last()[0] == s[0]);
        assert(spec_enc_val_seq(s) =~= spec_enc_validator(s[0]) + spec_enc_val_seq(s.skip(1)));
    }
}

/// Decode one validator at `pos`.
pub open spec fn spec_dec_validator(b: Seq<u8>, pos: int) -> Option<(Validator, int)> {
    match spec_dec_u64(b, pos) {
        Some((address, p1)) => match spec_dec_u64(b, p1) {
            Some((weight, end)) => Some((Validator { address, weight }, end)),
            None => None,
        },
        None => None,
    }
}

/// Decode `count` consecutive validators at `pos`.
pub open spec fn spec_dec_val_seq(b: Seq<u8>, pos: int, count: nat) -> Option<(Seq<Validator>, int)>
    decreases count,
{
    if count == 0 {
        Some((Seq::empty(), pos))
    } else {
        match spec_dec_validator(b, pos) {
            Some((v, p1)) => match spec_dec_val_seq(b, p1, (count - 1) as nat) {
                Some((rest, end)) => Some((seq![v] + rest, end)),
                None => None,
            },
            None => None,
        }
    }
}

/// Round trip for one validator.
proof fn lemma_dec_enc_validator(b: Seq<u8>, pos: int, v: Validator)
    requires
        0 <= pos,
        pos + 16 <= b.len(),
        b.subrange(pos, pos + 16) == spec_enc_validator(v),
    ensures
        spec_dec_validator(b, pos) == Some((v, pos + 16)),
{
    let whole = b.subrange(pos, pos + 16);
    lemma_subrange_slice(b, pos, 16, 0, 8);
    assert(whole.subrange(0, 8) =~= spec_enc_u64(v.address));
    lemma_dec_enc_u64(b, pos, v.address);
    lemma_subrange_slice(b, pos, 16, 8, 16);
    assert(whole.subrange(8, 16) =~= spec_enc_u64(v.weight));
    lemma_dec_enc_u64(b, pos + 8, v.weight);
}

/// Round trip for validator sequences.
pub proof fn lemma_dec_enc_val_seq(b: Seq<u8>, pos: int, s: Seq<Validator>)
    requires
        0 <= pos,
        pos + spec_enc_val_seq(s).len() <= b.len(),
        b.subrange(pos, pos + spec_enc_val_seq(s).len() as int) == spec_enc_val_seq(s),
    ensures
        spec_dec_val_seq(b, pos, s.len()) == Some((s, pos + spec_enc_val_seq(s).len())),
    decreases s.len(),
{
    if s.len() > 0 {
        lemma_enc_val_seq_first(s);
        let n = spec_enc_val_seq(s).len() as int;
        let whole = b.subrange(pos, pos + n);
        lemma_subrange_slice(b, pos, n, 0, 16);
        assert(whole.subrange(0, 16) =~= spec_enc_validator(s[0]));
        lemma_dec_enc_validator(b, pos, s[0]);
        lemma_subrange_slice(b, pos, n, 16, n);
        assert(whole.subrange(16, n) =~= spec_enc_val_seq(s.skip(1)));
        lemma_dec_enc_val_seq(b, pos + 16, s.skip(1));
        assert(seq![s[0]] + s.skip(1) =~= s);
    }
}

/// Encoding of a validator list: a count, then each validator.
pub open spec fn spec_enc_validators(s: Seq<Validator>) -> Seq<u8> {
    spec_enc_u64(s.len() as u64) + spec_enc_val_seq(s)
}

/// Decode a validator list at `pos`.
pub open spec fn spec_dec_validators(b: Seq<u8>, pos: int) -> Option<(Seq<Validator>, int)> {
    match spec_dec_u64(b, pos) {
        Some((count, p1)) => spec_dec_val_seq(b, p1, count as nat),
        None => None,
    }
}

/// Round trip for validator lists.
pub proof fn lemma_dec_enc_validators(b: Seq<u8>, pos: int, s: Seq<Validator>)
    requires
        0 <= pos,
        s.len() <= u64::MAX,
        pos + spec_enc_validators(s).len() <= b.len(),
        b.subrange(pos, pos + spec_enc_validators(s).len() as int) == spec_enc_validators(s),
    ensures
        spec_dec_validators(b, pos) == Some((s, pos + spec_enc_validators(s).len())),
{
    let n = spec_enc_validators(s).len() as int;
    let n_v = spec_enc_val_seq(s).len() as int;
    let whole = b.subrange(pos, pos + n);
    lemma_subrange_slice(b, pos, n, 0, 8);
    assert(whole.subrange(0, 8) =~= spec_enc_u64(s.len() as u64));
    lemma_dec_enc_u64(b, pos, s.len() as u64);
    lemma_subrange_slice(b, pos, n, 8, 8 + n_v);
    assert(whole.subrange(8, 8 + n_v) =~= spec_enc_val_seq(s));
    lemma_dec_enc_val_seq(b, pos + 8, s);
}

/// Encode a validator list into fresh bytes (the form of a validator-set
/// proof).
pub fn encode_validators(vals: &Vec<Validator>) -> (r: Vec<u8>)
    ensures
        r@ == spec_enc_validators(vals@),
{
    let mut out: Vec<u8> = Vec::new();
    encode_u64(&mut out, vals.len() as u64);
    let n = vals.len();
    let mut i: usize = 0;
    while i < n
        invariant
            n == vals@.len(),
            0 <= i <= n,
            out@ == spec_enc_u64(vals@.len() as u64) + spec_enc_val_seq(vals@.take(i as int)),
        decreases n - i,
    {
        proof {
            assert(vals@.take(i + 1).drop_last() =~= vals@.take(i as int));
            assert(vals@.take(i + 1).last() == vals@[i as int]);
        }
        encode_u64(&mut out, vals[i].address);
        encode_u64(&mut out, vals[i].weight);
        proof {
            assert(out@ =~= spec_enc_u64(vals@.len() as u64) + spec_enc_val_seq(
                vals@.take(i + 1),
            ));
        }
        i += 1;
    }
    proof {
        assert(vals@.take(n as int) =~= vals@);
        assert(out@ =~= spec_enc_validators(vals@));
    }
    out
}

/// Decode a validator list at the start of `b`.
#[verifier::loop_isolation(false)]
pub fn decode_validators(b: &Vec<u8>) -> (r: Option<Vec<Validator>>)
    ensures
        match r {
            Some(vals) => spec_dec_validators(b@, 0) matches Some((s, _)) && s == vals@,
            None => spec_dec_validators(b@, 0) is None,
        },
{
    let (count, p1) = match decode_u64(b, 0) {
        Some(x) => x,
        None => {
            return None;
        }
    };
    let mut vals: Vec<Validator> = Vec::new();
    let mut cur: usize = p1;
    let mut i: u64 = 0;
    while i < count
        invariant
            0 <= i <= count,
            spec_dec_val_seq(b@, p1 as int, count as nat) == (match spec_dec_val_seq(
                b@,
                cur as int,
                (count - i) as nat,
            ) {
                Some((rest, end)) => Some::<(Seq<Validator>, int)>((vals@ + rest, end)),
                None => None::<(Seq<Validator>, int)>,
            }),
        decreases count - i,
    {
        let (address, q1) = match decode_u64(b, cur) {
            Some(x) => x,
            None => {
                return None;
            }
        };
        let (weight, q2) = match decode_u64(b, q1) {
            Some(x) => x,
            None => {
                return None;
            }
        };
        let ghost prev = vals@;
        let v = Validator { address, weight };
        vals.push(v);
        cur = q2;
        i += 1;
        proof {
            assert forall|rest: Seq<Validator>| true implies prev + (seq![v] + rest) == (prev.push(
                v,
            ) + rest) by {
                assert(prev + (seq![v] + rest) =~= prev.push(v) + rest);
            }
        }
    }
    proof {
        assert(vals@ + Seq::<Validator>::empty() =~= vals@);
    }
    Some(vals)
}

/// Encoding of a header: identifiers, extra data, score, seal fields, and
/// the epoch signal.
pub open spec fn spec_enc_header(h: HeaderView) -> Seq<u8> {
    spec_enc_u64(h.hash) + spec_enc_u64(h.parent_hash) + spec_enc_u64(h.number) + spec_enc_u64(
        h.author,
    ) + spec_enc_bytes(h.extra_data) + spec_enc_opt_u64(h.score) + spec_enc_u64(h.seal.len() as u64)
        + spec_enc_bytes_seq(h.seal) + spec_enc_opt_bytes(h.epoch_signal)
}

/// Decode a header at `pos`.
pub open spec fn spec_dec_header(b: Seq<u8>, pos: int) -> Option<(HeaderView, int)> {
    match spec_dec_u64(b, pos) {
        Some((hash, p1)) => match spec_dec_u64(b, p1) {
            Some((parent_hash, p2)) => match spec_dec_u64(b, p2) {
                Some((number, p3)) => match spec_dec_u64(b, p3) {
                    Some((author, p4)) => match spec_dec_bytes(b, p4) {
                        Some((extra_data, p5)) => match spec_dec_opt_u64(b, p5) {
                            Some((score, p6)) => match spec_dec_u64(b, p6) {
                                Some((nseal, p7)) => match spec_dec_bytes_seq(b, p7, nseal as nat) {
                                    Some((seal, p8)) => match spec_dec_opt_bytes(b, p8) {
                                        Some((epoch_signal, end)) => Some(
                                            (
                                                HeaderView {
                                                    hash,
                                                    parent_hash,
                                                    number,
                                                    author,
                                                    extra_data,
                                                    score,
                                                    seal,
                                                    epoch_signal,
                                                },
                                                end,
                                            ),
                                        ),
                                        None => None,
                                    },
                                    None => None,
                                },
                                None => None,
                            },
                            None => None,
                        },
                        None => None,
                    },
                    None => None,
                },
                None => None,
            },
            None => None,
        },
        None => None,
    }
}

/// Round trip for headers.
#[verifier::rlimit(100)]
pub proof fn lemma_dec_enc_header(b: Seq<u8>, pos: int, h: HeaderView)
    requires
        0 <= pos,
        h.extra_data.len() <= u64::MAX,
        h.seal.len() <= u64::MAX,
        forall|i: int| 0 <= i < h.seal.len() ==> h.seal[i].len() <= u64::MAX,
        h.epoch_signal matches Some(d) ==> d.len() <= u64::MAX,
        pos + spec_enc_header(h).len() <= b.len(),
        b.subrange(pos, pos + spec_enc_header(h).len() as int) == spec_enc_header(h),
    ensures
        spec_dec_header(b, pos) == Some((h, pos + spec_enc_header(h).len())),
{
    let n = spec_enc_header(h).len() as int;
    let n_x = spec_enc_bytes(h.extra_data).len() as int;
    let n_sc = spec_enc_opt_u64(h.score).len() as int;
    let n_sl = spec_enc_bytes_seq(h.seal).len() as int;
    let n_ep = spec_enc_opt_bytes(h.epoch_signal).len() as int;
    let whole = b.subrange(pos, pos + n);
    lemma_subrange_slice(b, pos, n, 0, 8);
    assert(whole.subrange(0, 8) =~= spec_enc_u64(h.hash));
    lemma_dec_enc_u64(b, pos, h.hash);
    lemma_subrange_slice(b, pos, n, 8, 16);
    assert(whole.subrange(8, 16) =~= spec_enc_u64(h.parent_hash));
    lemma_dec_enc_u64(b, pos + 8, h.parent_hash);
    lemma_subrange_slice(b, pos, n, 16, 24);
    assert(whole.subrange(16, 24) =~= spec_enc_u64(h.number));
    lemma_dec_enc_u64(b, pos + 16, h.number);
    lemma_subrange_slice(b, pos, n, 24, 32);
    assert(whole.subrange(24, 32) =~= spec_enc_u64(h.author));
    lemma_dec_enc_u64(b, pos + 24, h.author);
    lemma_subrange_slice(b, pos, n, 32, 32 + n_x);
    assert(whole.subrange(32, 32 + n_x) =~= spec_enc_bytes(h.extra_data));
    lemma_dec_enc_bytes(b, pos + 32, h.extra_data);
    lemma_subrange_slice(b, pos, n, 32 + n_x, 32 + n_x + n_sc);
    assert(whole.subrange(32 + n_x, 32 + n_x + n_sc) =~= spec_enc_opt_u64(h.score));
    lemma_dec_enc_opt_u64(b, pos + 32 + n_x, h.score);
    lemma_subrange_slice(b, pos, n, 32 + n_x + n_sc, 40 + n_x + n_sc);
    assert(whole.subrange(32 + n_x + n_sc, 40 + n_x + n_sc) =~= spec_enc_u64(h.seal.len() as u64));
    lemma_dec_enc_u64(b, pos + 32 + n_x + n_sc, h.seal.len() as u64);
    lemma_subrange_slice(b, pos, n, 40 + n_x + n_sc, 40 + n_x + n_sc + n_sl);
    assert(whole.subrange(40 + n_x + n_sc, 40 + n_x + n_sc + n_sl) =~= spec_enc_bytes_seq(h.seal));
    lemma_dec_enc_bytes_seq(b, pos + 40 + n_x + n_sc, h.seal);
    lemma_subrange_slice(b, pos, n, 40 + n_x + n_sc + n_sl, 40 + n_x + n_sc + n_sl + n_ep);
    assert(whole.subrange(40 + n_x + n_sc + n_sl, 40 + n_x + n_sc + n_sl + n_ep)
        =~= spec_enc_opt_bytes(h.epoch_signal));
    lemma_dec_enc_opt_bytes(b, pos + 40 + n_x + n_sc + n_sl, h.epoch_signal);
}

/// Encode a header into fresh bytes (the canonical form used for finality
/// proofs).
pub fn encode_header(h: &Header) -> (r: Vec<u8>)
    ensures
        r@ == spec_enc_header(h@),
{
    let mut out: Vec<u8> = Vec::new();
    encode_u64(&mut out, h.hash);
    encode_u64(&mut out, h.parent_hash);
    encode_u64(&mut out, h.number);
    encode_u64(&mut out, h.author);
    encode_bytes(&mut out, &h.extra_data);
    encode_opt_u64(&mut out, &h.score);
    encode_u64(&mut out, h.seal.len() as u64);
    encode_bytes_seq(&mut out, &h.seal);
    encode_opt_bytes(&mut out, &h.epoch_signal);
    proof {
        assert(spec_bytes_views(h.seal@) =~= h@.seal);
        assert(out@ =~= spec_enc_header(h@));
    }
    out
}

/// Decode a header at `pos`.
pub fn decode_header(b: &Vec<u8>, pos: usize) -> (r: Option<(Header, usize)>)
    ensures
        match r {
            Some((h, end)) => spec_dec_header(b@, pos as int) == Some((h@, end as int)),
            None => spec_dec_header(b@, pos as int) is None,
        },
{
    let (hash, p1) = match decode_u64(b, pos) {
        Some(x) => x,
        None => {
            return None;
        }
    };
    let (parent_hash, p2) = match decode_u64(b, p1) {
        Some(x) => x,
        None => {
            return None;
        }
    };
    let (number, p3) = match decode_u64(b, p2) {
        Some(x) => x,
        None => {
            return None;
        }
    };
    let (author, p4) = match decode_u64(b, p3) {
        Some(x) => x,
        None => {
            return None;
        }
    };
    let (extra_data, p5) = match decode_bytes(b, p4) {
        Some(x) => x,
        None => {
            return None;
        }
    };
    let (score, p6) = match decode_opt_u64(b, p5) {
        Some(x) => x,
        None => {
            return None;
        }
    };
    let (nseal, p7) = match decode_u64(b, p6) {
        Some(x) => x,
        None => {
            return None;
        }
    };
    let (seal, p8) = match decode_bytes_seq(b, p7, nseal) {
        Some(x) => x,
        None => {
            return None;
        }
    };
    let (epoch_signal, end) = match decode_opt_bytes(b, p8) {
        Some(x) => x,
        None => {
            return None;
        }
    };
    let h = Header { hash, parent_hash, number, author, extra_data, score, seal, epoch_signal };
    proof {
        assert(h@.seal =~= spec_bytes_views(h.seal@));
        assert(h@.epoch_signal == (match h.epoch_signal {
            Some(ref p) => Some::<Seq<u8>>(p@),
            None => None::<Seq<u8>>,
        }));
    }
    Some((h, end))
}

} // verus!
