//! Round trips and exact byte forms of the wire codec.

use tendermint_core::codec::{
    combine_proofs, decode_header, decode_message, decode_seal, destructure_proofs, encode_header,
    encode_message, encode_seal, encode_u64, encode_validators, decode_validators,
};
use tendermint_core::network::{decode_frame, encode_frame, Frame};
use tendermint_core::types::{
    ConsensusMessage, Header, Seal, Signature, Step, VoteOn, VoteTarget,
};
use tendermint_core::validator::Validator;

fn vote(height: u64, view: u64, step: Step, target: VoteTarget) -> VoteOn {
    VoteOn { height, view, step, target }
}

#[test]
fn u64_encodes_big_endian() {
    let mut out: Vec<u8> = Vec::new();
    encode_u64(&mut out, 1);
    assert_eq!(out, vec![0, 0, 0, 0, 0, 0, 0, 1]);
    let mut out2: Vec<u8> = Vec::new();
    encode_u64(&mut out2, 0x0102030405060708);
    assert_eq!(out2, vec![1, 2, 3, 4, 5, 6, 7, 8]);
}

#[test]
fn seal_round_trip() {
    let v = vote(7, 2, Step::Precommit, VoteTarget::Block(99));
    let seal = Seal {
        view: 2,
        proposer_sig: Signature::sign(11, vote(7, 2, Step::Propose, VoteTarget::Block(99))),
        precommits: vec![Signature::sign(11, v), Signature::sign(12, v), Signature::sign(13, v)],
    };
    let bytes = encode_seal(&seal);
    let (decoded, end) = decode_seal(&bytes, 0).expect("a seal encoding decodes");
    assert_eq!(end, bytes.len());
    assert_eq!(decoded.view, seal.view);
    assert_eq!(decoded.proposer_sig, seal.proposer_sig);
    assert_eq!(decoded.precommits, seal.precommits);
}

#[test]
fn empty_seal_round_trip() {
    let seal = Seal {
        view: 0,
        proposer_sig: Signature::sign(1, vote(1, 0, Step::Propose, VoteTarget::Nil)),
        precommits: vec![],
    };
    let bytes = encode_seal(&seal);
    let (decoded, _) = decode_seal(&bytes, 0).expect("decodes");
    assert_eq!(decoded, seal);
}

#[test]
fn combined_proof_round_trip() {
    let set_proof: Vec<u8> = vec![1, 2, 3, 4];
    let finality: Vec<u8> = vec![9, 8];
    let bytes = combine_proofs(100, &set_proof, &finality);
    let parts = destructure_proofs(&bytes).expect("a combined proof decodes");
    assert_eq!(parts.signal_number, 100);
    assert_eq!(parts.set_proof, set_proof);
    assert_eq!(parts.finality_proof, finality);
}

#[test]
fn combined_proof_rejects_truncation() {
    let bytes = combine_proofs(100, &vec![1, 2, 3], &vec![4, 5]);
    let truncated: Vec<u8> = bytes[..bytes.len() - 1].to_vec();
    assert!(destructure_proofs(&truncated).is_none());
}

#[test]
fn message_round_trip() {
    let v = vote(3, 1, Step::Prevote, VoteTarget::Nil);
    let m = ConsensusMessage { on: v, signature: Signature::sign(42, v) };
    let mut bytes: Vec<u8> = Vec::new();
    encode_message(&mut bytes, m);
    let (decoded, end) = decode_message(&bytes, 0).expect("a message encoding decodes");
    assert_eq!(end, bytes.len());
    assert_eq!(decoded, m);
}

#[test]
fn header_round_trip() {
    let header = Header {
        hash: 555,
        parent_hash: 444,
        number: 100,
        author: 7,
        extra_data: vec![1, 2, 3],
        score: Some(10),
        seal: vec![vec![0, 1], vec![], vec![2]],
        epoch_signal: Some(vec![5, 6]),
    };
    let bytes = encode_header(&header);
    let (decoded, end) = decode_header(&bytes, 0).expect("a header encoding decodes");
    assert_eq!(end, bytes.len());
    assert_eq!(decoded, header);
}

#[test]
fn validator_list_round_trip() {
    let list = vec![
        Validator { address: 1, weight: 1 },
        Validator { address: 2, weight: 3 },
    ];
    let bytes = encode_validators(&list);
    let decoded = decode_validators(&bytes).expect("a validator list decodes");
    assert_eq!(decoded, list);
}

#[test]
fn frame_round_trip() {
    let v = vote(1, 0, Step::Prevote, VoteTarget::Block(5));
    let m = ConsensusMessage { on: v, signature: Signature::sign(2, v) };
    let f = Frame::Vote(m);
    let bytes = encode_frame(&f);
    match decode_frame(&bytes) {
        Some(Frame::Vote(decoded)) => assert_eq!(decoded, m),
        _ => panic!("expected a vote frame"),
    }
    assert!(decode_frame(&vec![7u8, 0, 0]).is_none());
}
