//! End-to-end rounds of the consensus state machine: the happy path, an
//! offline proposer, locking and re-proposal, and double-vote detection.

use tendermint_core::timeout::TimeoutParams;
use tendermint_core::types::{
    BlockProposal, ConsensusMessage, EngineError, Seal, Signature, Step, VoteOn, VoteTarget,
};
use tendermint_core::validator::{Validator, ValidatorSet};
use tendermint_core::worker::{Effect, Worker};

fn four_validators() -> ValidatorSet {
    ValidatorSet::new(vec![
        Validator { address: 1, weight: 1 },
        Validator { address: 2, weight: 1 },
        Validator { address: 3, weight: 1 },
        Validator { address: 4, weight: 1 },
    ])
    .expect("a valid set")
}

fn timeouts() -> TimeoutParams {
    TimeoutParams { propose: 1000, prevote: 1000, precommit: 1000, commit: 1000, delta: 500 }
}

fn signed_vote(signer: u64, height: u64, view: u64, step: Step, target: VoteTarget) -> ConsensusMessage {
    let v = VoteOn { height, view, step, target };
    ConsensusMessage { on: v, signature: Signature::sign(signer, v) }
}

fn submitted_seal(effects: &[Effect]) -> Option<(u64, Seal)> {
    for e in effects {
        if let Effect::SubmitSeal { block_hash, seal } = e {
            return Some((*block_hash, seal.clone()));
        }
    }
    None
}

fn requests_proposal(effects: &[Effect]) -> bool {
    effects.iter().any(|e| matches!(e, Effect::RequestProposalBlock))
}

/// Happy path at view 0 with four honest validators: the proposer proposes,
/// the others prevote and precommit, the seal carries the threshold
/// precommits in ascending signer order, and the height advances by one.
#[test]
fn happy_path_single_round() {
    let mut w = Worker::new(four_validators(), timeouts(), 1, 0);
    w.set_signer(1); // A proposes at (1, 0)
    let effects = w.start();
    assert!(requests_proposal(&effects));

    let effects = w.on_proposal_generated(100);
    assert!(effects.iter().any(|e| matches!(e, Effect::BroadcastProposal(_))));
    assert_eq!(w.step, Step::Prevote);

    let x = VoteTarget::Block(100);
    assert!(w.on_vote(signed_vote(2, 1, 0, Step::Prevote, x)).0.is_ok());
    let (r, effects) = w.on_vote(signed_vote(3, 1, 0, Step::Prevote, x));
    assert!(r.is_ok());
    // polka: the worker locks and precommits
    assert_eq!(w.step, Step::Precommit);
    assert!(effects.iter().any(|e| matches!(e, Effect::BroadcastVote(m)
        if m.on.step == Step::Precommit && m.on.target == x)));

    assert!(w.on_vote(signed_vote(2, 1, 0, Step::Precommit, x)).0.is_ok());
    let (r, effects) = w.on_vote(signed_vote(3, 1, 0, Step::Precommit, x));
    assert!(r.is_ok());
    let (block_hash, seal) = submitted_seal(&effects).expect("a threshold of precommits seals");
    assert_eq!(block_hash, 100);
    assert_eq!(seal.view, 0);
    let signers: Vec<u64> = seal.precommits.iter().map(|s| s.signer).collect();
    assert_eq!(signers, vec![1, 2, 3]);
    assert_eq!(w.height, 2);
    assert_eq!(w.view, 0);
    // the committed proposal is released on the height advance
    assert!(!w.is_proposal(1, 100));
}

/// The proposer is silent: after the propose timeout the node prevotes
/// Nil; on a Nil polka it precommits Nil; after the precommit timeout the
/// view advances and the next proposer takes over.
#[test]
fn offline_proposer_advances_view() {
    let mut w = Worker::new(four_validators(), timeouts(), 1, 0);
    w.set_signer(2); // B; proposer(1, 0) is A
    let effects = w.start();
    assert!(!requests_proposal(&effects));

    let effects = w.on_timeout(w.armed_token);
    assert_eq!(w.step, Step::Prevote);
    assert!(effects.iter().any(|e| matches!(e, Effect::BroadcastVote(m)
        if m.on.step == Step::Prevote && m.on.target == VoteTarget::Nil)));

    assert!(w.on_vote(signed_vote(3, 1, 0, Step::Prevote, VoteTarget::Nil)).0.is_ok());
    let (r, effects) = w.on_vote(signed_vote(4, 1, 0, Step::Prevote, VoteTarget::Nil));
    assert!(r.is_ok());
    assert_eq!(w.step, Step::Precommit);
    assert!(effects.iter().any(|e| matches!(e, Effect::BroadcastVote(m)
        if m.on.step == Step::Precommit && m.on.target == VoteTarget::Nil)));

    let effects = w.on_timeout(w.armed_token);
    assert_eq!(w.view, 1);
    assert_eq!(w.height, 1);
    // proposer(1, 1) is B: the worker asks the miner for a block
    assert!(requests_proposal(&effects));
}

/// A stale timer token is ignored entirely.
#[test]
fn stale_timeout_is_ignored() {
    let mut w = Worker::new(four_validators(), timeouts(), 1, 0);
    w.set_signer(2);
    let _ = w.start();
    let stale = w.armed_token + 1;
    let effects = w.on_timeout(stale);
    assert!(effects.is_empty());
    assert_eq!(w.step, Step::Propose);
    assert_eq!(w.view, 0);
}

/// Lock and re-propose: no supermajority forms at view 0, but a late polka
/// for X is observed; at view 1 this node is the proposer, re-proposes X
/// with its valid round, and finalization lands with seal view 1.
#[test]
fn lock_and_repropose() {
    let mut w = Worker::new(four_validators(), timeouts(), 1, 0);
    w.set_signer(2); // B
    let _ = w.start();

    // A proposes X at (1, 0)
    let x: u64 = 77;
    let propose_vote = VoteOn { height: 1, view: 0, step: Step::Propose, target: VoteTarget::Block(x) };
    let p = BlockProposal {
        height: 1,
        view: 0,
        block_hash: x,
        valid_round: None,
        signature: Signature::sign(1, propose_vote),
    };
    let (r, _) = w.on_proposal(&p);
    assert!(r.is_ok());
    assert_eq!(w.step, Step::Prevote); // B prevoted X

    // only A's prevote for X arrives: no polka yet
    assert!(w.on_vote(signed_vote(1, 1, 0, Step::Prevote, VoteTarget::Block(x))).0.is_ok());
    // prevote timeout: B precommits Nil
    let _ = w.on_timeout(w.armed_token);
    assert_eq!(w.step, Step::Precommit);

    // C's prevote for X arrives late: a polka at view 0 is now visible
    assert!(w.on_vote(signed_vote(3, 1, 0, Step::Prevote, VoteTarget::Block(x))).0.is_ok());
    assert!(w.valid_locked.is_some());

    // precommit timeout: view 1, B is the proposer and re-proposes X
    let effects = w.on_timeout(w.armed_token);
    assert_eq!(w.view, 1);
    let reproposed = effects.iter().find_map(|e| match e {
        Effect::BroadcastProposal(q) => Some(*q),
        _ => None,
    });
    let q = reproposed.expect("the valid-locked block is re-proposed");
    assert_eq!(q.block_hash, x);
    assert_eq!(q.valid_round, Some(0));
    assert_eq!(w.step, Step::Prevote);

    // prevotes for X at view 1 from A and C complete a polka
    assert!(w.on_vote(signed_vote(1, 1, 1, Step::Prevote, VoteTarget::Block(x))).0.is_ok());
    assert!(w.on_vote(signed_vote(3, 1, 1, Step::Prevote, VoteTarget::Block(x))).0.is_ok());
    assert_eq!(w.step, Step::Precommit);

    // precommits for X at view 1 from A and C finalize
    assert!(w.on_vote(signed_vote(1, 1, 1, Step::Precommit, VoteTarget::Block(x))).0.is_ok());
    let (r, effects) = w.on_vote(signed_vote(3, 1, 1, Step::Precommit, VoteTarget::Block(x)));
    assert!(r.is_ok());
    let (block_hash, seal) = submitted_seal(&effects).expect("finalized at view 1");
    assert_eq!(block_hash, x);
    assert_eq!(seal.view, 1);
    assert_eq!(w.height, 2);
}

/// Double-vote detection: the first vote counts, the conflicting second
/// vote from the same signer is an error, the tallies stay as they were,
/// and the conflict is kept as evidence.
#[test]
fn double_vote_is_flagged_and_not_counted() {
    let mut w = Worker::new(four_validators(), timeouts(), 1, 0);
    let x = VoteTarget::Block(5);
    let y = VoteTarget::Block(6);

    let (r, _) = w.on_vote(signed_vote(1, 1, 0, Step::Prevote, x));
    assert!(r.is_ok());
    let (r, _) = w.on_vote(signed_vote(1, 1, 0, Step::Prevote, y));
    assert_eq!(r, Err(EngineError::DoubleVote));

    assert_eq!(w.votes.weight_for(&w.validators, 1, 0, Step::Prevote, x), 1);
    assert_eq!(w.votes.weight_for(&w.validators, 1, 0, Step::Prevote, y), 0);
    assert_eq!(w.votes.evidence().len(), 1);

    // repeating the counted vote changes nothing and is no error
    let (r, _) = w.on_vote(signed_vote(1, 1, 0, Step::Prevote, x));
    assert!(r.is_ok());
    assert_eq!(w.votes.weight_for(&w.validators, 1, 0, Step::Prevote, x), 1);
}

/// Votes split over two blocks never reach the threshold for either: no
/// seal is emitted and the height stands.
#[test]
fn split_precommits_do_not_commit() {
    let mut w = Worker::new(four_validators(), timeouts(), 1, 0);
    let x = VoteTarget::Block(10);
    let y = VoteTarget::Block(11);
    let mut all_effects: Vec<Effect> = Vec::new();
    for (signer, t) in [(1u64, x), (2, x), (3, y), (4, y)] {
        let (r, mut effects) = w.on_vote(signed_vote(signer, 1, 0, Step::Precommit, t));
        assert!(r.is_ok());
        all_effects.append(&mut effects);
    }
    assert!(submitted_seal(&all_effects).is_none());
    assert_eq!(w.height, 1);
}

/// A vote whose signature does not cover its vote, or whose signer is not
/// a validator, is not authorized.
#[test]
fn unauthorized_votes_rejected() {
    let mut w = Worker::new(four_validators(), timeouts(), 1, 0);
    let v = VoteOn { height: 1, view: 0, step: Step::Prevote, target: VoteTarget::Nil };
    let other = VoteOn { height: 2, view: 0, step: Step::Prevote, target: VoteTarget::Nil };
    let bad_sig = ConsensusMessage { on: v, signature: Signature::sign(1, other) };
    assert_eq!(w.on_vote(bad_sig).0, Err(EngineError::NotAuthorized));
    let outsider = signed_vote(9, 1, 0, Step::Prevote, VoteTarget::Nil);
    assert_eq!(w.on_vote(outsider).0, Err(EngineError::NotAuthorized));
}

/// A proposal from anyone but the round's proposer is rejected; one for
/// another round is unexpected.
#[test]
fn proposal_checks() {
    let mut w = Worker::new(four_validators(), timeouts(), 1, 0);
    let _ = w.start();
    let x: u64 = 50;
    let vote_ok = VoteOn { height: 1, view: 0, step: Step::Propose, target: VoteTarget::Block(x) };
    let from_wrong_signer = BlockProposal {
        height: 1,
        view: 0,
        block_hash: x,
        valid_round: None,
        signature: Signature::sign(2, vote_ok),
    };
    assert_eq!(w.on_proposal(&from_wrong_signer).0, Err(EngineError::NotAuthorized));

    let wrong_round = BlockProposal {
        height: 2,
        view: 0,
        block_hash: x,
        valid_round: None,
        signature: Signature::sign(1, vote_ok),
    };
    assert_eq!(w.on_proposal(&wrong_round).0, Err(EngineError::UnexpectedMessage));

    // a claimed valid round without a polka behind it is unexpected
    let v1 = VoteOn { height: 1, view: 1, step: Step::Propose, target: VoteTarget::Block(x) };
    let _ = w.on_timeout(w.armed_token); // -> prevote nil
    let _ = w.on_timeout(w.armed_token); // -> precommit nil
    let _ = w.on_timeout(w.armed_token); // -> view 1
    assert_eq!(w.view, 1);
    let claims_polka = BlockProposal {
        height: 1,
        view: 1,
        block_hash: x,
        valid_round: Some(0),
        signature: Signature::sign(2, v1),
    };
    assert_eq!(w.on_proposal(&claims_polka).0, Err(EngineError::UnexpectedMessage));
}

/// Votes for a future height are buffered and can be replayed after the
/// height advances; votes for a past height are dropped silently.
#[test]
fn future_votes_are_buffered() {
    let mut w = Worker::new(four_validators(), timeouts(), 1, 0);
    let (r, _) = w.on_vote(signed_vote(1, 5, 0, Step::Prevote, VoteTarget::Nil));
    assert!(r.is_ok());
    let buffered = w.take_future_votes();
    assert_eq!(buffered.len(), 1);
    assert_eq!(buffered[0].on.height, 5);
    let (r, _) = w.on_vote(signed_vote(1, 0, 0, Step::Prevote, VoteTarget::Nil));
    assert!(r.is_ok());
    assert_eq!(w.votes.weight_for(&w.validators, 0, 0, Step::Prevote, VoteTarget::Nil), 0);
}

/// Double-vote detection through the wire: the first framed vote counts,
/// the conflicting second framed vote from the same signer is the
/// `DoubleVote` error, and every tally stands as it was.
#[test]
fn handle_message_flags_double_votes() {
    let mut w = Worker::new(four_validators(), timeouts(), 1, 0);
    let x = VoteTarget::Block(5);
    let y = VoteTarget::Block(6);
    let mut first: Vec<u8> = Vec::new();
    tendermint_core::codec::encode_message(&mut first, signed_vote(1, 1, 0, Step::Prevote, x));
    let mut second: Vec<u8> = Vec::new();
    tendermint_core::codec::encode_message(&mut second, signed_vote(1, 1, 0, Step::Prevote, y));
    assert!(w.handle_message(&first).0.is_ok());
    assert_eq!(w.handle_message(&second).0, Err(EngineError::DoubleVote));
    assert_eq!(w.votes.weight_for(&w.validators, 1, 0, Step::Prevote, x), 1);
    assert_eq!(w.votes.weight_for(&w.validators, 1, 0, Step::Prevote, y), 0);
    assert_eq!(w.votes.evidence().len(), 1);
    // re-sending the counted vote byte-for-byte changes nothing
    assert!(w.handle_message(&first).0.is_ok());
    assert_eq!(w.votes.weight_for(&w.validators, 1, 0, Step::Prevote, x), 1);
}

/// A framed vote reaches the worker through `handle_message`; malformed
/// bytes are unexpected.
#[test]
fn handle_message_decodes_and_counts() {
    let mut w = Worker::new(four_validators(), timeouts(), 1, 0);
    let m = signed_vote(1, 1, 0, Step::Prevote, VoteTarget::Block(3));
    let mut bytes: Vec<u8> = Vec::new();
    tendermint_core::codec::encode_message(&mut bytes, m);
    let (r, _) = w.handle_message(&bytes);
    assert!(r.is_ok());
    assert_eq!(w.votes.weight_for(&w.validators, 1, 0, Step::Prevote, VoteTarget::Block(3)), 1);
    let garbage: Vec<u8> = vec![1, 2, 3];
    assert_eq!(w.handle_message(&garbage).0, Err(EngineError::UnexpectedMessage));
}

/// A seal the worker emits verifies externally: wrapped into a header's
/// seal fields, it passes full seal verification on a fresh node with the
/// same validator set.
#[test]
fn emitted_seal_passes_external_verification() {
    let mut w = Worker::new(four_validators(), timeouts(), 1, 0);
    w.set_signer(1);
    let _ = w.start();
    let _ = w.on_proposal_generated(100);
    let x = VoteTarget::Block(100);
    for s in [2u64, 3] {
        let _ = w.on_vote(signed_vote(s, 1, 0, Step::Prevote, x));
    }
    let _ = w.on_vote(signed_vote(2, 1, 0, Step::Precommit, x));
    let (_, effects) = w.on_vote(signed_vote(3, 1, 0, Step::Precommit, x));
    let (block_hash, seal) = submitted_seal(&effects).expect("sealed");

    let header = tendermint_core::types::Header {
        hash: block_hash,
        parent_hash: 0,
        number: 1,
        author: 1,
        extra_data: vec![],
        score: Some(1),
        seal: tendermint_core::epoch::seal_to_fields(&seal),
        epoch_signal: None,
    };
    let fresh = Worker::new(four_validators(), timeouts(), 1, 0);
    assert!(fresh.verify_block_basic(&header).is_ok());
    assert!(fresh.verify_block_external(&header).is_ok());
}

/// The proposal seal is produced exactly when this node is the proposer of
/// the round.
#[test]
fn generate_seal_only_for_proposer() {
    let mut w = Worker::new(four_validators(), timeouts(), 1, 0);
    assert!(w.generate_seal(1, 0).is_none()); // no signer yet
    w.set_signer(1);
    let seal = w.generate_seal(1, 0).expect("the proposer seals");
    assert_eq!(seal.view, 0);
    assert!(seal.precommits.is_empty());
    assert!(w.generate_seal(2, 0).is_none()); // wrong height
    let mut w2 = Worker::new(four_validators(), timeouts(), 1, 0);
    w2.set_signer(3); // not proposer(1, 0)
    assert!(w2.generate_seal(1, 0).is_none());
}
