//! Epoch transitions: signalling, the combined proof one block later, and
//! the verifier's unconfirmed-to-trusted path.

use tendermint_core::codec::{destructure_proofs, encode_header, encode_validators};
use tendermint_core::epoch::{
    epoch_verifier, seal_to_fields, signals_epoch_end, ConstructedVerifier, EpochChange,
    EpochManager, EpochVerifier,
};
use tendermint_core::types::{Header, Seal, Signature, Step, VoteOn, VoteTarget};
use tendermint_core::validator::{Validator, ValidatorSet};

fn validator_list() -> Vec<Validator> {
    vec![
        Validator { address: 1, weight: 1 },
        Validator { address: 2, weight: 1 },
        Validator { address: 3, weight: 1 },
        Validator { address: 4, weight: 1 },
    ]
}

/// A header whose seal certifies its own hash with precommits from the
/// first three validators.
fn sealed_header(number: u64, hash: u64, epoch_signal: Option<Vec<u8>>) -> Header {
    let precommit = VoteOn { height: number, view: 0, step: Step::Precommit, target: VoteTarget::Block(hash) };
    let seal = Seal {
        view: 0,
        proposer_sig: Signature::sign(
            1,
            VoteOn { height: number, view: 0, step: Step::Propose, target: VoteTarget::Block(hash) },
        ),
        precommits: vec![
            Signature::sign(1, precommit),
            Signature::sign(2, precommit),
            Signature::sign(3, precommit),
        ],
    };
    Header {
        hash,
        parent_hash: hash.wrapping_sub(1),
        number,
        author: 1,
        extra_data: vec![],
        score: Some(7),
        seal: seal_to_fields(&seal),
        epoch_signal,
    }
}

/// A signal at height 100 produces nothing at once; the next head yields
/// the combined proof (signal height, set proof, encoding of the signal
/// header), whose verifier is unconfirmed until the finality proof checks
/// out.
#[test]
fn epoch_transition_two_phase() {
    let set_proof = encode_validators(&validator_list());
    let header_100 = sealed_header(100, 555, Some(set_proof.clone()));
    let header_101 = sealed_header(101, 556, None);

    match signals_epoch_end(false, &header_100) {
        EpochChange::WaitForFinality => {}
        _ => panic!("a later signal waits for its finality proof"),
    }
    match signals_epoch_end(true, &header_100) {
        EpochChange::Yes(p) => assert_eq!(p, set_proof),
        _ => panic!("the first header decides at once"),
    }
    match signals_epoch_end(false, &header_101) {
        EpochChange::No => {}
        _ => panic!("an ordinary header does not signal"),
    }

    let mut mgr = EpochManager::new();
    assert!(mgr.is_epoch_end(&header_100).is_none());
    let combined = mgr.is_epoch_end(&header_101).expect("the next head completes the transition");

    let parts = destructure_proofs(&combined).expect("the combined proof decodes");
    assert_eq!(parts.signal_number, 100);
    assert_eq!(parts.set_proof, set_proof);
    assert_eq!(parts.finality_proof, encode_header(&header_100));

    // unconfirmed until the finality proof is checked, then trusted
    let constructed = epoch_verifier(&combined);
    let trusted = match constructed {
        ConstructedVerifier::Unconfirmed(verifier, finality) => {
            verifier.check_finality_proof(&finality).expect("the finality proof verifies");
            ConstructedVerifier::Trusted(verifier)
        }
        _ => panic!("a transition with a finality proof is unconfirmed first"),
    };
    match trusted {
        ConstructedVerifier::Trusted(_) => {}
        _ => panic!("confirmed"),
    }
}

/// A signal in the very first header needs no finality proof: its combined
/// proof is trusted at once.
#[test]
fn first_header_signal_is_immediate() {
    let set_proof = encode_validators(&validator_list());
    let genesis = sealed_header(0, 9, Some(set_proof));
    let mut mgr = EpochManager::new();
    let combined = mgr.is_epoch_end(&genesis).expect("the first header decides at once");
    let parts = destructure_proofs(&combined).expect("decodes");
    assert_eq!(parts.signal_number, 0);
    assert!(parts.finality_proof.is_empty());
    match epoch_verifier(&combined) {
        ConstructedVerifier::Trusted(_) => {}
        _ => panic!("an empty finality proof is trusted at once"),
    }
}

/// A malformed combined proof, or one whose validator list is invalid, is
/// rejected.
#[test]
fn epoch_verifier_rejects_bad_proofs() {
    match epoch_verifier(&vec![1, 2, 3]) {
        ConstructedVerifier::Rejected(_) => {}
        _ => panic!("garbage is rejected"),
    }
    // a set proof naming the same address twice is no validator set
    let bad_list = vec![
        Validator { address: 1, weight: 1 },
        Validator { address: 1, weight: 1 },
    ];
    let bad_proof = tendermint_core::codec::combine_proofs(
        5,
        &encode_validators(&bad_list),
        &vec![],
    );
    match epoch_verifier(&bad_proof) {
        ConstructedVerifier::Rejected(_) => {}
        _ => panic!("a duplicate validator is rejected"),
    }
}

/// Light verification checks the embedded precommits against the frozen
/// list: too few distinct signers fail.
#[test]
fn verify_light_requires_threshold() {
    let vals = ValidatorSet::new(validator_list()).expect("valid");
    let verifier = EpochVerifier::new(vals);
    let good = sealed_header(10, 777, None);
    assert!(verifier.verify_light(&good).is_ok());

    // only two precommits: under the threshold of three
    let precommit = VoteOn { height: 10, view: 0, step: Step::Precommit, target: VoteTarget::Block(778) };
    let weak_seal = Seal {
        view: 0,
        proposer_sig: Signature::sign(
            1,
            VoteOn { height: 10, view: 0, step: Step::Propose, target: VoteTarget::Block(778) },
        ),
        precommits: vec![Signature::sign(1, precommit), Signature::sign(2, precommit)],
    };
    let weak = Header {
        hash: 778,
        parent_hash: 0,
        number: 10,
        author: 1,
        extra_data: vec![],
        score: Some(1),
        seal: seal_to_fields(&weak_seal),
        epoch_signal: None,
    };
    assert!(verifier.verify_light(&weak).is_err());
}
