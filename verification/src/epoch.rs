//! Epoch transitions and finality-proof checking against a frozen
//! validator set.
//!
//! A header may signal the end of an epoch by carrying a proof of the next
//! validator set. The transition is finalized one block later by a combined
//! proof (signal height, validator-set proof, canonical encoding of the
//! signal header). An `EpochVerifier` holds the frozen set and checks that
//! a header's seal certifies it with a supermajority of precommits.

use vstd::prelude::*;

use crate::codec::{
    combine_proofs, decode_header, decode_sig_seq, decode_u64, decode_validators,
    destructure_proofs, encode_header, encode_sig_seq, encode_signature, encode_u64,
    spec_dec_combined, spec_dec_header, spec_dec_validators, spec_enc_combined, spec_enc_header,
    spec_enc_u64,
};
use crate::types::{EngineError, Header, Seal, Signature, Step, VoteOn, VoteTarget};
use crate::validator::{
    spec_threshold, spec_total_weight, valid_validator_seq, weight_among, ValidatorSet,
};

verus! {

/// What a header says about the end of the current epoch.
pub enum EpochChange {
    /// The epoch continues.
    No,
    /// The epoch ends at this header; the proof of the next validator set
    /// is carried along.
    Yes(Vec<u8>),
    /// The header alone cannot settle the question; a finality proof is
    /// needed first.
    WaitForFinality,
}

/// Does `header` signal an epoch end, and with what validator-set proof?
/// The first header of the chain decides immediately; a signal anywhere
/// later cannot be trusted until its finality proof exists one block on.
pub fn signals_epoch_end(first: bool, header: &Header) -> (r: EpochChange)
    ensures
        header@.epoch_signal is None ==> r is No,
        header@.epoch_signal matches Some(p) ==> (if first {
            r matches EpochChange::Yes(q) && q@ == p
        } else {
            r is WaitForFinality
        }),
{
    match &header.epoch_signal {
        None => EpochChange::No,
        Some(p) => {
            if first {
                EpochChange::Yes(p.clone())
            } else {
                EpochChange::WaitForFinality
            }
        }
    }
}

/// A transition waiting for its finality proof: the signal height, the
/// validator-set proof, and the canonical encoding of the signal header.
pub struct PendingTransition {
    pub signal_number: u64,
    pub set_proof: Vec<u8>,
    pub header_encoded: Vec<u8>,
}

/// Tracks the pending epoch transition across heads.
pub struct EpochManager {
    pub pending: Option<PendingTransition>,
}

/// The view of a pending transition.
pub struct PendingTransitionView {
    pub signal_number: u64,
    pub set_proof: Seq<u8>,
    pub header_encoded: Seq<u8>,
}

impl View for PendingTransition {
    type V = PendingTransitionView;

    open spec fn view(&self) -> PendingTransitionView {
        PendingTransitionView {
            signal_number: self.signal_number,
            set_proof: self.set_proof@,
            header_encoded: self.header_encoded@,
        }
    }
}

impl EpochManager {
    /// A manager with no pending transition.
    pub fn new() -> (r: EpochManager)
        ensures
            r.pending is None,
    {
        EpochManager { pending: None }
    }

    /// Advance over a new chain head.
    ///
    /// A signal at the first header produces its combined proof at once,
    /// with an empty finality proof. A later signal is only recorded: the
    /// combined proof — signal height, set proof, and the canonical
    /// encoding of the signal header — is produced when the next header
    /// arrives, and the pending slot is cleared.
    pub fn is_epoch_end(&mut self, chain_head: &Header) -> (r: Option<Vec<u8>>)
        ensures
            match old(self).pending {
                Some(p) => {
                    if chain_head@.epoch_signal is None && chain_head.number == p.signal_number
                        + 1 {
                        &&& r matches Some(out) && out@ == spec_enc_combined(
                            p.signal_number,
                            p@.set_proof,
                            p@.header_encoded,
                        )
                        &&& final(self).pending is None
                    } else {
                        true
                    }
                }
                None => true,
            },
            chain_head@.epoch_signal matches Some(sp) ==> {
                if chain_head.number == 0 {
                    &&& r matches Some(out) && out@ == spec_enc_combined(
                        chain_head.number,
                        sp,
                        Seq::empty(),
                    )
                    &&& final(self).pending == old(self).pending
                } else {
                    &&& r is None
                    &&& final(self).pending matches Some(p) && p.signal_number
                        == chain_head.number && p@.set_proof == sp && p@.header_encoded
                        == spec_enc_header(chain_head@)
                }
            },
            chain_head@.epoch_signal is None && !(old(self).pending matches Some(p)
                && chain_head.number == p.signal_number + 1) ==> r is None && final(self).pending
                == old(self).pending,
    {
        match &chain_head.epoch_signal {
            Some(sp) => {
                if chain_head.number == 0 {
                    let empty: Vec<u8> = Vec::new();
                    Some(combine_proofs(chain_head.number, sp, &empty))
                } else {
                    let encoded = encode_header(chain_head);
                    self.pending = Some(
                        PendingTransition {
                            signal_number: chain_head.number,
                            set_proof: sp.clone(),
                            header_encoded: encoded,
                        },
                    );
                    None
                }
            }
            None => {
                let hit = match &self.pending {
                    Some(p) => p.signal_number < u64::MAX && chain_head.number == p.signal_number
                        + 1,
                    None => false,
                };
                if hit {
                    let r = match &self.pending {
                        Some(p) => Some(
                            combine_proofs(p.signal_number, &p.set_proof, &p.header_encoded),
                        ),
                        None => None,
                    };
                    self.pending = None;
                    r
                } else {
                    None
                }
            }
        }
    }
}

/// The expected precommit vote a seal signature must cover.
pub open spec fn spec_precommit_vote(height: u64, seal_view: u64, block: u64) -> VoteOn {
    VoteOn { height, view: seal_view, step: Step::Precommit, target: VoteTarget::Block(block) }
}

/// The set of signer addresses of a signature sequence.
pub open spec fn spec_sig_signers(sigs: Seq<Signature>) -> Set<u64> {
    Set::new(|a: u64| exists|i: int| 0 <= i < sigs.len() && (#[trigger] sigs[i]).signer == a)
}

/// The precommit signatures certify block `block` at `height`: each is a
/// valid signature over the precommit vote at the seal's view, each signer
/// belongs to the validator set, the signers are strictly ascending (hence
/// distinct), and their combined weight reaches the threshold.
pub open spec fn seal_certifies(
    vals: ValidatorSet,
    height: u64,
    block: u64,
    seal_view: u64,
    precommits: Seq<Signature>,
) -> bool {
    &&& (forall|i: int|
        0 <= i < precommits.len() ==> (#[trigger] precommits[i]).signed == spec_precommit_vote(
            height,
            seal_view,
            block,
        ))
    &&& (forall|i: int|
        0 <= i < precommits.len() ==> vals.spec_contains((#[trigger] precommits[i]).signer))
    &&& (forall|i: int, j: int|
        0 <= i < j < precommits.len() ==> precommits[i].signer < precommits[j].signer)
    &&& weight_among(vals.spec_validators(), spec_sig_signers(precommits)) >= spec_threshold(
        spec_total_weight(vals.spec_validators()),
    )
}

/// Check whether `precommits` certifies `block` at `height` under `vals`.
#[verifier::loop_isolation(false)]
pub fn check_seal_certifies(
    vals: &ValidatorSet,
    height: u64,
    block: u64,
    seal_view: u64,
    precommits: &Vec<Signature>,
) -> (r: bool)
    requires
        vals.wf(),
    ensures
        r == seal_certifies(*vals, height, block, seal_view, precommits@),
{
    let n = precommits.len();
    let expected = VoteOn {
        height,
        view: seal_view,
        step: Step::Precommit,
        target: VoteTarget::Block(block),
    };
    let mut i: usize = 0;
    while i < n
        invariant
            0 <= i <= n,
            forall|p: int|
                0 <= p < i ==> (#[trigger] precommits@[p]).signed == spec_precommit_vote(
                    height,
                    seal_view,
                    block,
                ),
            forall|p: int| 0 <= p < i ==> vals.spec_contains((#[trigger] precommits@[p]).signer),
            forall|p: int, q: int| 0 <= p < q < i ==> precommits@[p].signer < precommits@[q].signer,
        decreases n - i,
    {
        let sig = precommits[i];
        if !(sig.signed == expected) {
            return false;
        }
        if !vals.contains(sig.signer) {
            return false;
        }
        if i > 0 {
            if !(precommits[i - 1].signer < sig.signer) {
                return false;
            }
            proof {
                assert forall|p: int, q: int|
                    0 <= p < q < i + 1 implies precommits@[p].signer < precommits@[q].signer by {
                    if q == i as int {
                        if p < i - 1 {
                            assert(precommits@[p].signer < precommits@[i - 1].signer);
                        }
                    }
                }
            }
        }
        i += 1;
    }
    // total signer weight
    let ghost signers = spec_sig_signers(precommits@);
    let nv = vals.len();
    let mut weight: u64 = 0;
    let mut k: usize = 0;
    while k < nv
        invariant
            0 <= k <= nv,
            weight == weight_among(vals.spec_validators().take(k as int), signers),
        decreases nv - k,
    {
        let v = vals.validator_at(k);
        proof {
            assert(vals.spec_validators().take(k + 1).drop_last() =~= vals.spec_validators().take(
                k as int,
            ));
            assert(vals.spec_validators().take(k + 1).last() == vals.spec_validators()[k as int]);
            crate::validator::lemma_weight_among_bounds(
                vals.spec_validators().take(k + 1),
                signers,
            );
            crate::validator::lemma_take_total_weight_le(vals.spec_validators(), k + 1);
            crate::validator::lemma_weight_among_bounds(
                vals.spec_validators().take(k as int),
                signers,
            );
        }
        if sig_seq_has_signer(precommits, v.address) {
            weight += v.weight;
        }
        k += 1;
    }
    proof {
        assert(vals.spec_validators().take(nv as int) =~= vals.spec_validators());
    }
    weight >= vals.threshold()
}

/// Whether some signature in `sigs` was made by `signer`.
fn sig_seq_has_signer(sigs: &Vec<Signature>, signer: u64) -> (r: bool)
    ensures
        r == spec_sig_signers(sigs@).contains(signer),
{
    let n = sigs.len();
    let mut i: usize = 0;
    while i < n
        invariant
            n == sigs@.len(),
            0 <= i <= n,
            forall|p: int| 0 <= p < i ==> (#[trigger] sigs@[p]).signer != signer,
        decreases n - i,
    {
        if sigs[i].signer == signer {
            proof {
                assert(sigs@[i as int].signer == signer);
            }
            return true;
        }
        i += 1;
    }
    false
}

/// Verifies headers against a frozen validator list.
pub struct EpochVerifier {
    pub validators: ValidatorSet,
}

impl EpochVerifier {
    /// A verifier over a frozen set.
    pub fn new(validators: ValidatorSet) -> (r: EpochVerifier)
        ensures
            r.validators == validators,
    {
        EpochVerifier { validators }
    }

    /// Light verification of a header: its embedded seal must carry a
    /// supermajority of valid precommits over the header's own hash from
    /// the frozen set. Succeeds exactly when the seal has its three fields,
    /// they decode, and the precommits certify the header.
    pub fn verify_light(&self, header: &Header) -> (r: Result<(), EngineError>)
        requires
            self.validators.wf(),
        ensures
            r is Ok <==> (header@.seal.len() == 3 && (spec_header_seal(header@)
                matches Some(seal_parts) && seal_certifies(
                self.validators,
                header.number,
                header.hash,
                seal_parts.0,
                seal_parts.1,
            ))),
            r matches Err(e) ==> e == EngineError::BadSeal,
    {
        match seal_from_header(header) {
            Some(seal) => {
                if check_seal_certifies(
                    &self.validators,
                    header.number,
                    header.hash,
                    seal.view,
                    &seal.precommits,
                ) {
                    Ok(())
                } else {
                    Err(EngineError::BadSeal)
                }
            }
            None => Err(EngineError::BadSeal),
        }
    }

    /// Check a finality proof: the canonical encoding of a header whose
    /// seal certifies it under the frozen set.
    pub fn check_finality_proof(&self, proof_bytes: &Vec<u8>) -> (r: Result<(), EngineError>)
        requires
            self.validators.wf(),
        ensures
            r is Ok <==> (spec_dec_header(proof_bytes@, 0) matches Some((h, _))
                && h.seal.len() == 3 && (spec_header_seal(h) matches Some(seal_parts)
                && seal_certifies(
                self.validators,
                h.number,
                h.hash,
                seal_parts.0,
                seal_parts.1,
            ))),
            r matches Err(e) ==> e == EngineError::BadSeal,
    {
        match decode_header(proof_bytes, 0) {
            Some((header, _end)) => self.verify_light(&header),
            None => Err(EngineError::BadSeal),
        }
    }
}

/// The seal parts carried by a header's three seal fields: the view from
/// the first field, the proposer signature from the second, the precommits
/// from the third. `None` when the fields are absent or malformed.
pub open spec fn spec_header_seal(h: crate::types::HeaderView) -> Option<(u64, Seq<Signature>)> {
    if h.seal.len() != 3 {
        None
    } else {
        match crate::codec::spec_dec_u64(h.seal[0], 0) {
            Some((view, e0)) => {
                if e0 != h.seal[0].len() {
                    None
                } else {
                    match crate::codec::spec_dec_signature(h.seal[1], 0) {
                        Some((_psig, e1)) => {
                            if e1 != h.seal[1].len() {
                                None
                            } else {
                                match crate::codec::spec_dec_u64(h.seal[2], 0) {
                                    Some((count, p)) => match crate::codec::spec_dec_sig_seq(
                                        h.seal[2],
                                        p,
                                        count as nat,
                                    ) {
                                        Some((sigs, e2)) => {
                                            if e2 != h.seal[2].len() {
                                                None
                                            } else {
                                                Some((view, sigs))
                                            }
                                        }
                                        None => None,
                                    },
                                    None => None,
                                }
                            }
                        }
                        None => None,
                    }
                }
            }
            None => None,
        }
    }
}

/// Decode the three seal fields of a header into a seal.
pub fn seal_from_header(header: &Header) -> (r: Option<Seal>)
    ensures
        match r {
            Some(seal) => spec_header_seal(header@) matches Some(parts) && parts.0 == seal.view
                && parts.1 == seal.precommits@,
            None => spec_header_seal(header@) is None,
        },
{
    if header.seal.len() != 3 {
        return None;
    }
    let f0 = &header.seal[0];
    let f1 = &header.seal[1];
    let f2 = &header.seal[2];
    proof {
        assert(header@.seal[0] == f0@);
        assert(header@.seal[1] == f1@);
        assert(header@.seal[2] == f2@);
    }
    let (view, e0) = match decode_u64(f0, 0) {
        Some(x) => x,
        None => {
            return None;
        }
    };
    if e0 != f0.len() {
        return None;
    }
    let (proposer_sig, e1) = match crate::codec::decode_signature(f1, 0) {
        Some(x) => x,
        None => {
            return None;
        }
    };
    if e1 != f1.len() {
        return None;
    }
    let (count, p) = match decode_u64(f2, 0) {
        Some(x) => x,
        None => {
            return None;
        }
    };
    let (precommits, e2) = match decode_sig_seq(f2, p, count) {
        Some(x) => x,
        None => {
            return None;
        }
    };
    if e2 != f2.len() {
        return None;
    }
    Some(Seal { view, proposer_sig, precommits })
}

/// Build the three seal fields a sealed header carries from a seal.
pub fn seal_to_fields(seal: &Seal) -> (r: Vec<Vec<u8>>)
    ensures
        r@.len() == 3,
        r@[0]@ == spec_enc_u64(seal.view),
        r@[1]@ == crate::codec::spec_enc_signature(seal.proposer_sig),
        r@[2]@ == spec_enc_u64(seal.precommits@.len() as u64) + crate::codec::spec_enc_sig_seq(
            seal.precommits@,
        ),
{
    let mut f0: Vec<u8> = Vec::new();
    encode_u64(&mut f0, seal.view);
    let mut f1: Vec<u8> = Vec::new();
    encode_signature(&mut f1, seal.proposer_sig);
    let mut f2: Vec<u8> = Vec::new();
    encode_u64(&mut f2, seal.precommits.len() as u64);
    encode_sig_seq(&mut f2, &seal.precommits);
    let mut r: Vec<Vec<u8>> = Vec::new();
    r.push(f0);
    r.push(f1);
    r.push(f2);
    r
}

/// The engine-facing constructed verifier: trusted at once, or waiting on
/// a finality proof, or a rejection of the combined proof.
pub enum ConstructedVerifier {
    Trusted(EpochVerifier),
    Unconfirmed(EpochVerifier, Vec<u8>),
    Rejected(EngineError),
}

/// Build an epoch verifier from a combined proof. The set proof must
/// decode into a well-formed validator list; the transition is trusted at
/// once exactly when the finality proof is empty, and otherwise waits for
/// it.
pub fn epoch_verifier(proof_bytes: &Vec<u8>) -> (r: ConstructedVerifier)
    ensures
        match r {
            ConstructedVerifier::Trusted(v) => v.validators.wf(),
            ConstructedVerifier::Unconfirmed(v, f) => v.validators.wf() && f@.len() > 0,
            ConstructedVerifier::Rejected(e) => e == EngineError::EpochProofInvalid,
        },
        spec_dec_combined(proof_bytes@, 0) is None ==> r is Rejected,
        spec_dec_combined(proof_bytes@, 0) matches Some((parts, _)) ==> (match spec_dec_validators(
            parts.1,
            0,
        ) {
            None => r is Rejected,
            Some((list, _end)) => {
                if !valid_validator_seq(list) {
                    r is Rejected
                } else if parts.2.len() == 0 {
                    r matches ConstructedVerifier::Trusted(v) && v.validators.spec_validators()
                        == list
                } else {
                    r matches ConstructedVerifier::Unconfirmed(v, f)
                        && v.validators.spec_validators() == list && f@ == parts.2
                }
            }
        }),
{
    let parts = match destructure_proofs(proof_bytes) {
        Some(x) => x,
        None => {
            return ConstructedVerifier::Rejected(EngineError::EpochProofInvalid);
        }
    };
    let list = match decode_validators(&parts.set_proof) {
        Some(x) => x,
        None => {
            return ConstructedVerifier::Rejected(EngineError::EpochProofInvalid);
        }
    };
    let vals = match ValidatorSet::new(list) {
        Some(x) => x,
        None => {
            return ConstructedVerifier::Rejected(EngineError::EpochProofInvalid);
        }
    };
    let verifier = EpochVerifier::new(vals);
    if parts.finality_proof.len() == 0 {
        ConstructedVerifier::Trusted(verifier)
    } else {
        ConstructedVerifier::Unconfirmed(verifier, parts.finality_proof)
    }
}

} // verus!
