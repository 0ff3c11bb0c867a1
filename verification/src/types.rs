//! Core data types of the consensus protocol: steps, votes, signatures,
//! messages, seals, headers, and the engine's error kinds.
//!
//! Addresses and block hashes are plain 64-bit identifiers. A signature is
//! modelled as a recoverable object: recovery yields the signer address, and
//! the signature is valid over a vote exactly when it was produced for that
//! vote. This captures everything the protocol logic reads from the real
//! cryptography (who signed, and what they signed).

use vstd::prelude::*;

verus! {

/// Protocol step within a single (height, view) round.
#[derive(Clone, Copy, Debug, PartialEq, Eq, Structural)]
pub enum Step {
    Propose,
    Prevote,
    Precommit,
    Commit,
}

/// What a vote is cast for: a concrete block hash, or Nil (abstention on the
/// current proposal).
#[derive(Clone, Copy, Debug, PartialEq, Eq, Structural)]
pub enum VoteTarget {
    Nil,
    Block(u64),
}

impl VoteTarget {
    /// True when the vote abstains.
    pub fn is_nil(&self) -> (r: bool)
        ensures
            r == (*self == VoteTarget::Nil),
    {
        match self {
            VoteTarget::Nil => true,
            VoteTarget::Block(_) => false,
        }
    }
}

/// The subject of a vote: (height, view, step, target).
#[derive(Clone, Copy, Debug, PartialEq, Eq, Structural)]
pub struct VoteOn {
    pub height: u64,
    pub view: u64,
    pub step: Step,
    pub target: VoteTarget,
}

/// A recoverable signature over the canonical encoding of a `VoteOn`.
///
/// `signer` is the address recovery returns; `signed` is the vote the
/// signature was produced over. The signature is valid over a vote `v`
/// exactly when `signed == v`.
#[derive(Clone, Copy, Debug, PartialEq, Eq, Structural)]
pub struct Signature {
    pub signer: u64,
    pub signed: VoteOn,
}

impl Signature {
    /// Produce a signature by `signer` over `vote` (models signing with the
    /// signer's key).
    pub fn sign(signer: u64, vote: VoteOn) -> (r: Signature)
        ensures
            r.signer == signer,
            r.signed == vote,
    {
        Signature { signer, signed: vote }
    }

    /// True when this signature verifies over `vote`.
    pub fn is_valid_over(&self, vote: VoteOn) -> (r: bool)
        ensures
            r == (self.signed == vote),
    {
        self.signed == vote
    }
}

/// A signed consensus message: a vote together with its signature.
#[derive(Clone, Copy, Debug, PartialEq, Eq, Structural)]
pub struct ConsensusMessage {
    pub on: VoteOn,
    pub signature: Signature,
}

impl ConsensusMessage {
    /// The address that signed this message.
    pub open spec fn spec_signer(self) -> u64 {
        self.signature.signer
    }

    /// The signature matches the carried vote.
    pub open spec fn is_well_signed(self) -> bool {
        self.signature.signed == self.on
    }

    /// The address that signed this message.
    pub fn signer(&self) -> (r: u64)
        ensures
            r == self.spec_signer(),
    {
        self.signature.signer
    }

    /// Check that the signature verifies over the carried vote.
    pub fn verify(&self) -> (r: bool)
        ensures
            r == self.is_well_signed(),
    {
        self.signature.is_valid_over(self.on)
    }
}

/// The seal of a committed block: the view the proposal was made at, the
/// proposer's signature, and the ordered precommit signatures forming the
/// finality certificate.
#[derive(Clone, Debug, PartialEq, Eq)]
pub struct Seal {
    pub view: u64,
    pub proposer_sig: Signature,
    pub precommits: Vec<Signature>,
}

/// An epoch-transition proof: the height of the signal header, the
/// validator-set proof it carried, and the finality proof produced one
/// block later.
#[derive(Clone, Debug, PartialEq, Eq)]
pub struct CombinedProof {
    pub signal_number: u64,
    pub set_proof: Vec<u8>,
    pub finality_proof: Vec<u8>,
}

/// A block header, as the consensus core reads it: identifiers are plain
/// 64-bit values, the seal is a list of raw seal fields, and a header that
/// signals an epoch end carries the proof of the next validator set.
#[derive(Clone, Debug, PartialEq, Eq)]
pub struct Header {
    pub hash: u64,
    pub parent_hash: u64,
    pub number: u64,
    pub author: u64,
    pub extra_data: Vec<u8>,
    pub score: Option<u64>,
    pub seal: Vec<Vec<u8>>,
    pub epoch_signal: Option<Vec<u8>>,
}

/// The mathematical value of a header.
pub struct HeaderView {
    pub hash: u64,
    pub parent_hash: u64,
    pub number: u64,
    pub author: u64,
    pub extra_data: Seq<u8>,
    pub score: Option<u64>,
    pub seal: Seq<Seq<u8>>,
    pub epoch_signal: Option<Seq<u8>>,
}

impl View for Header {
    type V = HeaderView;

    open spec fn view(&self) -> HeaderView {
        HeaderView {
            hash: self.hash,
            parent_hash: self.parent_hash,
            number: self.number,
            author: self.author,
            extra_data: self.extra_data@,
            score: self.score,
            seal: Seq::new(self.seal@.len(), |i: int| self.seal@[i]@),
            epoch_signal: match self.epoch_signal {
                Some(ref p) => Some(p@),
                None => None,
            },
        }
    }
}

/// A lock on a block at a view: the memory that prevents a node from
/// voting for conflicting blocks across views of one height.
#[derive(Clone, Copy, Debug, PartialEq, Eq, Structural)]
pub struct LockInfo {
    pub view: u64,
    pub block: u64,
}

/// A (height, hash) pair naming a proposal block the worker has seen.
#[derive(Clone, Copy, Debug, PartialEq, Eq, Structural)]
pub struct ProposalId {
    pub number: u64,
    pub hash: u64,
}

/// A signed block proposal for (height, view). `valid_round` is the view
/// at which the proposer observed a polka for this block, if any.
#[derive(Clone, Copy, Debug, PartialEq, Eq)]
pub struct BlockProposal {
    pub height: u64,
    pub view: u64,
    pub block_hash: u64,
    pub valid_round: Option<u64>,
    pub signature: Signature,
}

impl BlockProposal {
    /// The vote subject a proposal signature covers.
    pub open spec fn spec_vote(self) -> VoteOn {
        VoteOn {
            height: self.height,
            view: self.view,
            step: Step::Propose,
            target: VoteTarget::Block(self.block_hash),
        }
    }

    /// The signature covers this proposal's own vote subject.
    pub open spec fn is_well_signed(self) -> bool {
        self.signature.signed == self.spec_vote()
    }
}

/// The consensus family this engine belongs to.
#[derive(Clone, Copy, Debug, PartialEq, Eq, Structural)]
pub enum EngineType {
    Pbft,
}

/// Error kinds surfaced to callers of the engine.
#[derive(Clone, Copy, Debug, PartialEq, Eq, Structural)]
pub enum EngineError {
    /// The signer is not in the current validator set.
    NotAuthorized,
    /// Wrong seal field count, bad signatures, or insufficient precommits.
    BadSeal,
    /// A second, conflicting vote from a signer; reported but non-fatal.
    DoubleVote,
    /// A message for a height or view outside the buffering window.
    UnexpectedMessage,
    /// A malformed validator-set proof or finality proof.
    EpochProofInvalid,
    /// A facade call after shutdown.
    EngineStopped,
}

} // verus!
