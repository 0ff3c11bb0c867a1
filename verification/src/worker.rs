//! The consensus state machine: Propose → Prevote → Precommit → Commit.
//!
//! The worker owns the vote collector, reads from the validator set, arms
//! timers through tokens, and reacts to proposals, votes and timeouts by
//! mutating its state and emitting effects: votes and proposals to gossip,
//! timers to arm, seals to submit. The surrounding node performs the
//! effects; the worker never blocks.

use vstd::prelude::*;

use crate::collector::{in_slot, sourced_sig, vote_matches, voters_of, VoteCollector, VoteResult};
use crate::epoch::{check_seal_certifies, seal_certifies, seal_from_header, spec_header_seal, spec_sig_signers};
use crate::timeout::{spec_timeout, TimeoutParams};
use crate::types::{
    BlockProposal, ConsensusMessage, EngineError, Header, LockInfo, ProposalId, Seal, Signature,
    Step, VoteOn, VoteTarget,
};
use crate::validator::{spec_threshold, spec_total_weight, weight_among, ValidatorSet};

verus! {

/// The number of votes for future heights the worker will hold.
pub const FUTURE_VOTE_CAP: usize = 1024;

/// An effect the surrounding node must perform for the worker.
pub enum Effect {
    /// Gossip a signed vote of our own.
    BroadcastVote(ConsensusMessage),
    /// Gossip a signed proposal of our own.
    BroadcastProposal(BlockProposal),
    /// Ask the miner to produce a fresh proposal block on the current head.
    RequestProposalBlock,
    /// Arm the step timer: deliver `token` back after `duration`.
    ArmTimer { token: u64, duration: u64 },
    /// A block gathered a threshold of precommits: hand its seal to the
    /// chain for import.
    SubmitSeal { block_hash: u64, seal: Seal },
    /// Tell the chain-notify sink that a block is final.
    NotifyCommit { block_hash: u64 },
}

/// The effects appended to `before` to reach `after` contain no seal
/// submission.
pub open spec fn no_seal_effects_added(before: Seq<Effect>, after: Seq<Effect>) -> bool {
    forall|i: int|
        before.len() <= i < after.len() ==> !((#[trigger] after[i]) matches Effect::SubmitSeal {
            ..
        })
}

/// Every seal submission among the effects is drawn from the counted
/// votes: its precommit signatures are exactly the counted precommits for
/// its block at its view — no more, no fewer — and that (block, view)
/// reached the threshold among the counted votes.
pub open spec fn seal_effects_bound_to_counted(
    vals: ValidatorSet,
    height: u64,
    counted: Seq<ConsensusMessage>,
    effects: Seq<Effect>,
) -> bool {
    forall|i: int|
        0 <= i < effects.len() ==> ((#[trigger] effects[i]) matches Effect::SubmitSeal {
            block_hash,
            seal,
        } ==> {
            &&& (forall|p: int|
                0 <= p < seal.precommits@.len() ==> sourced_sig(
                    counted,
                    counted.len() as int,
                    height,
                    seal.view,
                    Step::Precommit,
                    VoteTarget::Block(block_hash),
                    #[trigger] seal.precommits@[p],
                ))
            &&& (forall|k: int|
                0 <= k < counted.len() && vote_matches(
                    #[trigger] counted[k],
                    height,
                    seal.view,
                    Step::Precommit,
                    VoteTarget::Block(block_hash),
                ) ==> seal.precommits@.contains(counted[k].signature))
            &&& weight_among(
                vals.spec_validators(),
                voters_of(counted, height, seal.view, Step::Precommit, VoteTarget::Block(block_hash)),
            ) >= spec_threshold(spec_total_weight(vals.spec_validators()))
        })
}

/// The proposals at heights not below `keep_from`, in order: what survives
/// a height advance.
pub open spec fn retained_proposals(s: Seq<ProposalId>, keep_from: u64) -> Seq<ProposalId>
    decreases s.len(),
{
    if s.len() == 0 {
        s
    } else {
        let rest = retained_proposals(s.drop_last(), keep_from);
        if s.last().number >= keep_from {
            rest.push(s.last())
        } else {
            rest
        }
    }
}

/// Some effect in the sequence submits a seal.
pub open spec fn has_seal_effect(effects: Seq<Effect>) -> bool {
    exists|i: int|
        0 <= i < effects.len() && (#[trigger] effects[i]) matches Effect::SubmitSeal { .. }
}

/// A lock may only advance within a height: once set it never clears and
/// its view never goes backward.
pub open spec fn lock_advances(before: Option<LockInfo>, after: Option<LockInfo>) -> bool {
    match before {
        None => true,
        Some(l) => after matches Some(l2) && l2.view >= l.view,
    }
}

/// Some counted vote by `signer` at `(height, view, step)` exists in `s`.
pub open spec fn has_counted_in(
    s: Seq<ConsensusMessage>,
    signer: u64,
    height: u64,
    view: u64,
    step: Step,
) -> bool {
    exists|i: int| 0 <= i < s.len() && in_slot(#[trigger] s[i], signer, height, view, step)
}

/// The message `signer` produces for the vote (height, view, step, target).
pub open spec fn signed_by(me: u64, height: u64, view: u64, step: Step, target: VoteTarget) -> ConsensusMessage {
    let vote = VoteOn { height, view, step, target };
    ConsensusMessage { on: vote, signature: Signature { signer: me, signed: vote } }
}

/// The effects include gossiping exactly `msg`.
pub open spec fn broadcasts_vote(effects: Seq<Effect>, msg: ConsensusMessage) -> bool {
    exists|i: int|
        0 <= i < effects.len() && ((#[trigger] effects[i]) matches Effect::BroadcastVote(m) && m
            == msg)
}

/// The effects include gossiping a proposal with exactly these fields,
/// signed by `me` over the proposal's own vote subject.
pub open spec fn broadcasts_proposal(
    effects: Seq<Effect>,
    me: u64,
    height: u64,
    view: u64,
    block_hash: u64,
    valid_round: Option<u64>,
) -> bool {
    exists|i: int|
        0 <= i < effects.len() && ((#[trigger] effects[i]) matches Effect::BroadcastProposal(p) && p
            == (BlockProposal {
            height,
            view,
            block_hash,
            valid_round,
            signature: Signature {
                signer: me,
                signed: VoteOn { height, view, step: Step::Propose, target: VoteTarget::Block(block_hash) },
            },
        }))
}

/// The effects include a request for a fresh proposal block.
pub open spec fn requests_block(effects: Seq<Effect>) -> bool {
    exists|i: int|
        0 <= i < effects.len() && (#[trigger] effects[i]) matches Effect::RequestProposalBlock
}

/// The counted votes either stand, or grew by one well-signed vote of this
/// node's own signer.
pub open spec fn counted_grew_by_own(
    pre: Seq<ConsensusMessage>,
    post: Seq<ConsensusMessage>,
    signer: Option<u64>,
) -> bool {
    post == pre || (signer matches Some(me) && (exists|own: ConsensusMessage|
        own.spec_signer() == me && own.is_well_signed() && post == #[trigger] pre.push(own)))
}

/// After counting `m`, the counted votes are the old ones plus `m`,
/// possibly followed by one further vote this node cast itself in
/// reaction.
pub open spec fn counted_extended(
    pre: Seq<ConsensusMessage>,
    post: Seq<ConsensusMessage>,
    m: ConsensusMessage,
    signer: Option<u64>,
) -> bool {
    counted_grew_by_own(pre.push(m), post, signer)
}

/// Every field of the worker except the vote collector and the
/// future-vote buffer is unchanged.
pub open spec fn same_round_state(pre: Worker, post: Worker) -> bool {
    &&& post.validators == pre.validators
    &&& post.height == pre.height
    &&& post.view == pre.view
    &&& post.step == pre.step
    &&& post.locked == pre.locked
    &&& post.valid_locked == pre.valid_locked
    &&& post.proposal == pre.proposal
    &&& post.proposal_signature == pre.proposal_signature
    &&& post.proposals == pre.proposals
    &&& post.signer == pre.signer
    &&& post.allowed_height == pre.allowed_height
    &&& post.timeouts == pre.timeouts
    &&& post.timer_counter == pre.timer_counter
    &&& post.armed_token == pre.armed_token
    &&& post.block_reward == pre.block_reward
}

/// The Propose entry of a round (spec of entering (height, view)): the
/// propose timer is armed first; the round's proposer either re-proposes
/// its valid-locked block (and prevotes it, moving to Prevote) or asks the
/// miner for a fresh block; everyone else waits in Propose.
pub open spec fn propose_entry(pre: Worker, post: Worker, added: Seq<Effect>) -> bool {
    let prop = pre.validators.spec_proposer(pre.height, pre.view);
    &&& added.len() >= 1
    &&& (added[0] matches Effect::ArmTimer { token, duration } && duration == spec_timeout(
        pre.timeouts,
        Step::Propose,
        pre.view,
    ))
    &&& match pre.signer {
        Some(me) => {
            if me == prop {
                match pre.valid_locked {
                    Some(l) => {
                        &&& post.step == Step::Prevote
                        &&& post.proposal == Some(l.block)
                        &&& broadcasts_proposal(added, me, pre.height, pre.view, l.block, Some(l.view))
                        &&& (pre.validators.spec_contains(me) && !has_counted_in(
                            pre.votes.spec_counted(),
                            me,
                            pre.height,
                            pre.view,
                            Step::Prevote,
                        ) ==> broadcasts_vote(
                            added,
                            signed_by(me, pre.height, pre.view, Step::Prevote, VoteTarget::Block(l.block)),
                        ))
                    }
                    None => {
                        &&& post.step == Step::Propose
                        &&& post.proposal is None
                        &&& requests_block(added)
                    }
                }
            } else {
                post.step == Step::Propose && post.proposal is None
            }
        }
        None => post.step == Step::Propose && post.proposal is None,
    }
}

/// The prevote a node casts on an accepted proposal: the proposed block,
/// unless a lock on a different block that the proposal's valid round does
/// not release forbids it — then Nil.
pub open spec fn spec_prevote_target(locked: Option<LockInfo>, p: BlockProposal) -> VoteTarget {
    match locked {
        None => VoteTarget::Block(p.block_hash),
        Some(l) => {
            if l.block == p.block_hash || (p.valid_round matches Some(vr) && l.view <= vr) {
                VoteTarget::Block(p.block_hash)
            } else {
                VoteTarget::Nil
            }
        }
    }
}

/// The proposal's valid-round claim checks against this worker's counted
/// prevotes: absent, or naming an earlier view that had a polka for the
/// proposed block.
pub open spec fn valid_round_checks(w: Worker, p: BlockProposal) -> bool {
    match p.valid_round {
        None => true,
        Some(vr) => vr < p.view && weight_among(
            w.validators.spec_validators(),
            voters_of(w.votes.spec_counted(), p.height, vr, Step::Prevote, VoteTarget::Block(p.block_hash)),
        ) >= spec_threshold(spec_total_weight(w.validators.spec_validators())),
    }
}

/// The full outcome a vote delivery owes: the authorization and double-vote
/// biconditionals, the exact handling of stale, future and duplicate
/// votes, the counting of a fresh vote, the polka and commit obligations,
/// the certification of every emitted seal, and the height advance a seal
/// implies.
pub open spec fn vote_outcome(
    pre: Worker,
    m: ConsensusMessage,
    res: Result<(), EngineError>,
    post: Worker,
    effects: Seq<Effect>,
) -> bool {
    let authorized = m.is_well_signed() && pre.validators.spec_contains(m.spec_signer());
    let vals = pre.validators.spec_validators();
    let thresh = spec_threshold(spec_total_weight(vals));
    let counted1 = pre.votes.spec_counted().push(m);
    &&& post.validators == pre.validators
    &&& seal_effects_certified(pre.validators, pre.height, effects)
    &&& seal_effects_bound_to_counted(pre.validators, pre.height, counted1, effects)
    &&& (has_seal_effect(effects) ==> {
        &&& pre.height < u64::MAX
        &&& post.height == pre.height + 1
        &&& post.view == 0
        &&& post.locked is None
        &&& post.valid_locked is None
        &&& post.allowed_height == post.height
        &&& post.proposals@ == retained_proposals(pre.proposals@, post.height)
    })
    &&& (!has_seal_effect(effects) ==> post.height == pre.height && post.view == pre.view
        && post.allowed_height == pre.allowed_height)
    &&& (post.height == pre.height ==> lock_advances(pre.locked, post.locked))
    &&& (!authorized <==> res == Err::<(), EngineError>(EngineError::NotAuthorized))
    &&& (!authorized ==> post == pre && effects.len() == 0)
    &&& (authorized && m.on.height > pre.height ==> {
        &&& res is Ok
        &&& effects.len() == 0
        &&& same_round_state(pre, post)
        &&& post.votes == pre.votes
        &&& post.future_votes@ == (if pre.future_votes@.len() < FUTURE_VOTE_CAP {
            pre.future_votes@.push(m)
        } else {
            pre.future_votes@
        })
    })
    &&& (authorized && m.on.height < pre.height ==> res is Ok && post == pre && effects.len() == 0)
    &&& (res == Err::<(), EngineError>(EngineError::DoubleVote) <==> (authorized && m.on.height
        == pre.height && (exists|i: int|
        0 <= i < pre.votes.spec_counted().len() && crate::collector::same_slot(
            #[trigger] pre.votes.spec_counted()[i],
            m,
        ) && pre.votes.spec_counted()[i] != m)))
    &&& (res == Err::<(), EngineError>(EngineError::DoubleVote) ==> {
        &&& same_round_state(pre, post)
        &&& post.future_votes == pre.future_votes
        &&& post.votes.spec_counted() == pre.votes.spec_counted()
        &&& post.votes.spec_evidence() == pre.votes.spec_evidence().push(m)
        &&& effects.len() == 0
    })
    &&& (authorized && m.on.height == pre.height && pre.votes.spec_counted().contains(m) ==> res
        is Ok && post == pre && effects.len() == 0)
    &&& (authorized && m.on.height == pre.height && !pre.votes.spec_has_counted(
        m.spec_signer(),
        m.on.height,
        m.on.view,
        m.on.step,
    ) ==> {
        &&& res is Ok
        &&& (!has_seal_effect(effects) ==> counted_extended(
            pre.votes.spec_counted(),
            post.votes.spec_counted(),
            m,
            pre.signer,
        ))
        &&& (m.on.step == Step::Prevote && m.on.view <= pre.view && weight_among(
            vals,
            voters_of(counted1, pre.height, m.on.view, Step::Prevote, m.on.target),
        ) >= thresh ==> polka_outcome(pre, m, post, effects, counted1))
        &&& (match m.on.target {
            VoteTarget::Block(b) => (m.on.step == Step::Precommit && pre.step != Step::Commit
                && pre.height < u64::MAX && weight_among(
                vals,
                voters_of(counted1, pre.height, m.on.view, Step::Precommit, VoteTarget::Block(b)),
            ) >= thresh) ==> has_seal_effect(effects),
            VoteTarget::Nil => true,
        })
    })
}

/// What a completed polka at `(pre.height, m.on.view)` for `m.on.target`
/// obliges: the valid lock records the highest polka view; at the current
/// view in Prevote on that very proposal, the node locks, precommits the
/// block and moves to Precommit; a Nil polka at the current view in
/// Prevote moves to Precommit with a Nil precommit.
pub open spec fn polka_outcome(
    pre: Worker,
    m: ConsensusMessage,
    post: Worker,
    effects: Seq<Effect>,
    counted1: Seq<ConsensusMessage>,
) -> bool {
    match m.on.target {
        VoteTarget::Block(b) => {
            &&& post.valid_locked == (match pre.valid_locked {
                Some(o) => if o.view <= m.on.view {
                    Some(LockInfo { view: m.on.view, block: b })
                } else {
                    Some(o)
                },
                None => Some(LockInfo { view: m.on.view, block: b }),
            })
            &&& (m.on.view == pre.view && pre.step == Step::Prevote && pre.proposal == Some(b)
                ==> {
                &&& post.step == Step::Precommit
                &&& post.locked == Some(LockInfo { view: pre.view, block: b })
                &&& (match pre.signer {
                    Some(me) => (pre.validators.spec_contains(me) && !has_counted_in(
                        counted1,
                        me,
                        pre.height,
                        pre.view,
                        Step::Precommit,
                    )) ==> broadcasts_vote(
                        effects,
                        signed_by(me, pre.height, pre.view, Step::Precommit, VoteTarget::Block(b)),
                    ),
                    None => true,
                })
            })
        }
        VoteTarget::Nil => {
            m.on.view == pre.view && pre.step == Step::Prevote ==> {
                &&& post.step == Step::Precommit
                &&& (match pre.signer {
                    Some(me) => (pre.validators.spec_contains(me) && !has_counted_in(
                        counted1,
                        me,
                        pre.height,
                        pre.view,
                        Step::Precommit,
                    )) ==> broadcasts_vote(
                        effects,
                        signed_by(me, pre.height, pre.view, Step::Precommit, VoteTarget::Nil),
                    ),
                    None => true,
                })
            }
        }
    }
}

/// The Tendermint consensus worker.
pub struct Worker {
    pub validators: ValidatorSet,
    pub votes: VoteCollector,
    pub height: u64,
    pub view: u64,
    pub step: Step,
    pub locked: Option<LockInfo>,
    pub valid_locked: Option<LockInfo>,
    pub proposal: Option<u64>,
    pub proposal_signature: Option<Signature>,
    pub proposals: Vec<ProposalId>,
    pub future_votes: Vec<ConsensusMessage>,
    pub signer: Option<u64>,
    pub allowed_height: u64,
    pub timeouts: TimeoutParams,
    pub timer_counter: u64,
    pub armed_token: u64,
    pub block_reward: u64,
}

impl Worker {
    /// Every counted vote went through verification: its signature covers
    /// its vote and its signer is a validator.
    pub open spec fn votes_ok(self) -> bool {
        forall|i: int|
            0 <= i < self.votes.spec_counted().len() ==> {
                &&& (#[trigger] self.votes.spec_counted()[i]).is_well_signed()
                &&& self.validators.spec_contains(self.votes.spec_counted()[i].spec_signer())
            }
    }

    /// Locks always refer to the current height's past or present views.
    pub open spec fn locks_current(self) -> bool {
        &&& (self.locked matches Some(l) ==> l.view <= self.view)
        &&& (self.valid_locked matches Some(l) ==> l.view <= self.view)
    }

    /// Well-formedness, preserved by every handler.
    pub open spec fn wf(self) -> bool {
        &&& self.validators.wf()
        &&& self.votes.wf()
        &&& self.votes_ok()
        &&& self.locks_current()
    }

    /// A fresh worker at `start_height`, at view 0 in the Propose step,
    /// with no locks and nothing proposed.
    pub fn new(
        validators: ValidatorSet,
        timeouts: TimeoutParams,
        start_height: u64,
        block_reward: u64,
    ) -> (r: Worker)
        requires
            validators.wf(),
        ensures
            r.wf(),
            r.height == start_height,
            r.view == 0,
            r.step == Step::Propose,
            r.locked is None,
            r.valid_locked is None,
            r.proposal is None,
            r.signer is None,
            r.allowed_height == start_height,
            r.validators == validators,
            r.block_reward == block_reward,
            r.votes.spec_counted().len() == 0,
            r.votes.spec_evidence().len() == 0,
            r.proposals@.len() == 0,
            r.future_votes@.len() == 0,
            r.timeouts == timeouts,
            r.timer_counter == 0,
            r.armed_token == 0,
    {
        Worker {
            validators,
            votes: VoteCollector::new(),
            height: start_height,
            view: 0,
            step: Step::Propose,
            locked: None,
            valid_locked: None,
            proposal: None,
            proposal_signature: None,
            proposals: Vec::new(),
            future_votes: Vec::new(),
            signer: None,
            allowed_height: start_height,
            timeouts,
            timer_counter: 0,
            armed_token: 0,
            block_reward,
        }
    }

    /// Install the signing address. The engine participates once a signer
    /// is set.
    pub fn set_signer(&mut self, address: u64)
        requires
            old(self).wf(),
        ensures
            final(self).wf(),
            final(self).signer == Some(address),
            final(self).votes == old(self).votes,
            final(self).height == old(self).height,
    {
        self.signer = Some(address);
    }

    /// Whether this node seals internally: true once a signer is set.
    pub fn has_signer(&self) -> (r: bool)
        ensures
            r == (self.signer is Some),
    {
        match self.signer {
            Some(_) => true,
            None => false,
        }
    }

    /// The consensus family of this engine.
    pub fn engine_type(&self) -> (r: crate::types::EngineType)
        ensures
            r == crate::types::EngineType::Pbft,
    {
        crate::types::EngineType::Pbft
    }

    /// A seal this node produced locally needs no further verification.
    pub fn verify_local_seal(&self, _header: &Header) -> (r: Result<(), EngineError>)
        ensures
            r is Ok,
    {
        Ok(())
    }

    /// The number of seal fields of every sealed header.
    pub fn seal_fields(&self) -> (r: usize)
        ensures
            r == 3,
    {
        3
    }

    /// Finality is absolute: one confirmation suffices.
    pub fn recommended_confirmation(&self) -> (r: u32)
        ensures
            r == 1,
    {
        1
    }

    /// The fixed reward paid to a block's author.
    pub fn block_reward(&self) -> (r: u64)
        ensures
            r == self.block_reward,
    {
        self.block_reward
    }

    /// The fork-choice weight of a block: a deterministic function of the
    /// height alone, decreasing so that the first chain to a height wins.
    pub fn calculate_score(&self, block_number: u64) -> (r: u64)
        ensures
            r == u64::MAX - block_number,
    {
        u64::MAX - block_number
    }

    /// Whether the worker knows a proposal block (number, hash).
    pub fn is_proposal(&self, block_number: u64, block_hash: u64) -> (r: bool)
        ensures
            r == self.proposals@.contains(ProposalId { number: block_number, hash: block_hash }),
    {
        let n = self.proposals.len();
        let mut i: usize = 0;
        while i < n
            invariant
                n == self.proposals@.len(),
                0 <= i <= n,
                forall|p: int|
                    0 <= p < i ==> self.proposals@[p] != (ProposalId {
                        number: block_number,
                        hash: block_hash,
                    }),
            decreases n - i,
        {
            let q = self.proposals[i];
            if q.number == block_number && q.hash == block_hash {
                proof {
                    assert(self.proposals@[i as int] == ProposalId {
                        number: block_number,
                        hash: block_hash,
                    });
                }
                return true;
            }
            i += 1;
        }
        false
    }

    /// A header may become the canonical head only at or above the height
    /// the worker has committed to.
    pub fn can_change_canon_chain(&self, header_number: u64) -> (r: bool)
        ensures
            r == (header_number >= self.allowed_height),
    {
        header_number >= self.allowed_height
    }

    /// The proposer of (height, view) under the current set.
    pub fn proposer_at(&self, height: u64, view: u64) -> (r: u64)
        requires
            self.wf(),
        ensures
            r == self.validators.spec_address_at(self.validators.spec_proposer_index(height, view)),
    {
        self.validators.proposer(height, view)
    }

    /// Arm the timer for the current step: invalidates every earlier token
    /// and emits the new one with its backoff duration.
    fn arm_timer(&mut self, effects: &mut Vec<Effect>)
        requires
            old(self).wf(),
        ensures
            final(self).wf(),
            final(self).timer_counter == (if old(self).timer_counter < u64::MAX {
                old(self).timer_counter + 1
            } else {
                old(self).timer_counter as int
            }),
            final(self).armed_token == final(self).timer_counter,
            final(self).votes == old(self).votes,
            final(self).height == old(self).height,
            final(self).view == old(self).view,
            final(self).step == old(self).step,
            final(self).locked == old(self).locked,
            final(self).valid_locked == old(self).valid_locked,
            final(self).proposal == old(self).proposal,
            final(self).proposal_signature == old(self).proposal_signature,
            final(self).proposals == old(self).proposals,
            final(self).future_votes == old(self).future_votes,
            final(self).signer == old(self).signer,
            final(self).validators == old(self).validators,
            final(self).allowed_height == old(self).allowed_height,
            final(self).timeouts == old(self).timeouts,
            final(self).block_reward == old(self).block_reward,
            final(effects)@ == old(effects)@.push(
                Effect::ArmTimer {
                    token: final(self).armed_token,
                    duration: spec_timeout(old(self).timeouts, old(self).step, old(self).view) as u64,
                },
            ),
            final(effects)@.len() == old(effects)@.len() + 1,
            forall|i: int|
                0 <= i < old(effects)@.len() ==> final(effects)@[i] == old(effects)@[i],
            !(final(effects)@.last() matches Effect::SubmitSeal { .. }),
    {
        if self.timer_counter < u64::MAX {
            self.timer_counter = self.timer_counter + 1;
        }
        self.armed_token = self.timer_counter;
        let duration = self.timeouts.timeout_for(self.step, self.view);
        effects.push(Effect::ArmTimer { token: self.armed_token, duration });
    }

    /// Sign, count and gossip our own vote, when we are a validator with a
    /// signer installed.
    fn cast_own_vote(&mut self, step: Step, target: VoteTarget, effects: &mut Vec<Effect>)
        requires
            old(self).wf(),
        ensures
            final(self).wf(),
            final(self).height == old(self).height,
            final(self).view == old(self).view,
            final(self).step == old(self).step,
            final(self).locked == old(self).locked,
            final(self).valid_locked == old(self).valid_locked,
            final(self).proposal == old(self).proposal,
            final(self).proposal_signature == old(self).proposal_signature,
            final(self).proposals == old(self).proposals,
            final(self).future_votes == old(self).future_votes,
            final(self).signer == old(self).signer,
            final(self).validators == old(self).validators,
            final(self).timer_counter == old(self).timer_counter,
            final(self).armed_token == old(self).armed_token,
            final(self).allowed_height == old(self).allowed_height,
            final(self).timeouts == old(self).timeouts,
            final(self).block_reward == old(self).block_reward,
            forall|i: int|
                0 <= i < old(effects)@.len() ==> final(effects)@[i] == old(effects)@[i],
            final(effects)@.len() >= old(effects)@.len(),
            no_seal_effects_added(old(effects)@, final(effects)@),
            counted_grew_by_own(
                old(self).votes.spec_counted(),
                final(self).votes.spec_counted(),
                old(self).signer,
            ),
            match old(self).signer {
                Some(me) => {
                    if old(self).validators.spec_contains(me) && !has_counted_in(
                        old(self).votes.spec_counted(),
                        me,
                        old(self).height,
                        old(self).view,
                        step,
                    ) {
                        &&& final(self).votes.spec_counted() == old(
                            self,
                        ).votes.spec_counted().push(
                            signed_by(me, old(self).height, old(self).view, step, target),
                        )
                        &&& final(effects)@ == old(effects)@.push(
                            Effect::BroadcastVote(
                                signed_by(me, old(self).height, old(self).view, step, target),
                            ),
                        )
                    } else {
                        &&& final(self).votes.spec_counted() == old(self).votes.spec_counted()
                        &&& final(effects)@ == old(effects)@
                    }
                }
                None => {
                    &&& final(self).votes.spec_counted() == old(self).votes.spec_counted()
                    &&& final(effects)@ == old(effects)@
                }
            },
    {
        let me = match self.signer {
            Some(a) => a,
            None => {
                return ;
            }
        };
        if !self.validators.contains(me) {
            return ;
        }
        let vote = VoteOn { height: self.height, view: self.view, step, target };
        let signature = Signature::sign(me, vote);
        let message = ConsensusMessage { on: vote, signature };
        let r = self.votes.insert(message);
        proof {
            assert(message == signed_by(me, old(self).height, old(self).view, step, target));
            assert forall|i: int| 0 <= i < self.votes.spec_counted().len() implies {
                &&& (#[trigger] self.votes.spec_counted()[i]).is_well_signed()
                &&& self.validators.spec_contains(self.votes.spec_counted()[i].spec_signer())
            } by {
                if i < old(self).votes.spec_counted().len() {
                    assert(old(self).votes.spec_counted()[i].is_well_signed());
                }
            }
        }
        match r {
            VoteResult::New => {
                effects.push(Effect::BroadcastVote(message));
                proof {
                    assert(!has_counted_in(
                        old(self).votes.spec_counted(),
                        me,
                        old(self).height,
                        old(self).view,
                        step,
                    )) by {
                        if has_counted_in(
                            old(self).votes.spec_counted(),
                            me,
                            old(self).height,
                            old(self).view,
                            step,
                        ) {
                            let i = choose|i: int|
                                0 <= i < old(self).votes.spec_counted().len() && in_slot(
                                    old(self).votes.spec_counted()[i],
                                    me,
                                    old(self).height,
                                    old(self).view,
                                    step,
                                );
                            assert(old(self).votes.spec_has_counted(
                                me,
                                old(self).height,
                                old(self).view,
                                step,
                            ));
                        }
                    }
                }
            }
            VoteResult::Duplicate => {
                proof {
                    lemma_counted_contains_slot(old(self).votes.spec_counted(), message);
                }
            }
            VoteResult::DoubleVote => {
                proof {
                    let i = choose|i: int|
                        0 <= i < old(self).votes.spec_counted().len()
                            && crate::collector::same_slot(
                            old(self).votes.spec_counted()[i],
                            message,
                        ) && old(self).votes.spec_counted()[i] != message;
                    assert(in_slot(
                        old(self).votes.spec_counted()[i],
                        me,
                        old(self).height,
                        old(self).view,
                        step,
                    ));
                    assert(has_counted_in(
                        old(self).votes.spec_counted(),
                        me,
                        old(self).height,
                        old(self).view,
                        step,
                    ));
                }
            }
        }
    }

    /// Assemble the finality certificate for `block` from the counted
    /// precommits at `(height, seal_view)`. The result certifies the block:
    /// valid signatures from distinct validators, in ascending order, with
    /// weight at least the threshold.
    pub fn assemble_seal(&self, seal_view: u64, block: u64) -> (r: Seal)
        requires
            self.wf(),
            weight_among(
                self.validators.spec_validators(),
                self.votes.spec_voters(
                    self.height,
                    seal_view,
                    Step::Precommit,
                    VoteTarget::Block(block),
                ),
            ) >= crate::validator::spec_threshold(
                crate::validator::spec_total_weight(self.validators.spec_validators()),
            ),
        ensures
            seal_certifies(self.validators, self.height, block, seal_view, r.precommits@),
            r.view == seal_view,
            forall|i: int|
                0 <= i < r.precommits@.len() ==> self.votes.spec_counted_sig(
                    self.height,
                    seal_view,
                    Step::Precommit,
                    VoteTarget::Block(block),
                    #[trigger] r.precommits@[i],
                ),
            forall|k: int|
                0 <= k < self.votes.spec_counted().len() && vote_matches(
                    #[trigger] self.votes.spec_counted()[k],
                    self.height,
                    seal_view,
                    Step::Precommit,
                    VoteTarget::Block(block),
                ) ==> r.precommits@.contains(self.votes.spec_counted()[k].signature),
    {
        let sigs = self.votes.signatures_for(
            self.height,
            seal_view,
            Step::Precommit,
            VoteTarget::Block(block),
        );
        let ghost voters = self.votes.spec_voters(
            self.height,
            seal_view,
            Step::Precommit,
            VoteTarget::Block(block),
        );
        proof {
            // every signature is a valid precommit from a validator
            assert forall|i: int| 0 <= i < sigs@.len() implies {
                &&& (#[trigger] sigs@[i]).signed == crate::epoch::spec_precommit_vote(
                    self.height,
                    seal_view,
                    block,
                )
                &&& self.validators.spec_contains(sigs@[i].signer)
            } by {
                assert(self.votes.spec_counted_sig(
                    self.height,
                    seal_view,
                    Step::Precommit,
                    VoteTarget::Block(block),
                    sigs@[i],
                ));
                let k = choose|k: int|
                    0 <= k < self.votes.spec_counted().len() && vote_matches(
                        self.votes.spec_counted()[k],
                        self.height,
                        seal_view,
                        Step::Precommit,
                        VoteTarget::Block(block),
                    ) && self.votes.spec_counted()[k].signature == sigs@[i];
                assert(self.votes.spec_counted()[k].is_well_signed());
                assert(self.validators.spec_contains(self.votes.spec_counted()[k].spec_signer()));
            }
            // the signers of the seal are exactly the counted voters
            assert(spec_sig_signers(sigs@) =~= voters) by {
                assert forall|a: u64| spec_sig_signers(sigs@).contains(a) implies voters.contains(
                    a,
                ) by {
                    let i = choose|i: int| 0 <= i < sigs@.len() && (#[trigger] sigs@[i]).signer == a;
                    assert(self.votes.spec_counted_sig(
                        self.height,
                        seal_view,
                        Step::Precommit,
                        VoteTarget::Block(block),
                        sigs@[i],
                    ));
                    let k = choose|k: int|
                        0 <= k < self.votes.spec_counted().len() && vote_matches(
                            self.votes.spec_counted()[k],
                            self.height,
                            seal_view,
                            Step::Precommit,
                            VoteTarget::Block(block),
                        ) && self.votes.spec_counted()[k].signature == sigs@[i];
                    assert(crate::collector::in_slot(
                        self.votes.spec_counted()[k],
                        a,
                        self.height,
                        seal_view,
                        Step::Precommit,
                    ));
                }
                assert forall|a: u64| voters.contains(a) implies spec_sig_signers(sigs@).contains(
                    a,
                ) by {
                    let k = choose|k: int|
                        0 <= k < self.votes.spec_counted().len() && crate::collector::in_slot(
                            self.votes.spec_counted()[k],
                            a,
                            self.height,
                            seal_view,
                            Step::Precommit,
                        ) && self.votes.spec_counted()[k].on.target == VoteTarget::Block(block);
                    assert(vote_matches(
                        self.votes.spec_counted()[k],
                        self.height,
                        seal_view,
                        Step::Precommit,
                        VoteTarget::Block(block),
                    ));
                    assert(sigs@.contains(self.votes.spec_counted()[k].signature));
                    let i = choose|i: int|
                        0 <= i < sigs@.len() && sigs@[i] == self.votes.spec_counted()[k].signature;
                    assert(self.votes.spec_counted()[k].is_well_signed());
                    assert((#[trigger] sigs@[i]).signer == a);
                }
            }
        }
        let proposer = self.validators.proposer(self.height, seal_view);
        let proposer_sig = match self.proposal_signature {
            Some(s) => s,
            None => Signature::sign(
                proposer,
                VoteOn {
                    height: self.height,
                    view: seal_view,
                    step: Step::Propose,
                    target: VoteTarget::Block(block),
                },
            ),
        };
        Seal { view: seal_view, proposer_sig, precommits: sigs }
    }
}

impl Worker {
    /// Enter the Propose step of the current (height, view): arm the
    /// propose timer; as the proposer, re-propose the valid-locked block
    /// if one exists, and otherwise ask the miner for a fresh block.
    fn enter_propose(&mut self, effects: &mut Vec<Effect>)
        requires
            old(self).wf(),
        ensures
            final(self).wf(),
            final(self).height == old(self).height,
            final(self).view == old(self).view,
            final(self).locked == old(self).locked,
            final(self).valid_locked == old(self).valid_locked,
            final(self).signer == old(self).signer,
            final(self).validators == old(self).validators,
            final(self).allowed_height == old(self).allowed_height,
            final(self).future_votes == old(self).future_votes,
            final(self).timeouts == old(self).timeouts,
            final(self).block_reward == old(self).block_reward,
            final(self).step == Step::Propose || final(self).step == Step::Prevote,
            old(self).valid_locked is None ==> final(self).proposals == old(self).proposals,
            forall|i: int|
                0 <= i < old(effects)@.len() ==> final(effects)@[i] == old(effects)@[i],
            final(effects)@.len() >= old(effects)@.len(),
            no_seal_effects_added(old(effects)@, final(effects)@),
            counted_grew_by_own(
                old(self).votes.spec_counted(),
                final(self).votes.spec_counted(),
                old(self).signer,
            ),
            propose_entry(*old(self), *final(self), final(effects)@.skip(old(effects)@.len() as int)),
    {
        let ghost base = old(effects)@.len() as int;
        self.step = Step::Propose;
        self.proposal = None;
        self.proposal_signature = None;
        self.arm_timer(effects);
        proof {
            assert(effects@[base] matches Effect::ArmTimer { token, duration } && duration
                == spec_timeout(old(self).timeouts, Step::Propose, old(self).view));
        }
        let me = match self.signer {
            Some(a) => a,
            None => {
                return ;
            }
        };
        let proposer = self.validators.proposer(self.height, self.view);
        if me != proposer {
            return ;
        }
        match self.valid_locked {
            Some(l) => {
                // re-propose the block the network already had a polka for
                let vote = VoteOn {
                    height: self.height,
                    view: self.view,
                    step: Step::Propose,
                    target: VoteTarget::Block(l.block),
                };
                let signature = Signature::sign(me, vote);
                let p = BlockProposal {
                    height: self.height,
                    view: self.view,
                    block_hash: l.block,
                    valid_round: Some(l.view),
                    signature,
                };
                self.proposal = Some(l.block);
                self.proposal_signature = Some(signature);
                self.proposals.push(ProposalId { number: self.height, hash: l.block });
                let ghost at_prop = effects@.len() as int;
                effects.push(Effect::BroadcastProposal(p));
                self.move_to_prevote(VoteTarget::Block(l.block), effects);
                proof {
                    let added = effects@.skip(base);
                    assert(effects@[at_prop] == Effect::BroadcastProposal(p));
                    assert(added[at_prop - base] == effects@[at_prop]);
                    assert(broadcasts_proposal(
                        added,
                        me,
                        old(self).height,
                        old(self).view,
                        l.block,
                        Some(l.view),
                    ));
                    assert(added[0] == effects@[base]);
                    if old(self).validators.spec_contains(me) && !has_counted_in(
                        old(self).votes.spec_counted(),
                        me,
                        old(self).height,
                        old(self).view,
                        Step::Prevote,
                    ) {
                        let msg = signed_by(
                            me,
                            old(self).height,
                            old(self).view,
                            Step::Prevote,
                            VoteTarget::Block(l.block),
                        );
                        let added_mv = effects@.skip(at_prop + 1);
                        assert(broadcasts_vote(added_mv, msg));
                        let j = choose|j: int|
                            0 <= j < added_mv.len() && ((#[trigger] added_mv[j])
                                matches Effect::BroadcastVote(mm) && mm == msg);
                        assert(added_mv[j] == effects@[at_prop + 1 + j]);
                        assert(added[at_prop + 1 + j - base] == effects@[at_prop + 1 + j]);
                        assert(broadcasts_vote(added, msg));
                    }
                }
            }
            None => {
                let ghost at_req = effects@.len() as int;
                effects.push(Effect::RequestProposalBlock);
                proof {
                    let added = effects@.skip(base);
                    assert(effects@[at_req] == Effect::RequestProposalBlock);
                    assert(added[at_req - base] == effects@[at_req]);
                    assert(requests_block(added));
                    assert(added[0] == effects@[base]);
                }
            }
        }
    }

    /// Enter the Prevote step: arm the prevote timer and cast our own
    /// prevote for `target`.
    fn move_to_prevote(&mut self, target: VoteTarget, effects: &mut Vec<Effect>)
        requires
            old(self).wf(),
        ensures
            final(self).wf(),
            final(self).height == old(self).height,
            final(self).view == old(self).view,
            final(self).step == Step::Prevote,
            final(self).locked == old(self).locked,
            final(self).valid_locked == old(self).valid_locked,
            final(self).proposal == old(self).proposal,
            final(self).proposal_signature == old(self).proposal_signature,
            final(self).proposals == old(self).proposals,
            final(self).future_votes == old(self).future_votes,
            final(self).signer == old(self).signer,
            final(self).validators == old(self).validators,
            final(self).allowed_height == old(self).allowed_height,
            final(self).timeouts == old(self).timeouts,
            final(self).block_reward == old(self).block_reward,
            forall|i: int|
                0 <= i < old(effects)@.len() ==> final(effects)@[i] == old(effects)@[i],
            final(effects)@.len() >= old(effects)@.len(),
            no_seal_effects_added(old(effects)@, final(effects)@),
            counted_grew_by_own(
                old(self).votes.spec_counted(),
                final(self).votes.spec_counted(),
                old(self).signer,
            ),
            match old(self).signer {
                Some(me) => (old(self).validators.spec_contains(me) && !has_counted_in(
                    old(self).votes.spec_counted(),
                    me,
                    old(self).height,
                    old(self).view,
                    Step::Prevote,
                )) ==> {
                    &&& final(self).votes.spec_counted() == old(self).votes.spec_counted().push(
                        signed_by(me, old(self).height, old(self).view, Step::Prevote, target),
                    )
                    &&& broadcasts_vote(
                        final(effects)@.skip(old(effects)@.len() as int),
                        signed_by(me, old(self).height, old(self).view, Step::Prevote, target),
                    )
                },
                None => true,
            },
    {
        let ghost base = old(effects)@.len() as int;
        self.step = Step::Prevote;
        self.arm_timer(effects);
        self.cast_own_vote(Step::Prevote, target, effects);
        proof {
            match old(self).signer {
                Some(me) => {
                    if old(self).validators.spec_contains(me) && !has_counted_in(
                        old(self).votes.spec_counted(),
                        me,
                        old(self).height,
                        old(self).view,
                        Step::Prevote,
                    ) {
                        let msg = signed_by(
                            me,
                            old(self).height,
                            old(self).view,
                            Step::Prevote,
                            target,
                        );
                        let added = effects@.skip(base);
                        assert(effects@.last() == Effect::BroadcastVote(msg));
                        assert(added[added.len() - 1] == effects@.last());
                        assert(broadcasts_vote(added, msg));
                    }
                }
                None => {}
            }
        }
    }

    /// Begin working on the current height: enter Propose at view 0.
    pub fn start(&mut self) -> (effects: Vec<Effect>)
        requires
            old(self).wf(),
        ensures
            final(self).wf(),
            final(self).height == old(self).height,
            final(self).view == old(self).view,
            final(self).locked == old(self).locked,
            final(self).valid_locked == old(self).valid_locked,
            no_seal_effects_added(Seq::empty(), effects@),
            propose_entry(*old(self), *final(self), effects@),
    {
        let mut effects: Vec<Effect> = Vec::new();
        self.enter_propose(&mut effects);
        proof {
            assert(effects@.skip(0) =~= effects@);
        }
        effects
    }

    /// The miner produced a fresh proposal block while we are the
    /// proposer of the current round: record it, gossip it, and prevote
    /// for it. A stale generation (wrong step, or no longer proposer) is
    /// ignored.
    pub fn on_proposal_generated(&mut self, block_hash: u64) -> (effects: Vec<Effect>)
        requires
            old(self).wf(),
        ensures
            final(self).wf(),
            final(self).height == old(self).height,
            final(self).view == old(self).view,
            final(self).locked == old(self).locked,
            final(self).valid_locked == old(self).valid_locked,
            lock_advances(old(self).locked, final(self).locked),
            no_seal_effects_added(Seq::empty(), effects@),
            match old(self).signer {
                Some(me) => (old(self).step == Step::Propose && me
                    == old(self).validators.spec_proposer(old(self).height, old(self).view))
                    ==> {
                    &&& final(self).proposal == Some(block_hash)
                    &&& final(self).proposals@ == old(self).proposals@.push(
                        ProposalId { number: old(self).height, hash: block_hash },
                    )
                    &&& final(self).step == Step::Prevote
                    &&& broadcasts_proposal(
                        effects@,
                        me,
                        old(self).height,
                        old(self).view,
                        block_hash,
                        None,
                    )
                    &&& (old(self).validators.spec_contains(me) && !has_counted_in(
                        old(self).votes.spec_counted(),
                        me,
                        old(self).height,
                        old(self).view,
                        Step::Prevote,
                    ) ==> broadcasts_vote(
                        effects@,
                        signed_by(
                            me,
                            old(self).height,
                            old(self).view,
                            Step::Prevote,
                            VoteTarget::Block(block_hash),
                        ),
                    ))
                },
                None => true,
            },
            (match old(self).signer {
                Some(me) => !(old(self).step == Step::Propose && me
                    == old(self).validators.spec_proposer(old(self).height, old(self).view)),
                None => true,
            }) ==> *final(self) == *old(self) && effects@.len() == 0,
    {
        let mut effects: Vec<Effect> = Vec::new();
        if !(match self.step {
            Step::Propose => true,
            _ => false,
        }) {
            return effects;
        }
        let me = match self.signer {
            Some(a) => a,
            None => {
                return effects;
            }
        };
        if me != self.validators.proposer(self.height, self.view) {
            return effects;
        }
        let vote = VoteOn {
            height: self.height,
            view: self.view,
            step: Step::Propose,
            target: VoteTarget::Block(block_hash),
        };
        let signature = Signature::sign(me, vote);
        let p = BlockProposal {
            height: self.height,
            view: self.view,
            block_hash,
            valid_round: None,
            signature,
        };
        self.proposal = Some(block_hash);
        self.proposal_signature = Some(signature);
        self.proposals.push(ProposalId { number: self.height, hash: block_hash });
        effects.push(Effect::BroadcastProposal(p));
        self.move_to_prevote(VoteTarget::Block(block_hash), &mut effects);
        proof {
            assert(effects@[0] == Effect::BroadcastProposal(p));
            assert(broadcasts_proposal(
                effects@,
                me,
                old(self).height,
                old(self).view,
                block_hash,
                None,
            ));
            if old(self).validators.spec_contains(me) && !has_counted_in(
                old(self).votes.spec_counted(),
                me,
                old(self).height,
                old(self).view,
                Step::Prevote,
            ) {
                let msg = signed_by(
                    me,
                    old(self).height,
                    old(self).view,
                    Step::Prevote,
                    VoteTarget::Block(block_hash),
                );
                let tail = effects@.skip(1);
                assert(broadcasts_vote(tail, msg));
                let j = choose|j: int|
                    0 <= j < tail.len() && ((#[trigger] tail[j]) matches Effect::BroadcastVote(mm)
                        && mm == msg);
                assert(tail[j] == effects@[1 + j]);
                assert(broadcasts_vote(effects@, msg));
            }
        }
        effects
    }

    /// A proposal arrived from the network.
    ///
    /// It is accepted exactly when it is for the current (height, view),
    /// signed by that round's proposer, and its valid-round claim — if any
    /// — names an earlier view that really had a polka for this block. On
    /// acceptance in the Propose step, the worker prevotes for the block
    /// unless its lock forbids it (then it prevotes Nil) and moves to
    /// Prevote. A valid proposal arriving after we left the Propose step
    /// changes nothing.
    pub fn on_proposal(&mut self, p: &BlockProposal) -> (r: (Result<(), EngineError>, Vec<Effect>))
        requires
            old(self).wf(),
        ensures
            final(self).wf(),
            final(self).height == old(self).height,
            final(self).view == old(self).view,
            final(self).locked == old(self).locked,
            final(self).valid_locked == old(self).valid_locked,
            lock_advances(old(self).locked, final(self).locked),
            no_seal_effects_added(Seq::empty(), r.1@),
            (p.height != old(self).height || p.view != old(self).view) ==> r.0 == Err::<
                (),
                EngineError,
            >(EngineError::UnexpectedMessage),
            (p.height == old(self).height && p.view == old(self).view && !(p.is_well_signed()
                && p.signature.signer == old(self).validators.spec_address_at(
                old(self).validators.spec_proposer_index(p.height, p.view),
            ))) ==> r.0 == Err::<(), EngineError>(EngineError::NotAuthorized),
            r.0 is Ok && old(self).step == Step::Propose ==> final(self).proposal == Some(
                p.block_hash,
            ) && final(self).step == Step::Prevote,
            r.0 is Ok ==> p.height == old(self).height && p.view == old(self).view
                && p.is_well_signed(),
            (p.height == old(self).height && p.view == old(self).view && p.is_well_signed()
                && p.signature.signer == old(self).validators.spec_proposer(p.height, p.view)
                && valid_round_checks(*old(self), *p)) ==> {
                &&& r.0 is Ok
                &&& (old(self).step == Step::Propose ==> {
                    &&& final(self).proposals@ == old(self).proposals@.push(
                        ProposalId { number: p.height, hash: p.block_hash },
                    )
                    &&& counted_grew_by_own(
                        old(self).votes.spec_counted(),
                        final(self).votes.spec_counted(),
                        old(self).signer,
                    )
                    &&& (match old(self).signer {
                        Some(me) => (old(self).validators.spec_contains(me) && !has_counted_in(
                            old(self).votes.spec_counted(),
                            me,
                            old(self).height,
                            old(self).view,
                            Step::Prevote,
                        )) ==> broadcasts_vote(
                            r.1@,
                            signed_by(
                                me,
                                old(self).height,
                                old(self).view,
                                Step::Prevote,
                                spec_prevote_target(old(self).locked, *p),
                            ),
                        ),
                        None => true,
                    })
                })
                &&& (old(self).step != Step::Propose ==> *final(self) == *old(self) && r.1@.len()
                    == 0)
            },
    {
        let mut effects: Vec<Effect> = Vec::new();
        if p.height != self.height || p.view != self.view {
            return (Err(EngineError::UnexpectedMessage), effects);
        }
        let expected = VoteOn {
            height: p.height,
            view: p.view,
            step: Step::Propose,
            target: VoteTarget::Block(p.block_hash),
        };
        let proposer = self.validators.proposer(p.height, p.view);
        if !(p.signature.signed == expected) || p.signature.signer != proposer {
            return (Err(EngineError::NotAuthorized), effects);
        }
        match p.valid_round {
            Some(vr) => {
                if vr >= p.view {
                    return (Err(EngineError::UnexpectedMessage), effects);
                }
                let w = self.votes.weight_for(
                    &self.validators,
                    p.height,
                    vr,
                    Step::Prevote,
                    VoteTarget::Block(p.block_hash),
                );
                if w < self.validators.threshold() {
                    return (Err(EngineError::UnexpectedMessage), effects);
                }
            }
            None => {}
        }
        if !(match self.step {
            Step::Propose => true,
            _ => false,
        }) {
            // a valid but late proposal; we already voted this round
            return (Ok(()), effects);
        }
        self.proposal = Some(p.block_hash);
        self.proposal_signature = Some(p.signature);
        self.proposals.push(ProposalId { number: p.height, hash: p.block_hash });
        let unlocked = match self.locked {
            None => true,
            Some(l) => l.block == p.block_hash || (match p.valid_round {
                Some(vr) => l.view <= vr,
                None => false,
            }),
        };
        let target = if unlocked {
            VoteTarget::Block(p.block_hash)
        } else {
            VoteTarget::Nil
        };
        proof {
            assert(target == spec_prevote_target(old(self).locked, *p));
        }
        self.move_to_prevote(target, &mut effects);
        proof {
            assert(effects@.skip(0) =~= effects@);
        }
        (Ok(()), effects)
    }

    /// A signed vote arrived.
    ///
    /// An invalid signature, or a signer outside the validator set, is
    /// `NotAuthorized`. Votes for future heights are buffered (up to a
    /// cap); votes for past heights are dropped silently. At the current
    /// height, the first vote per signer and slot is counted; repeating it
    /// changes nothing; a conflicting vote from the same signer is
    /// `DoubleVote` — kept as evidence, with every tally unchanged. A newly
    /// counted vote may complete a polka (recording the valid lock,
    /// precommitting when we are in Prevote on that proposal) or a
    /// threshold of precommits: then the worker emits the block's seal —
    /// which certifies it — and advances to the next height at view 0 with
    /// all locks cleared.
    pub fn on_vote(&mut self, m: ConsensusMessage) -> (r: (Result<(), EngineError>, Vec<Effect>))
        requires
            old(self).wf(),
        ensures
            final(self).wf(),
            vote_outcome(*old(self), m, r.0, *final(self), r.1@),
    {
        let mut effects: Vec<Effect> = Vec::new();
        if !m.verify() {
            return (Err(EngineError::NotAuthorized), effects);
        }
        let signer = m.signer();
        if !self.validators.contains(signer) {
            return (Err(EngineError::NotAuthorized), effects);
        }
        if m.on.height > self.height {
            if self.future_votes.len() < FUTURE_VOTE_CAP {
                self.future_votes.push(m);
            }
            return (Ok(()), effects);
        }
        if m.on.height < self.height {
            return (Ok(()), effects);
        }
        let inserted = self.votes.insert(m);
        proof {
            assert forall|i: int| 0 <= i < self.votes.spec_counted().len() implies {
                &&& (#[trigger] self.votes.spec_counted()[i]).is_well_signed()
                &&& self.validators.spec_contains(self.votes.spec_counted()[i].spec_signer())
            } by {
                if i < old(self).votes.spec_counted().len() {
                    assert(old(self).votes.spec_counted()[i].is_well_signed());
                }
            }
        }
        match inserted {
            VoteResult::Duplicate => {
                proof {
                    lemma_no_conflicting_occupant(old(self).votes, m);
                    lemma_counted_contains_slot(old(self).votes.spec_counted(), m);
                    lemma_has_counted_iff(
                        old(self).votes,
                        m.spec_signer(),
                        m.on.height,
                        m.on.view,
                        m.on.step,
                    );
                }
                return (Ok(()), effects);
            }
            VoteResult::DoubleVote => {
                proof {
                    let i = choose|i: int|
                        0 <= i < old(self).votes.spec_counted().len()
                            && crate::collector::same_slot(old(self).votes.spec_counted()[i], m)
                            && old(self).votes.spec_counted()[i] != m;
                    assert(in_slot(
                        old(self).votes.spec_counted()[i],
                        m.spec_signer(),
                        m.on.height,
                        m.on.view,
                        m.on.step,
                    ));
                    assert(old(self).votes.spec_has_counted(
                        m.spec_signer(),
                        m.on.height,
                        m.on.view,
                        m.on.step,
                    ));
                    if old(self).votes.spec_counted().contains(m) {
                        lemma_no_conflicting_occupant(old(self).votes, m);
                        assert(false);
                    }
                }
                return (Err(EngineError::DoubleVote), effects);
            }
            VoteResult::New => {
                proof {
                    lemma_new_vote_had_no_occupant(old(self).votes, m);
                    if old(self).votes.spec_counted().contains(m) {
                        lemma_counted_contains_slot(old(self).votes.spec_counted(), m);
                        lemma_has_counted_iff(
                            old(self).votes,
                            m.spec_signer(),
                            m.on.height,
                            m.on.view,
                            m.on.step,
                        );
                        assert(false);
                    }
                }
            }
        }
        // react to the newly counted vote
        match m.on.step {
            Step::Prevote => {
                if m.on.view <= self.view {
                    self.react_to_prevote_threshold(m.on.view, m.on.target, &mut effects);
                }
            }
            Step::Precommit => {
                match m.on.target {
                    VoteTarget::Block(b) => {
                        self.react_to_precommit_threshold(m.on.view, b, &mut effects);
                    }
                    VoteTarget::Nil => {}
                }
            }
            _ => {}
        }
        proof {
            assert(effects@.skip(0) =~= effects@);
        }
        (Ok(()), effects)
    }

    /// A polka may have formed for `target` at `(height, vote_view)`, for
    /// the current view or an earlier one whose prevotes arrived late.
    fn react_to_prevote_threshold(
        &mut self,
        vote_view: u64,
        target: VoteTarget,
        effects: &mut Vec<Effect>,
    )
        requires
            old(self).wf(),
            vote_view <= old(self).view,
        ensures
            final(self).wf(),
            final(self).height == old(self).height,
            final(self).view == old(self).view,
            final(self).validators == old(self).validators,
            final(self).allowed_height == old(self).allowed_height,
            final(self).proposals == old(self).proposals,
            lock_advances(old(self).locked, final(self).locked),
            forall|i: int|
                0 <= i < old(effects)@.len() ==> final(effects)@[i] == old(effects)@[i],
            final(effects)@.len() >= old(effects)@.len(),
            no_seal_effects_added(old(effects)@, final(effects)@),
            counted_grew_by_own(
                old(self).votes.spec_counted(),
                final(self).votes.spec_counted(),
                old(self).signer,
            ),
            weight_among(
                old(self).validators.spec_validators(),
                voters_of(
                    old(self).votes.spec_counted(),
                    old(self).height,
                    vote_view,
                    Step::Prevote,
                    target,
                ),
            ) < spec_threshold(spec_total_weight(old(self).validators.spec_validators()))
                ==> *final(self) == *old(self) && final(effects)@ == old(effects)@,
            weight_among(
                old(self).validators.spec_validators(),
                voters_of(
                    old(self).votes.spec_counted(),
                    old(self).height,
                    vote_view,
                    Step::Prevote,
                    target,
                ),
            ) >= spec_threshold(spec_total_weight(old(self).validators.spec_validators()))
                ==> match target {
                VoteTarget::Block(b) => {
                    &&& final(self).valid_locked == (match old(self).valid_locked {
                        Some(o) => if o.view <= vote_view {
                            Some(LockInfo { view: vote_view, block: b })
                        } else {
                            Some(o)
                        },
                        None => Some(LockInfo { view: vote_view, block: b }),
                    })
                    &&& (vote_view == old(self).view && old(self).step == Step::Prevote && old(
                        self,
                    ).proposal == Some(b) ==> {
                        &&& final(self).step == Step::Precommit
                        &&& final(self).locked == Some(
                            LockInfo { view: old(self).view, block: b },
                        )
                        &&& (match old(self).signer {
                            Some(me) => (old(self).validators.spec_contains(me)
                                && !has_counted_in(
                                old(self).votes.spec_counted(),
                                me,
                                old(self).height,
                                old(self).view,
                                Step::Precommit,
                            )) ==> broadcasts_vote(
                                final(effects)@.skip(old(effects)@.len() as int),
                                signed_by(
                                    me,
                                    old(self).height,
                                    old(self).view,
                                    Step::Precommit,
                                    VoteTarget::Block(b),
                                ),
                            ),
                            None => true,
                        })
                    })
                },
                VoteTarget::Nil => (vote_view == old(self).view && old(self).step
                    == Step::Prevote ==> {
                    &&& final(self).step == Step::Precommit
                    &&& (match old(self).signer {
                        Some(me) => (old(self).validators.spec_contains(me) && !has_counted_in(
                            old(self).votes.spec_counted(),
                            me,
                            old(self).height,
                            old(self).view,
                            Step::Precommit,
                        )) ==> broadcasts_vote(
                            final(effects)@.skip(old(effects)@.len() as int),
                            signed_by(
                                me,
                                old(self).height,
                                old(self).view,
                                Step::Precommit,
                                VoteTarget::Nil,
                            ),
                        ),
                        None => true,
                    })
                }),
            },
    {
        let ghost base = old(effects)@.len() as int;
        let w = self.votes.weight_for(&self.validators, self.height, vote_view, Step::Prevote, target);
        if w < self.validators.threshold() {
            return ;
        }
        match target {
            VoteTarget::Block(b) => {
                // a polka: remember the highest view at which one was seen
                let newer = match self.valid_locked {
                    Some(l) => l.view <= vote_view,
                    None => true,
                };
                if newer {
                    self.valid_locked = Some(LockInfo { view: vote_view, block: b });
                }
                let at_prevote = match self.step {
                    Step::Prevote => true,
                    _ => false,
                };
                let on_this = match self.proposal {
                    Some(q) => q == b,
                    None => false,
                };
                if vote_view == self.view && at_prevote && on_this {
                    self.locked = Some(LockInfo { view: self.view, block: b });
                    self.step = Step::Precommit;
                    self.arm_timer(effects);
                    self.cast_own_vote(Step::Precommit, VoteTarget::Block(b), effects);
                    proof {
                        match old(self).signer {
                            Some(me) => {
                                if old(self).validators.spec_contains(me) && !has_counted_in(
                                    old(self).votes.spec_counted(),
                                    me,
                                    old(self).height,
                                    old(self).view,
                                    Step::Precommit,
                                ) {
                                    let msg = signed_by(
                                        me,
                                        old(self).height,
                                        old(self).view,
                                        Step::Precommit,
                                        VoteTarget::Block(b),
                                    );
                                    let added = effects@.skip(base);
                                    assert(effects@.last() == Effect::BroadcastVote(msg));
                                    assert(added[added.len() - 1] == effects@.last());
                                    assert(broadcasts_vote(added, msg));
                                }
                            }
                            None => {}
                        }
                    }
                }
            }
            VoteTarget::Nil => {
                let at_prevote = match self.step {
                    Step::Prevote => true,
                    _ => false,
                };
                if vote_view == self.view && at_prevote {
                    self.step = Step::Precommit;
                    self.arm_timer(effects);
                    self.cast_own_vote(Step::Precommit, VoteTarget::Nil, effects);
                    proof {
                        match old(self).signer {
                            Some(me) => {
                                if old(self).validators.spec_contains(me) && !has_counted_in(
                                    old(self).votes.spec_counted(),
                                    me,
                                    old(self).height,
                                    old(self).view,
                                    Step::Precommit,
                                ) {
                                    let msg = signed_by(
                                        me,
                                        old(self).height,
                                        old(self).view,
                                        Step::Precommit,
                                        VoteTarget::Nil,
                                    );
                                    let added = effects@.skip(base);
                                    assert(effects@.last() == Effect::BroadcastVote(msg));
                                    assert(added[added.len() - 1] == effects@.last());
                                    assert(broadcasts_vote(added, msg));
                                }
                            }
                            None => {}
                        }
                    }
                }
            }
        }
    }

    /// A threshold of precommits may have formed for block `b` at
    /// `(height, seal_view)`: commit it, emit its seal, and advance.
    fn react_to_precommit_threshold(&mut self, seal_view: u64, b: u64, effects: &mut Vec<Effect>)
        requires
            old(self).wf(),
        ensures
            final(self).wf(),
            final(self).validators == old(self).validators,
            forall|i: int|
                0 <= i < old(effects)@.len() ==> final(effects)@[i] == old(effects)@[i],
            final(effects)@.len() >= old(effects)@.len(),
            seal_effects_certified(
                old(self).validators,
                old(self).height,
                final(effects)@.skip(old(effects)@.len() as int),
            ),
            !has_seal_effect(final(effects)@.skip(old(effects)@.len() as int)) ==> *final(self)
                == *old(self) && final(effects)@ == old(effects)@,
            has_seal_effect(final(effects)@.skip(old(effects)@.len() as int)) ==> {
                &&& old(self).height < u64::MAX
                &&& final(self).height == old(self).height + 1
                &&& final(self).view == 0
                &&& final(self).locked is None
                &&& final(self).valid_locked is None
                &&& final(self).allowed_height == final(self).height
            },
            (old(self).step != Step::Commit && old(self).height < u64::MAX && weight_among(
                old(self).validators.spec_validators(),
                voters_of(
                    old(self).votes.spec_counted(),
                    old(self).height,
                    seal_view,
                    Step::Precommit,
                    VoteTarget::Block(b),
                ),
            ) >= spec_threshold(spec_total_weight(old(self).validators.spec_validators())))
                ==> has_seal_effect(final(effects)@.skip(old(effects)@.len() as int)),
            seal_effects_bound_to_counted(
                old(self).validators,
                old(self).height,
                old(self).votes.spec_counted(),
                final(effects)@.skip(old(effects)@.len() as int),
            ),
            has_seal_effect(final(effects)@.skip(old(effects)@.len() as int)) ==> {
                &&& final(self).proposals@ == retained_proposals(
                    old(self).proposals@,
                    final(self).height,
                )
            },
    {
        let already_committed = match self.step {
            Step::Commit => true,
            _ => false,
        };
        if already_committed {
            return ;
        }
        if self.height == u64::MAX {
            return ;
        }
        let w = self.votes.weight_for(
            &self.validators,
            self.height,
            seal_view,
            Step::Precommit,
            VoteTarget::Block(b),
        );
        if w < self.validators.threshold() {
            return ;
        }
        let ghost base = old(effects)@.len() as int;
        let seal = self.assemble_seal(seal_view, b);
        let ghost gseal = seal;
        effects.push(Effect::SubmitSeal { block_hash: b, seal });
        effects.push(Effect::NotifyCommit { block_hash: b });
        // the height is final: advance and reset the round state
        self.height = self.height + 1;
        self.allowed_height = self.height;
        self.view = 0;
        self.locked = None;
        self.valid_locked = None;
        self.proposal = None;
        self.proposal_signature = None;
        let pruned = retain_proposals(&self.proposals, self.height);
        self.proposals = pruned;
        let below = self.height;
        let ghost pre_votes = self.votes;
        self.votes.prune(below);
        proof {
            crate::collector::lemma_retained_source(pre_votes.spec_counted(), below);
            assert forall|i: int| 0 <= i < self.votes.spec_counted().len() implies {
                &&& (#[trigger] self.votes.spec_counted()[i]).is_well_signed()
                &&& self.validators.spec_contains(self.votes.spec_counted()[i].spec_signer())
            } by {
                assert(crate::collector::appears_at_least(
                    pre_votes.spec_counted(),
                    self.votes.spec_counted()[i],
                    below,
                ));
                let k = choose|k: int|
                    0 <= k < pre_votes.spec_counted().len() && pre_votes.spec_counted()[k]
                        == self.votes.spec_counted()[i] && self.votes.spec_counted()[i].on.height
                        >= below;
                assert(pre_votes.spec_counted()[k].is_well_signed());
            }
        }
        self.step = Step::Propose;
        let ghost mid = effects@;
        self.enter_propose(effects);
        proof {
            let added = effects@.skip(base);
            assert(effects@[base] == mid[base]);
            assert(mid[base] matches Effect::SubmitSeal { .. });
            assert(added[0] == effects@[base]);
            assert(has_seal_effect(added));
            let counted = old(self).votes.spec_counted();
            assert forall|i: int|
                0 <= i < added.len() implies ((#[trigger] added[i]) matches Effect::SubmitSeal {
                block_hash,
                seal: s0,
            } ==> {
                &&& (forall|p: int|
                    0 <= p < s0.precommits@.len() ==> sourced_sig(
                        counted,
                        counted.len() as int,
                        old(self).height,
                        s0.view,
                        Step::Precommit,
                        VoteTarget::Block(block_hash),
                        #[trigger] s0.precommits@[p],
                    ))
                &&& (forall|k: int|
                    0 <= k < counted.len() && vote_matches(
                        #[trigger] counted[k],
                        old(self).height,
                        s0.view,
                        Step::Precommit,
                        VoteTarget::Block(block_hash),
                    ) ==> s0.precommits@.contains(counted[k].signature))
                &&& weight_among(
                    old(self).validators.spec_validators(),
                    voters_of(
                        counted,
                        old(self).height,
                        s0.view,
                        Step::Precommit,
                        VoteTarget::Block(block_hash),
                    ),
                ) >= spec_threshold(spec_total_weight(old(self).validators.spec_validators()))
            }) by {
                assert(added[i] == effects@[base + i]);
                if i == 0 {
                    assert(added[0] == Effect::SubmitSeal { block_hash: b, seal: gseal });
                    assert(gseal.view == seal_view);
                    assert forall|p: int|
                        0 <= p < gseal.precommits@.len() implies sourced_sig(
                        counted,
                        counted.len() as int,
                        old(self).height,
                        seal_view,
                        Step::Precommit,
                        VoteTarget::Block(b),
                        #[trigger] gseal.precommits@[p],
                    ) by {
                        assert(old(self).votes.spec_counted_sig(
                            old(self).height,
                            seal_view,
                            Step::Precommit,
                            VoteTarget::Block(b),
                            gseal.precommits@[p],
                        ));
                        let k = choose|k: int|
                            0 <= k < counted.len() && vote_matches(
                                counted[k],
                                old(self).height,
                                seal_view,
                                Step::Precommit,
                                VoteTarget::Block(b),
                            ) && counted[k].signature == gseal.precommits@[p];
                        assert(0 <= k < counted.len() && vote_matches(
                            counted[k],
                            old(self).height,
                            seal_view,
                            Step::Precommit,
                            VoteTarget::Block(b),
                        ) && counted[k].signature == gseal.precommits@[p]);
                    }
                } else if i == 1 {
                    assert(effects@[base + 1] == mid[base + 1]);
                    assert(!(added[i] matches Effect::SubmitSeal { .. }));
                } else {
                    assert(base + i >= mid.len());
                    assert(!(added[i] matches Effect::SubmitSeal { .. }));
                }
            }
            assert forall|i: int|
                0 <= i < added.len() implies ((#[trigger] added[i]) matches Effect::SubmitSeal {
                block_hash,
                seal,
            } ==> seal_certifies(
                old(self).validators,
                old(self).height,
                block_hash,
                seal.view,
                seal.precommits@,
            )) by {
                assert(added[i] == effects@[base + i]);
                if i == 1 {
                    assert(effects@[base + 1] == mid[base + 1]);
                    assert(!(added[i] matches Effect::SubmitSeal { .. }));
                } else if i >= 2 {
                    assert(base + i >= mid.len());
                    assert(!(added[i] matches Effect::SubmitSeal { .. }));
                }
            }
        }
    }

    /// A timer fired. A token that is not the one currently armed is
    /// stale and ignored entirely. The propose timer expiring means no
    /// acceptable proposal arrived: prevote Nil. The prevote timer
    /// expiring without a polka: precommit Nil. The precommit timer
    /// expiring without a commit: advance to the next view.
    pub fn on_timeout(&mut self, token: u64) -> (effects: Vec<Effect>)
        requires
            old(self).wf(),
        ensures
            final(self).wf(),
            final(self).height == old(self).height,
            final(self).validators == old(self).validators,
            lock_advances(old(self).locked, final(self).locked),
            no_seal_effects_added(Seq::empty(), effects@),
            final(self).locked == old(self).locked,
            final(self).valid_locked == old(self).valid_locked,
            token != old(self).armed_token ==> *final(self) == *old(self) && effects@.len() == 0,
            token == old(self).armed_token && old(self).step == Step::Propose ==> {
                &&& final(self).step == Step::Prevote
                &&& final(self).view == old(self).view
                &&& (match old(self).signer {
                    Some(me) => (old(self).validators.spec_contains(me) && !has_counted_in(
                        old(self).votes.spec_counted(),
                        me,
                        old(self).height,
                        old(self).view,
                        Step::Prevote,
                    )) ==> broadcasts_vote(
                        effects@,
                        signed_by(
                            me,
                            old(self).height,
                            old(self).view,
                            Step::Prevote,
                            VoteTarget::Nil,
                        ),
                    ),
                    None => true,
                })
            },
            token == old(self).armed_token && old(self).step == Step::Prevote ==> {
                &&& final(self).step == Step::Precommit
                &&& final(self).view == old(self).view
                &&& (match old(self).signer {
                    Some(me) => (old(self).validators.spec_contains(me) && !has_counted_in(
                        old(self).votes.spec_counted(),
                        me,
                        old(self).height,
                        old(self).view,
                        Step::Precommit,
                    )) ==> broadcasts_vote(
                        effects@,
                        signed_by(
                            me,
                            old(self).height,
                            old(self).view,
                            Step::Precommit,
                            VoteTarget::Nil,
                        ),
                    ),
                    None => true,
                })
            },
            token == old(self).armed_token && old(self).step == Step::Precommit ==> {
                &&& final(self).view == (if old(self).view < u64::MAX {
                    old(self).view + 1
                } else {
                    old(self).view as int
                })
                &&& (final(self).step == Step::Propose || final(self).step == Step::Prevote)
                &&& (match old(self).signer {
                    Some(me) => (me == old(self).validators.spec_proposer(
                        old(self).height,
                        (if old(self).view < u64::MAX {
                            old(self).view + 1
                        } else {
                            old(self).view as int
                        }) as u64,
                    )) ==> (match old(self).valid_locked {
                        Some(l) => final(self).step == Step::Prevote && final(self).proposal
                            == Some(l.block) && broadcasts_proposal(
                            effects@,
                            me,
                            old(self).height,
                            (if old(self).view < u64::MAX {
                                old(self).view + 1
                            } else {
                                old(self).view as int
                            }) as u64,
                            l.block,
                            Some(l.view),
                        ),
                        None => requests_block(effects@) && final(self).step == Step::Propose,
                    }),
                    None => true,
                })
                &&& (match old(self).signer {
                    Some(me) => (me != old(self).validators.spec_proposer(
                        old(self).height,
                        (if old(self).view < u64::MAX {
                            old(self).view + 1
                        } else {
                            old(self).view as int
                        }) as u64,
                    )) ==> final(self).step == Step::Propose,
                    None => final(self).step == Step::Propose,
                })
            },
    {
        let mut effects: Vec<Effect> = Vec::new();
        if token != self.armed_token {
            return effects;
        }
        match self.step {
            Step::Propose => {
                // no proposal in time: abstain
                self.move_to_prevote(VoteTarget::Nil, &mut effects);
                proof {
                    assert(effects@.skip(0) =~= effects@);
                }
            }
            Step::Prevote => {
                // no polka in time: precommit Nil
                self.step = Step::Precommit;
                self.arm_timer(&mut effects);
                self.cast_own_vote(Step::Precommit, VoteTarget::Nil, &mut effects);
                proof {
                    match old(self).signer {
                        Some(me) => {
                            if old(self).validators.spec_contains(me) && !has_counted_in(
                                old(self).votes.spec_counted(),
                                me,
                                old(self).height,
                                old(self).view,
                                Step::Precommit,
                            ) {
                                let msg = signed_by(
                                    me,
                                    old(self).height,
                                    old(self).view,
                                    Step::Precommit,
                                    VoteTarget::Nil,
                                );
                                assert(effects@.last() == Effect::BroadcastVote(msg));
                                assert(broadcasts_vote(effects@, msg));
                            }
                        }
                        None => {}
                    }
                }
            }
            Step::Precommit => {
                // no commit in time: next view
                if self.view < u64::MAX {
                    self.view = self.view + 1;
                }
                self.enter_propose(&mut effects);
                proof {
                    assert(effects@.skip(0) =~= effects@);
                }
            }
            Step::Commit => {}
        }
        effects
    }

    /// A framed consensus message arrived from a peer: decode it and
    /// handle the vote. Bytes that do not decode as a message are
    /// `UnexpectedMessage`.
    pub fn handle_message(&mut self, bytes: &Vec<u8>) -> (r: (Result<(), EngineError>, Vec<Effect>))
        requires
            old(self).wf(),
        ensures
            final(self).wf(),
            final(self).validators == old(self).validators,
            seal_effects_certified(old(self).validators, old(self).height, r.1@),
            crate::codec::spec_dec_message(bytes@, 0) matches Some((m, _end)) ==> vote_outcome(
                *old(self),
                m,
                r.0,
                *final(self),
                r.1@,
            ),
            crate::codec::spec_dec_message(bytes@, 0) is None ==> r.0 == Err::<(), EngineError>(
                EngineError::UnexpectedMessage,
            ) && *final(self) == *old(self) && r.1@.len() == 0,
    {
        match crate::codec::decode_message(bytes, 0) {
            Some((m, _end)) => self.on_vote(m),
            None => (Err(EngineError::UnexpectedMessage), Vec::new()),
        }
    }

    /// Drain the buffered votes for future heights so the caller can
    /// replay them; votes that are still in the future will be buffered
    /// again.
    pub fn take_future_votes(&mut self) -> (r: Vec<ConsensusMessage>)
        requires
            old(self).wf(),
        ensures
            final(self).wf(),
            r@ == old(self).future_votes@,
            final(self).future_votes@.len() == 0,
            final(self).votes == old(self).votes,
            final(self).height == old(self).height,
    {
        let mut out: Vec<ConsensusMessage> = Vec::new();
        core::mem::swap(&mut out, &mut self.future_votes);
        out
    }

    /// Stateless header sanity: the score must be present, the seal must
    /// have its three fields, and the author must be a validator.
    pub fn verify_block_basic(&self, header: &Header) -> (r: Result<(), EngineError>)
        requires
            self.wf(),
        ensures
            r is Ok <==> (header@.seal.len() == 3 && header.score is Some
                && self.validators.spec_contains(header.author)),
            r == Err::<(), EngineError>(EngineError::BadSeal) <==> (header@.seal.len() != 3
                || header.score is None),
            r == Err::<(), EngineError>(EngineError::NotAuthorized) <==> (header@.seal.len() == 3
                && header.score is Some && !self.validators.spec_contains(header.author)),
    {
        if header.seal.len() != 3 {
            return Err(EngineError::BadSeal);
        }
        let has_score = match header.score {
            Some(_) => true,
            None => false,
        };
        if !has_score {
            return Err(EngineError::BadSeal);
        }
        if !self.validators.contains(header.author) {
            return Err(EngineError::NotAuthorized);
        }
        Ok(())
    }

    /// Full external verification of a sealed header: its seal fields must
    /// decode and the precommits must certify the header's own hash at its
    /// height under the current validator set.
    pub fn verify_block_external(&self, header: &Header) -> (r: Result<(), EngineError>)
        requires
            self.wf(),
        ensures
            r is Ok <==> (spec_header_seal(header@) matches Some(parts) && seal_certifies(
                self.validators,
                header.number,
                header.hash,
                parts.0,
                parts.1,
            )),
            r matches Err(e) ==> e == EngineError::BadSeal,
    {
        match seal_from_header(header) {
            Some(seal) => {
                if check_seal_certifies(
                    &self.validators,
                    header.number,
                    header.hash,
                    seal.view,
                    &seal.precommits,
                ) {
                    Ok(())
                } else {
                    Err(EngineError::BadSeal)
                }
            }
            None => Err(EngineError::BadSeal),
        }
    }

    /// Produce the proposal seal for a block we are about to propose:
    /// present exactly when a signer is installed, the block continues the
    /// current height, and we are this round's proposer. The seal carries
    /// the current view, our proposal signature, and no precommits yet.
    /// The signature covers (height, view) with a Nil target: the block's
    /// own hash cannot be signed here, since the seal becomes part of the
    /// block that determines it; the gossiped proposal carries the
    /// hash-bound signature once the sealed block exists.
    pub fn generate_seal(&self, block_number: u64, _parent_hash: u64) -> (r: Option<Seal>)
        requires
            self.wf(),
        ensures
            r is Some <==> (self.signer matches Some(me) && block_number == self.height
                && self.validators.spec_contains(me) && me == self.validators.spec_address_at(
                self.validators.spec_proposer_index(self.height, self.view),
            )),
            r matches Some(seal) ==> seal.view == self.view && seal.precommits@.len() == 0
                && seal.proposer_sig == (Signature {
                signer: self.signer.unwrap(),
                signed: VoteOn {
                    height: block_number,
                    view: self.view,
                    step: Step::Propose,
                    target: VoteTarget::Nil,
                },
            }),
    {
        let me = match self.signer {
            Some(a) => a,
            None => {
                return None;
            }
        };
        if block_number != self.height {
            return None;
        }
        if !self.validators.contains(me) {
            return None;
        }
        if me != self.validators.proposer(self.height, self.view) {
            return None;
        }
        let vote = VoteOn {
            height: self.height,
            view: self.view,
            step: Step::Propose,
            target: VoteTarget::Nil,
        };
        Some(Seal { view: self.view, proposer_sig: Signature::sign(me, vote), precommits: Vec::new() })
    }
}

/// A sequence that contains `m` has a counted vote in `m`'s slot.
proof fn lemma_counted_contains_slot(s: Seq<ConsensusMessage>, m: ConsensusMessage)
    requires
        s.contains(m),
    ensures
        has_counted_in(s, m.spec_signer(), m.on.height, m.on.view, m.on.step),
{
    let j = choose|j: int| 0 <= j < s.len() && s[j] == m;
    assert(in_slot(s[j], m.spec_signer(), m.on.height, m.on.view, m.on.step));
}

/// The collector's slot-occupancy predicate coincides with the
/// sequence-level one.
proof fn lemma_has_counted_iff(c: VoteCollector, signer: u64, height: u64, view: u64, step: Step)
    ensures
        c.spec_has_counted(signer, height, view, step) == has_counted_in(
            c.spec_counted(),
            signer,
            height,
            view,
            step,
        ),
{
    if c.spec_has_counted(signer, height, view, step) {
        let i = choose|i: int|
            0 <= i < c.spec_counted().len() && in_slot(
                c.spec_counted()[i],
                signer,
                height,
                view,
                step,
            );
        assert(in_slot(c.spec_counted()[i], signer, height, view, step));
    }
    if has_counted_in(c.spec_counted(), signer, height, view, step) {
        let i = choose|i: int|
            0 <= i < c.spec_counted().len() && in_slot(
                c.spec_counted()[i],
                signer,
                height,
                view,
                step,
            );
        assert(in_slot(c.spec_counted()[i], signer, height, view, step));
    }
}

/// A collector that already counts `m` holds no conflicting vote in the
/// same slot.
proof fn lemma_no_conflicting_occupant(c: VoteCollector, m: ConsensusMessage)
    requires
        c.wf(),
        c.spec_counted().contains(m),
    ensures
        !(exists|i: int|
            0 <= i < c.spec_counted().len() && crate::collector::same_slot(
                #[trigger] c.spec_counted()[i],
                m,
            ) && c.spec_counted()[i] != m),
{
    if exists|i: int|
        0 <= i < c.spec_counted().len() && crate::collector::same_slot(
            #[trigger] c.spec_counted()[i],
            m,
        ) && c.spec_counted()[i] != m {
        let i = choose|i: int|
            0 <= i < c.spec_counted().len() && crate::collector::same_slot(
                #[trigger] c.spec_counted()[i],
                m,
            ) && c.spec_counted()[i] != m;
        let j = choose|j: int| 0 <= j < c.spec_counted().len() && c.spec_counted()[j] == m;
        crate::collector::lemma_one_counted_vote(c, i, j);
    }
}

/// A collector with no counted vote in `m`'s slot holds no conflicting
/// vote there either.
proof fn lemma_new_vote_had_no_occupant(c: VoteCollector, m: ConsensusMessage)
    requires
        !c.spec_has_counted(m.spec_signer(), m.on.height, m.on.view, m.on.step),
    ensures
        !(exists|i: int|
            0 <= i < c.spec_counted().len() && crate::collector::same_slot(
                #[trigger] c.spec_counted()[i],
                m,
            ) && c.spec_counted()[i] != m),
{
    if exists|i: int|
        0 <= i < c.spec_counted().len() && crate::collector::same_slot(
            #[trigger] c.spec_counted()[i],
            m,
        ) && c.spec_counted()[i] != m {
        let i = choose|i: int|
            0 <= i < c.spec_counted().len() && crate::collector::same_slot(
                #[trigger] c.spec_counted()[i],
                m,
            ) && c.spec_counted()[i] != m;
        assert(crate::collector::in_slot(
            c.spec_counted()[i],
            m.spec_signer(),
            m.on.height,
            m.on.view,
            m.on.step,
        ));
        assert(false);
    }
}

/// Every seal submission among `effects` certifies its block at `height`
/// under `vals`.
pub open spec fn seal_effects_certified(vals: ValidatorSet, height: u64, effects: Seq<Effect>) -> bool {
    forall|i: int|
        0 <= i < effects.len() ==> ((#[trigger] effects[i]) matches Effect::SubmitSeal {
            block_hash,
            seal,
        } ==> seal_certifies(vals, height, block_hash, seal.view, seal.precommits@))
}

/// The proposals of `v` at heights not below `keep_from`, in order.
fn retain_proposals(v: &Vec<ProposalId>, keep_from: u64) -> (r: Vec<ProposalId>)
    ensures
        r@ == retained_proposals(v@, keep_from),
{
    let n = v.len();
    let mut out: Vec<ProposalId> = Vec::new();
    let mut i: usize = 0;
    while i < n
        invariant
            n == v@.len(),
            0 <= i <= n,
            out@ == retained_proposals(v@.take(i as int), keep_from),
        decreases n - i,
    {
        proof {
            assert(v@.take(i + 1).drop_last() =~= v@.take(i as int));
            assert(v@.take(i + 1).last() == v@[i as int]);
        }
        let q = v[i];
        if q.number >= keep_from {
            out.push(q);
        }
        i += 1;
    }
    proof {
        assert(v@.take(n as int) =~= v@);
    }
    out
}

/// The parent of a proposal header is the best committed block.
pub fn best_block_from_proposal_header(header: &Header) -> (r: u64)
    ensures
        r == header.parent_hash,
{
    header.parent_hash
}

} // verus!
