//! Vote collection: deduplicate and aggregate signed votes by
//! (height, view, step, target).
//!
//! Within a single (height, view, step) each signer contributes at most one
//! *counted* vote; a second, conflicting vote from the same signer is kept
//! as evidence but never counts toward a tally.

use vstd::prelude::*;

use crate::types::{ConsensusMessage, Signature, Step, VoteTarget};
use crate::validator::{
    lemma_take_total_weight_le, lemma_threshold_lower_bound, lemma_total_weight_nonneg,
    lemma_weight_among_bounds, lemma_weight_among_overlap, spec_threshold, spec_total_weight,
    weight_among, Validator, ValidatorSet,
};

verus! {

/// Result of inserting a vote into the collector.
#[derive(Clone, Copy, Debug, PartialEq, Eq, Structural)]
pub enum VoteResult {
    /// First counted vote from this signer at this (height, view, step).
    New,
    /// Exactly the already-counted message; nothing changes.
    Duplicate,
    /// A conflicting vote from a signer that already voted in this slot;
    /// kept as evidence, not counted.
    DoubleVote,
}

/// `m` is a vote by `signer` in the slot `(height, view, step)`.
pub open spec fn in_slot(
    m: ConsensusMessage,
    signer: u64,
    height: u64,
    view: u64,
    step: Step,
) -> bool {
    &&& m.spec_signer() == signer
    &&& m.on.height == height
    &&& m.on.view == view
    &&& m.on.step == step
}

/// The two messages occupy the same slot: same signer, height, view, step.
pub open spec fn same_slot(m1: ConsensusMessage, m2: ConsensusMessage) -> bool {
    in_slot(m1, m2.spec_signer(), m2.on.height, m2.on.view, m2.on.step)
}

/// `m` votes for `target` at `(height, view, step)` (any signer).
pub open spec fn vote_matches(
    m: ConsensusMessage,
    height: u64,
    view: u64,
    step: Step,
    target: VoteTarget,
) -> bool {
    &&& m.on.height == height
    &&& m.on.view == view
    &&& m.on.step == step
    &&& m.on.target == target
}

/// The subsequence of `s` at heights not below `below`, in order.
pub open spec fn retained(s: Seq<ConsensusMessage>, below: u64) -> Seq<ConsensusMessage>
    decreases s.len(),
{
    if s.len() == 0 {
        s
    } else {
        let rest = retained(s.drop_last(), below);
        if s.last().on.height >= below {
            rest.push(s.last())
        } else {
            rest
        }
    }
}

/// The signers among the counted votes `s` whose vote at
/// `(height, view, step)` is for `target`.
pub open spec fn voters_of(
    s: Seq<ConsensusMessage>,
    height: u64,
    view: u64,
    step: Step,
    target: VoteTarget,
) -> Set<u64> {
    Set::new(
        |a: u64|
            exists|i: int|
                0 <= i < s.len() && in_slot(s[i], a, height, view, step) && s[i].on.target
                    == target,
    )
}

/// `sig` is the signature of a vote for `target` at `(height, view, step)`
/// among the first `bound` messages of `s`.
pub open spec fn sourced_sig(
    s: Seq<ConsensusMessage>,
    bound: int,
    height: u64,
    view: u64,
    step: Step,
    target: VoteTarget,
    sig: Signature,
) -> bool {
    exists|k: int|
        0 <= k < bound && vote_matches(s[k], height, view, step, target) && s[k].signature == sig
}

/// Aggregates signed votes, counting at most one per signer and slot.
pub struct VoteCollector {
    counted: Vec<ConsensusMessage>,
    evidence: Vec<ConsensusMessage>,
}

impl VoteCollector {
    /// The counted votes, in arrival order.
    pub closed spec fn spec_counted(self) -> Seq<ConsensusMessage> {
        self.counted@
    }

    /// The conflicting votes kept for evidence, in arrival order.
    pub closed spec fn spec_evidence(self) -> Seq<ConsensusMessage> {
        self.evidence@
    }

    /// No two counted votes occupy the same slot.
    pub open spec fn wf(self) -> bool {
        forall|i: int, j: int|
            0 <= i < j < self.spec_counted().len() ==> !same_slot(
                self.spec_counted()[i],
                self.spec_counted()[j],
            )
    }

    /// Some counted vote by `signer` exists at `(height, view, step)`.
    pub open spec fn spec_has_counted(self, signer: u64, height: u64, view: u64, step: Step) -> bool {
        exists|i: int|
            0 <= i < self.spec_counted().len() && in_slot(
                self.spec_counted()[i],
                signer,
                height,
                view,
                step,
            )
    }

    /// The signers whose counted vote at `(height, view, step)` is for
    /// `target`.
    pub open spec fn spec_voters(self, height: u64, view: u64, step: Step, target: VoteTarget) -> Set<
        u64,
    > {
        voters_of(self.spec_counted(), height, view, step, target)
    }

    /// `sig` is the signature of some counted vote for `target` at
    /// `(height, view, step)`.
    pub open spec fn spec_counted_sig(
        self,
        height: u64,
        view: u64,
        step: Step,
        target: VoteTarget,
        sig: Signature,
    ) -> bool {
        exists|k: int|
            0 <= k < self.spec_counted().len() && vote_matches(
                self.spec_counted()[k],
                height,
                view,
                step,
                target,
            ) && self.spec_counted()[k].signature == sig
    }

    /// An empty collector.
    pub fn new() -> (r: VoteCollector)
        ensures
            r.wf(),
            r.spec_counted().len() == 0,
            r.spec_evidence().len() == 0,
    {
        VoteCollector { counted: Vec::new(), evidence: Vec::new() }
    }

    /// Insert a signed vote.
    ///
    /// The first vote from a signer at a (height, view, step) is counted.
    /// The identical message again is a `Duplicate` and changes nothing. A
    /// different vote from the same signer in the same slot is a
    /// `DoubleVote`: it is appended to the evidence and the counted votes —
    /// and so every tally — stay as they were.
    #[verifier::loop_isolation(false)]
    pub fn insert(&mut self, m: ConsensusMessage) -> (r: VoteResult)
        requires
            old(self).wf(),
        ensures
            final(self).wf(),
            r == VoteResult::New ==> {
                &&& !old(self).spec_has_counted(m.spec_signer(), m.on.height, m.on.view, m.on.step)
                &&& final(self).spec_counted() == old(self).spec_counted().push(m)
                &&& final(self).spec_evidence() == old(self).spec_evidence()
            },
            r == VoteResult::Duplicate ==> {
                &&& old(self).spec_counted().contains(m)
                &&& *final(self) == *old(self)
            },
            r == VoteResult::DoubleVote ==> {
                &&& (exists|i: int|
                    0 <= i < old(self).spec_counted().len() && same_slot(
                        old(self).spec_counted()[i],
                        m,
                    ) && old(self).spec_counted()[i] != m)
                &&& final(self).spec_counted() == old(self).spec_counted()
                &&& final(self).spec_evidence() == old(self).spec_evidence().push(m)
            },
    {
        let n = self.counted.len();
        let mut i: usize = 0;
        while i < n
            invariant
                *self == *old(self),
                n == self.counted@.len(),
                0 <= i <= n,
                forall|p: int| 0 <= p < i ==> !same_slot(self.counted@[p], m),
            decreases n - i,
        {
            let c = self.counted[i];
            if c.signature.signer == m.signature.signer && c.on.height == m.on.height && c.on.view
                == m.on.view && c.on.step == m.on.step {
                if c == m {
                    return VoteResult::Duplicate;
                } else {
                    self.evidence.push(m);
                    return VoteResult::DoubleVote;
                }
            }
            i += 1;
        }
        self.counted.push(m);
        proof {
            assert(old(self).spec_counted() == old(self).counted@);
            assert(self.spec_counted() == self.counted@);
            assert forall|p: int, q: int|
                0 <= p < q < self.counted@.len() implies !same_slot(
                self.counted@[p],
                self.counted@[q],
            ) by {
                if q == self.counted@.len() - 1 {
                    assert(self.counted@[p] == old(self).counted@[p]);
                    assert(!same_slot(old(self).counted@[p], m));
                } else {
                    assert(!same_slot(old(self).spec_counted()[p], old(self).spec_counted()[q]));
                }
            }
            assert(!old(self).spec_has_counted(m.spec_signer(), m.on.height, m.on.view, m.on.step))
                by {
                if old(self).spec_has_counted(m.spec_signer(), m.on.height, m.on.view, m.on.step) {
                    let p = choose|p: int|
                        0 <= p < old(self).spec_counted().len() && in_slot(
                            old(self).spec_counted()[p],
                            m.spec_signer(),
                            m.on.height,
                            m.on.view,
                            m.on.step,
                        );
                    assert(same_slot(old(self).counted@[p], m));
                }
            }
        }
        VoteResult::New
    }

    /// Whether the counted vote by `signer` at `(height, view, step)` exists
    /// and is for `target`.
    pub fn has_counted_vote_for(
        &self,
        signer: u64,
        height: u64,
        view: u64,
        step: Step,
        target: VoteTarget,
    ) -> (r: bool)
        ensures
            r == self.spec_voters(height, view, step, target).contains(signer),
    {
        let n = self.counted.len();
        let mut i: usize = 0;
        while i < n
            invariant
                n == self.counted@.len(),
                0 <= i <= n,
                forall|p: int|
                    0 <= p < i ==> !(in_slot(self.counted@[p], signer, height, view, step)
                        && self.counted@[p].on.target == target),
            decreases n - i,
        {
            let c = self.counted[i];
            if c.signature.signer == signer && c.on.height == height && c.on.view == view && c.on.step
                == step && c.on.target == target {
                proof {
                    assert(in_slot(self.counted@[i as int], signer, height, view, step));
                }
                return true;
            }
            i += 1;
        }
        false
    }

    /// The weighted tally for `target` at `(height, view, step)`: the total
    /// weight of the validators whose counted vote there is for `target`.
    #[verifier::loop_isolation(false)]
    pub fn weight_for(
        &self,
        vals: &ValidatorSet,
        height: u64,
        view: u64,
        step: Step,
        target: VoteTarget,
    ) -> (r: u64)
        requires
            vals.wf(),
        ensures
            r == weight_among(
                vals.spec_validators(),
                self.spec_voters(height, view, step, target),
            ),
    {
        let ghost voters = self.spec_voters(height, view, step, target);
        let ghost vs = vals.spec_validators();
        let n = vals.len();
        let mut total: u64 = 0;
        let mut k: usize = 0;
        while k < n
            invariant
                vals.wf(),
                n == vals.spec_validators().len(),
                vs == vals.spec_validators(),
                voters == self.spec_voters(height, view, step, target),
                0 <= k <= n,
                total == weight_among(vs.take(k as int), voters),
            decreases n - k,
        {
            let v = vals.validator_at(k);
            proof {
                assert(vs.take(k + 1).drop_last() =~= vs.take(k as int));
                assert(vs.take(k + 1).last() == vs[k as int]);
                lemma_weight_among_bounds(vs.take(k + 1), voters);
                lemma_take_total_weight_le(vs, k + 1);
                lemma_weight_among_bounds(vs.take(k as int), voters);
            }
            if self.has_counted_vote_for(v.address, height, view, step, target) {
                total += v.weight;
            }
            k += 1;
        }
        proof {
            assert(vs.take(n as int) =~= vs);
        }
        total
    }

    /// The signatures of the counted votes for `target` at
    /// `(height, view, step)`, in strictly ascending signer order: every
    /// such vote appears exactly once.
    #[verifier::loop_isolation(false)]
    pub fn signatures_for(
        &self,
        height: u64,
        view: u64,
        step: Step,
        target: VoteTarget,
    ) -> (r: Vec<Signature>)
        requires
            self.wf(),
        ensures
            forall|p: int|
                0 <= p < r@.len() ==> self.spec_counted_sig(height, view, step, target, r@[p]),
            forall|k: int|
                0 <= k < self.spec_counted().len() && vote_matches(
                    self.spec_counted()[k],
                    height,
                    view,
                    step,
                    target,
                ) ==> r@.contains(self.spec_counted()[k].signature),
            forall|p: int, q: int| 0 <= p < q < r@.len() ==> r@[p].signer < r@[q].signer,
    {
        let n = self.counted.len();
        let mut out: Vec<Signature> = Vec::new();
        let mut i: usize = 0;
        while i < n
            invariant
                0 <= i <= n,
                forall|p: int|
                    0 <= p < out@.len() ==> sourced_sig(
                        self.counted@,
                        i as int,
                        height,
                        view,
                        step,
                        target,
                        #[trigger] out@[p],
                    ),
                forall|k: int|
                    0 <= k < i && vote_matches(self.counted@[k], height, view, step, target)
                        ==> out@.contains(self.counted@[k].signature),
                forall|p: int, q: int| 0 <= p < q < out@.len() ==> out@[p].signer < out@[q].signer,
            decreases n - i,
        {
            let c = self.counted[i];
            if c.on.height == height && c.on.view == view && c.on.step == step && c.on.target
                == target {
                proof {
                    assert forall|p: int| 0 <= p < out@.len() implies out@[p].signer
                        != c.signature.signer by {
                        assert(sourced_sig(
                            self.counted@,
                            i as int,
                            height,
                            view,
                            step,
                            target,
                            out@[p],
                        ));
                        let k = choose|k: int|
                            0 <= k < i && vote_matches(self.counted@[k], height, view, step, target)
                                && self.counted@[k].signature == out@[p];
                        assert(!same_slot(self.counted@[k], self.counted@[i as int]));
                    }
                }
                let mut pos: usize = 0;
                while pos < out.len() && out[pos].signer < c.signature.signer
                    invariant
                        0 <= pos <= out@.len(),
                        forall|p: int| 0 <= p < pos ==> out@[p].signer < c.signature.signer,
                    decreases out@.len() - pos,
                {
                    pos += 1;
                }
                let ghost old_out = out@;
                out.insert(pos, c.signature);
                proof {
                    assert(out@ == old_out.insert(pos as int, c.signature));
                    assert forall|p: int, q: int|
                        0 <= p < q < out@.len() implies out@[p].signer < out@[q].signer by {
                        let sp = if p < pos { old_out[p] } else if p == pos { c.signature } else {
                            old_out[p - 1]
                        };
                        let sq = if q < pos { old_out[q] } else if q == pos { c.signature } else {
                            old_out[q - 1]
                        };
                        assert(out@[p] == sp);
                        assert(out@[q] == sq);
                    }
                    assert forall|p: int|
                        0 <= p < out@.len() implies sourced_sig(
                        self.counted@,
                        i + 1,
                        height,
                        view,
                        step,
                        target,
                        #[trigger] out@[p],
                    ) by {
                        if p < pos {
                            assert(out@[p] == old_out[p]);
                            assert(sourced_sig(
                                self.counted@,
                                i as int,
                                height,
                                view,
                                step,
                                target,
                                old_out[p],
                            ));
                        } else if p == pos {
                            assert(out@[p] == c.signature);
                            assert(vote_matches(self.counted@[i as int], height, view, step, target)
                                && self.counted@[i as int].signature == out@[p]);
                        } else {
                            assert(out@[p] == old_out[p - 1]);
                            assert(sourced_sig(
                                self.counted@,
                                i as int,
                                height,
                                view,
                                step,
                                target,
                                old_out[p - 1],
                            ));
                        }
                    }
                    assert forall|k: int|
                        0 <= k < i + 1 && vote_matches(self.counted@[k], height, view, step, target)
                        implies out@.contains(self.counted@[k].signature) by {
                        if k == i {
                            assert(out@[pos as int] == c.signature);
                        } else {
                            let p = choose|p: int|
                                0 <= p < old_out.len() && old_out[p] == self.counted@[k].signature;
                            if p < pos {
                                assert(out@[p] == self.counted@[k].signature);
                            } else {
                                assert(out@[p + 1] == self.counted@[k].signature);
                            }
                        }
                    }
                }
            }
            i += 1;
        }
        proof {
            assert forall|p: int| 0 <= p < out@.len() implies self.spec_counted_sig(
                height,
                view,
                step,
                target,
                #[trigger] out@[p],
            ) by {
                assert(sourced_sig(self.counted@, n as int, height, view, step, target, out@[p]));
                let k = choose|k: int|
                    0 <= k < n && vote_matches(self.counted@[k], height, view, step, target)
                        && self.counted@[k].signature == out@[p];
                assert(0 <= k < self.spec_counted().len() && vote_matches(
                    self.spec_counted()[k],
                    height,
                    view,
                    step,
                    target,
                ) && self.spec_counted()[k].signature == out@[p]);
            }
        }
        out
    }

    /// The evidence messages kept from double votes.
    pub fn evidence(&self) -> (r: &Vec<ConsensusMessage>)
        ensures
            r@ == self.spec_evidence(),
    {
        &self.evidence
    }

    /// Number of counted votes over all slots.
    pub fn counted_len(&self) -> (r: usize)
        ensures
            r == self.spec_counted().len(),
    {
        self.counted.len()
    }

    /// Release all votes below `below`: counted votes and evidence at
    /// heights `>= below` are kept, in order.
    pub fn prune(&mut self, below: u64)
        requires
            old(self).wf(),
        ensures
            final(self).wf(),
            final(self).spec_counted() == retained(old(self).spec_counted(), below),
            final(self).spec_evidence() == retained(old(self).spec_evidence(), below),
    {
        let kept_counted = retain_at_least(&self.counted, below);
        let kept_evidence = retain_at_least(&self.evidence, below);
        proof {
            assert(self.spec_counted() == self.counted@);
            assert(self.spec_evidence() == self.evidence@);
            assert forall|i: int, j: int|
                0 <= i < j < self.counted@.len() implies !same_slot(
                self.counted@[i],
                self.counted@[j],
            ) by {
                assert(!same_slot(self.spec_counted()[i], self.spec_counted()[j]));
            }
            assert forall|p: int, q: int|
                0 <= p < q < kept_counted@.len() implies !same_slot(
                kept_counted@[p],
                kept_counted@[q],
            ) by {
                lemma_retained_distinct_slots(self.counted@, below, p, q);
            }
        }
        self.counted = kept_counted;
        self.evidence = kept_evidence;
    }
}

/// The messages of `v` at heights not below `below`, in order.
fn retain_at_least(v: &Vec<ConsensusMessage>, below: u64) -> (r: Vec<ConsensusMessage>)
    ensures
        r@ == retained(v@, below),
{
    let n = v.len();
    let mut out: Vec<ConsensusMessage> = Vec::new();
    let mut i: usize = 0;
    while i < n
        invariant
            n == v@.len(),
            0 <= i <= n,
            out@ == retained(v@.take(i as int), below),
        decreases n - i,
    {
        proof {
            assert(v@.take(i + 1).drop_last() =~= v@.take(i as int));
            assert(v@.take(i + 1).last() == v@[i as int]);
        }
        let m = v[i];
        if m.on.height >= below {
            out.push(m);
        }
        i += 1;
    }
    proof {
        assert(v@.take(n as int) =~= v@);
    }
    out
}

/// `m` occurs in `s` at a height not below `below`.
pub open spec fn appears_at_least(s: Seq<ConsensusMessage>, m: ConsensusMessage, below: u64) -> bool {
    exists|k: int| 0 <= k < s.len() && s[k] == m && m.on.height >= below
}

/// Every retained message is one of the original messages, at a height not
/// below the bound.
pub proof fn lemma_retained_source(s: Seq<ConsensusMessage>, below: u64)
    ensures
        forall|p: int|
            0 <= p < retained(s, below).len() ==> appears_at_least(
                s,
                #[trigger] retained(s, below)[p],
                below,
            ),
    decreases s.len(),
{
    if s.len() > 0 {
        lemma_retained_source(s.drop_last(), below);
        let rest = retained(s.drop_last(), below);
        assert forall|p: int|
            0 <= p < retained(s, below).len() implies appears_at_least(
            s,
            #[trigger] retained(s, below)[p],
            below,
        ) by {
            if p < rest.len() {
                assert(retained(s, below)[p] == rest[p]);
                assert(appears_at_least(s.drop_last(), rest[p], below));
                let k = choose|k: int|
                    0 <= k < s.drop_last().len() && s.drop_last()[k] == rest[p] && rest[
                        p
                    ].on.height >= below;
                assert(s[k] == retained(s, below)[p]);
            } else {
                assert(s[s.len() - 1] == retained(s, below)[p]);
            }
        }
    }
}

/// Pruning keeps slots distinct: two distinct retained positions never
/// share a slot, given the source had distinct slots.
proof fn lemma_retained_distinct_slots(s: Seq<ConsensusMessage>, below: u64, p: int, q: int)
    requires
        forall|i: int, j: int| 0 <= i < j < s.len() ==> !same_slot(s[i], s[j]),
        0 <= p < q < retained(s, below).len(),
    ensures
        !same_slot(retained(s, below)[p], retained(s, below)[q]),
    decreases s.len(),
{
    let rest = retained(s.drop_last(), below);
    if q < rest.len() {
        lemma_retained_distinct_slots(s.drop_last(), below, p, q);
        assert(retained(s, below)[p] == rest[p]);
        assert(retained(s, below)[q] == rest[q]);
    } else {
        // q points at the last element of s; p is inside the retained prefix
        lemma_retained_source(s.drop_last(), below);
        assert(retained(s, below)[p] == rest[p]);
        assert(appears_at_least(s.drop_last(), rest[p], below));
        let k = choose|k: int|
            0 <= k < s.drop_last().len() && s.drop_last()[k] == rest[p] && rest[p].on.height
                >= below;
        assert(!same_slot(s[k], s[s.len() - 1]));
    }
}

/// Law: the collector retains at most one counted vote per signer and slot —
/// two counted positions in the same (height, view, step) with the same
/// signer are the same position.
pub proof fn lemma_one_counted_vote(c: VoteCollector, i: int, j: int)
    requires
        c.wf(),
        0 <= i < c.spec_counted().len(),
        0 <= j < c.spec_counted().len(),
        same_slot(c.spec_counted()[i], c.spec_counted()[j]),
    ensures
        i == j,
{
    if i < j {
        assert(!same_slot(c.spec_counted()[i], c.spec_counted()[j]));
    } else if j < i {
        assert(!same_slot(c.spec_counted()[j], c.spec_counted()[i]));
    }
}

/// The weight among a signer set that contains no address is zero.
proof fn lemma_weight_among_none(s: Seq<Validator>, e: Set<u64>)
    requires
        forall|a: u64| !e.contains(a),
    ensures
        weight_among(s, e) == 0,
    decreases s.len(),
{
    if s.len() > 0 {
        lemma_weight_among_none(s.drop_last(), e);
    }
}

/// Law: within one collector, one (height, view, step) and one validator
/// set, two different targets cannot both gather a threshold of counted
/// weight. In particular two different blocks cannot both collect threshold
/// precommits at the same height and view.
pub proof fn lemma_no_two_quorums(
    c: VoteCollector,
    vals: Seq<Validator>,
    height: u64,
    view: u64,
    step: Step,
    t1: VoteTarget,
    t2: VoteTarget,
)
    requires
        c.wf(),
        t1 != t2,
    ensures
        !(weight_among(vals, c.spec_voters(height, view, step, t1)) >= spec_threshold(
            spec_total_weight(vals),
        ) && weight_among(vals, c.spec_voters(height, view, step, t2)) >= spec_threshold(
            spec_total_weight(vals),
        )),
{
    let w = spec_total_weight(vals);
    let a = c.spec_voters(height, view, step, t1);
    let b = c.spec_voters(height, view, step, t2);
    lemma_total_weight_nonneg(vals);
    lemma_threshold_lower_bound(w);
    assert forall|x: u64| !(a.intersect(b).contains(x)) by {
        if a.contains(x) && b.contains(x) {
            let i = choose|i: int|
                0 <= i < c.spec_counted().len() && in_slot(c.spec_counted()[i], x, height, view, step)
                    && c.spec_counted()[i].on.target == t1;
            let j = choose|j: int|
                0 <= j < c.spec_counted().len() && in_slot(c.spec_counted()[j], x, height, view, step)
                    && c.spec_counted()[j].on.target == t2;
            lemma_one_counted_vote(c, i, j);
        }
    }
    lemma_weight_among_none(vals, a.intersect(b));
    lemma_weight_among_overlap(vals, a, b);
}

} // verus!
