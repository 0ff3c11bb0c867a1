//! Validator sets: membership, stake weights, proposer selection, and the
//! supermajority threshold, together with the weight-counting lemmas that
//! consensus safety rests on.

use vstd::prelude::*;

verus! {

/// One validator: an address and its stake weight.
#[derive(Clone, Copy, Debug, PartialEq, Eq, Structural)]
pub struct Validator {
    pub address: u64,
    pub weight: u64,
}

/// Total weight of a sequence of validators.
pub open spec fn spec_total_weight(s: Seq<Validator>) -> int
    decreases s.len(),
{
    if s.len() == 0 {
        0
    } else {
        spec_total_weight(s.drop_last()) + s.last().weight
    }
}

/// Weight of the validators in `s` whose address lies in `signers`.
pub open spec fn weight_among(s: Seq<Validator>, signers: Set<u64>) -> int
    decreases s.len(),
{
    if s.len() == 0 {
        0
    } else {
        weight_among(s.drop_last(), signers) + if signers.contains(s.last().address) {
            s.last().weight as int
        } else {
            0
        }
    }
}

/// The addresses in `s` are pairwise distinct.
pub open spec fn distinct_addresses(s: Seq<Validator>) -> bool {
    forall|i: int, j: int|
        0 <= i < s.len() && 0 <= j < s.len() && i != j ==> s[i].address != s[j].address
}

/// A well-formed validator sequence: nonempty, distinct addresses, every
/// weight at least one, and a total weight that fits a `u64`.
pub open spec fn valid_validator_seq(s: Seq<Validator>) -> bool {
    &&& s.len() > 0
    &&& distinct_addresses(s)
    &&& (forall|i: int| 0 <= i < s.len() ==> s[i].weight >= 1)
    &&& spec_total_weight(s) <= u64::MAX
}

/// The BFT supermajority threshold for total weight `w`:
/// `ceil((2 * w + 1) / 3)`.
pub open spec fn spec_threshold(w: int) -> int {
    (2 * w + 3) / 3
}

/// Every weight is nonnegative, so the total is too.
pub proof fn lemma_total_weight_nonneg(s: Seq<Validator>)
    ensures
        spec_total_weight(s) >= 0,
    decreases s.len(),
{
    if s.len() > 0 {
        lemma_total_weight_nonneg(s.drop_last());
    }
}

/// The weight among any signer set is bounded by the total weight, and is
/// nonnegative.
pub proof fn lemma_weight_among_bounds(s: Seq<Validator>, signers: Set<u64>)
    ensures
        0 <= weight_among(s, signers),
        weight_among(s, signers) <= spec_total_weight(s),
    decreases s.len(),
{
    if s.len() > 0 {
        lemma_weight_among_bounds(s.drop_last(), signers);
    }
}

/// Monotonicity: a smaller signer set gathers no more weight.
pub proof fn lemma_weight_among_mono(s: Seq<Validator>, a: Set<u64>, b: Set<u64>)
    requires
        a.subset_of(b),
    ensures
        weight_among(s, a) <= weight_among(s, b),
    decreases s.len(),
{
    if s.len() > 0 {
        lemma_weight_among_mono(s.drop_last(), a, b);
    }
}

/// Two signer sets together gather at most the total weight plus the weight
/// of their intersection (each validator is counted once per set it lies in).
pub proof fn lemma_weight_among_overlap(s: Seq<Validator>, a: Set<u64>, b: Set<u64>)
    ensures
        weight_among(s, a) + weight_among(s, b) <= spec_total_weight(s) + weight_among(
            s,
            a.intersect(b),
        ),
    decreases s.len(),
{
    if s.len() > 0 {
        lemma_weight_among_overlap(s.drop_last(), a, b);
    }
}

/// Three times the threshold covers `2 * w + 1`.
pub proof fn lemma_threshold_lower_bound(w: int)
    requires
        w >= 0,
    ensures
        3 * spec_threshold(w) >= 2 * w + 1,
        spec_threshold(w) >= 1,
{
    assert(3 * ((2 * w + 3) / 3) == (2 * w + 3) - (2 * w + 3) % 3) by {
        vstd::arithmetic::div_mod::lemma_fundamental_div_mod(2 * w + 3, 3);
    }
}

/// Safety core: at most one third (strictly, `(w - 1) / 3` by weight) of the
/// validators may misbehave. If two signer sets each reach the threshold,
/// some signer outside the tolerated byzantine set lies in both. An honest
/// signer casts at most one vote per (height, view, step), so two different
/// blocks cannot both gather a threshold of precommits at the same height
/// and view from a set with an honest supermajority.
pub proof fn lemma_conflicting_quorums_share_honest_signer(
    vals: Seq<Validator>,
    a: Set<u64>,
    b: Set<u64>,
    byz: Set<u64>,
)
    requires
        3 * weight_among(vals, byz) <= spec_total_weight(vals) - 1,
        weight_among(vals, a) >= spec_threshold(spec_total_weight(vals)),
        weight_among(vals, b) >= spec_threshold(spec_total_weight(vals)),
    ensures
        exists|signer: u64|
            a.contains(signer) && b.contains(signer) && !byz.contains(signer),
{
    let w = spec_total_weight(vals);
    lemma_total_weight_nonneg(vals);
    lemma_threshold_lower_bound(w);
    if forall|signer: u64|
        a.contains(signer) && b.contains(signer) ==> byz.contains(signer) {
        assert(a.intersect(b).subset_of(byz)) by {
            assert forall|signer: u64| a.intersect(b).contains(signer) implies byz.contains(
                signer,
            ) by {
                assert(a.contains(signer) && b.contains(signer));
            }
        }
        lemma_weight_among_mono(vals, a.intersect(b), byz);
        lemma_weight_among_overlap(vals, a, b);
        assert(false);
    }
}

/// An ordered validator set with stake weights and a cached total.
pub struct ValidatorSet {
    validators: Vec<Validator>,
    total: u64,
}

impl ValidatorSet {
    /// The ordered validators.
    pub closed spec fn spec_validators(self) -> Seq<Validator> {
        self.validators@
    }

    /// The cached total weight is accurate.
    pub closed spec fn total_cached(self) -> bool {
        self.total == spec_total_weight(self.validators@)
    }

    /// Well-formedness: a valid validator sequence whose cached total weight
    /// is accurate.
    pub open spec fn wf(self) -> bool {
        &&& valid_validator_seq(self.spec_validators())
        &&& self.total_cached()
    }

    /// The address at position `i`.
    pub open spec fn spec_address_at(self, i: int) -> u64 {
        self.spec_validators()[i].address
    }

    /// Membership by address.
    pub open spec fn spec_contains(self, address: u64) -> bool {
        exists|i: int|
            0 <= i < self.spec_validators().len() && self.spec_validators()[i].address == address
    }

    /// The weight of `address`, zero when absent.
    pub open spec fn spec_weight_of(self, address: u64) -> int {
        if self.spec_contains(address) {
            self.spec_validators()[choose|i: int|
                0 <= i < self.spec_validators().len() && self.spec_validators()[i].address
                    == address].weight as int
        } else {
            0
        }
    }

    /// The proposer index for `(height, view)`: round-robin over the list,
    /// starting at the first validator for the first block of each view 0.
    pub open spec fn spec_proposer_index(self, height: u64, view: u64) -> int {
        ((if height > 0 {
            height - 1
        } else {
            0
        }) + view) % (self.spec_validators().len() as int)
    }

    /// The proposer address for `(height, view)`.
    pub open spec fn spec_proposer(self, height: u64, view: u64) -> u64 {
        self.spec_address_at(self.spec_proposer_index(height, view))
    }

    /// Build a validator set. Returns `Some` exactly when the list is
    /// nonempty, the addresses are distinct, every weight is at least one,
    /// and the total weight fits a `u64`.
    pub fn new(validators: Vec<Validator>) -> (r: Option<ValidatorSet>)
        ensures
            r is Some ==> {
                &&& r->0.wf()
                &&& r->0.spec_validators() == validators@
            },
            r is None ==> !valid_validator_seq(validators@),
    {
        let n = validators.len();
        if n == 0 {
            return None;
        }
        let mut i: usize = 0;
        while i < n
            invariant
                n == validators.len(),
                0 <= i <= n,
                forall|p: int, q: int|
                    0 <= p < i && 0 <= q < n && p != q ==> validators@[p].address
                        != validators@[q].address,
                forall|p: int| 0 <= p < i ==> validators@[p].weight >= 1,
            decreases n - i,
        {
            if validators[i].weight == 0 {
                return None;
            }
            let mut j: usize = i + 1;
            while j < n
                invariant
                    n == validators.len(),
                    0 <= i < j <= n,
                    forall|q: int|
                        i < q < j ==> validators@[i as int].address != validators@[q].address,
                decreases n - j,
            {
                if validators[i].address == validators[j].address {
                    return None;
                }
                j += 1;
            }
            i += 1;
        }
        let mut total: u64 = 0;
        let mut k: usize = 0;
        while k < n
            invariant
                n == validators.len(),
                0 <= k <= n,
                total == spec_total_weight(validators@.take(k as int)),
                forall|p: int| 0 <= p < n ==> validators@[p].weight >= 1,
                distinct_addresses(validators@),
            decreases n - k,
        {
            proof {
                assert(validators@.take(k + 1).drop_last() =~= validators@.take(k as int));
                assert(validators@.take(k + 1).last() == validators@[k as int]);
                lemma_total_weight_nonneg(validators@.take(k as int));
            }
            let w = validators[k].weight;
            if total > u64::MAX - w {
                proof {
                    lemma_take_total_weight_le(validators@, k + 1);
                }
                return None;
            }
            total += w;
            k += 1;
        }
        proof {
            assert(validators@.take(n as int) =~= validators@);
        }
        Some(ValidatorSet { validators, total })
    }

    /// Number of validators.
    pub fn len(&self) -> (r: usize)
        ensures
            r == self.spec_validators().len(),
    {
        self.validators.len()
    }

    /// The total stake weight.
    pub fn total_weight(&self) -> (r: u64)
        requires
            self.wf(),
        ensures
            r == spec_total_weight(self.spec_validators()),
    {
        self.total
    }

    /// The validator at position `i`.
    pub fn validator_at(&self, i: usize) -> (r: Validator)
        requires
            i < self.spec_validators().len(),
        ensures
            r == self.spec_validators()[i as int],
    {
        self.validators[i]
    }

    /// The supermajority threshold by weight: `ceil((2 * total + 1) / 3)`.
    pub fn threshold(&self) -> (r: u64)
        requires
            self.wf(),
        ensures
            r == spec_threshold(spec_total_weight(self.spec_validators())),
            1 <= r <= spec_total_weight(self.spec_validators()),
    {
        proof {
            lemma_total_weight_nonneg(self.validators@);
            lemma_threshold_lower_bound(self.total as int);
            assert(valid_validator_seq(self.validators@));
            assert(self.validators@.drop_last().len() == self.validators@.len() - 1);
            lemma_total_weight_nonneg(self.validators@.drop_last());
            assert(self.validators@.last().weight >= 1);
            assert(self.total >= 1);
        }
        let t = ((2 * (self.total as u128) + 3) / 3) as u64;
        proof {
            assert(2 * (self.total as int) + 3 == 2 * (self.total as u128) + 3);
            assert((2 * (self.total as u128) + 3) / 3 == spec_threshold(self.total as int));
            assert(3 * spec_threshold(self.total as int) >= 2 * self.total + 1);
            assert(spec_threshold(self.total as int) <= self.total) by {
                vstd::arithmetic::div_mod::lemma_fundamental_div_mod(
                    2 * (self.total as int) + 3,
                    3,
                );
            }
        }
        t
    }

    /// Whether `address` belongs to the set.
    pub fn contains(&self, address: u64) -> (r: bool)
        ensures
            r == self.spec_contains(address),
    {
        let n = self.validators.len();
        let mut i: usize = 0;
        while i < n
            invariant
                n == self.validators@.len(),
                0 <= i <= n,
                forall|p: int| 0 <= p < i ==> self.validators@[p].address != address,
            decreases n - i,
        {
            if self.validators[i].address == address {
                proof {
                    assert(self.spec_validators()[i as int].address == address);
                }
                return true;
            }
            i += 1;
        }
        false
    }

    /// The weight of `address`, zero when it is not a validator.
    pub fn weight_of(&self, address: u64) -> (r: u64)
        requires
            self.wf(),
        ensures
            r == self.spec_weight_of(address),
    {
        let n = self.validators.len();
        let mut i: usize = 0;
        while i < n
            invariant
                n == self.validators@.len(),
                0 <= i <= n,
                forall|p: int| 0 <= p < i ==> self.validators@[p].address != address,
                distinct_addresses(self.validators@),
            decreases n - i,
        {
            if self.validators[i].address == address {
                proof {
                    assert(self.spec_validators()[i as int].address == address);
                    let q = choose|q: int|
                        0 <= q < self.validators@.len() && self.validators@[q].address == address;
                    assert(q == i as int);
                }
                return self.validators[i].weight;
            }
            i += 1;
        }
        0
    }

    /// The proposer for `(height, view)`: a stable round-robin pick over
    /// the ordered list, advancing by one per height and per view.
    pub fn proposer(&self, height: u64, view: u64) -> (r: u64)
        requires
            self.spec_validators().len() > 0,
        ensures
            r == self.spec_address_at(self.spec_proposer_index(height, view)),
    {
        let n = self.validators.len();
        let base: u64 = if height > 0 {
            height - 1
        } else {
            0
        };
        let idx = ((base as u128 + view as u128) % (n as u128)) as usize;
        proof {
            assert(base as u128 + view as u128 == base + view);
            assert((base + view) % (n as u128 as int) == self.spec_proposer_index(height, view));
        }
        self.validators[idx].address
    }
}

/// The total weight of a prefix never exceeds the total weight of the whole
/// sequence, since weights are nonnegative.
pub proof fn lemma_take_total_weight_le(s: Seq<Validator>, k: int)
    requires
        0 <= k <= s.len(),
    ensures
        spec_total_weight(s.take(k)) <= spec_total_weight(s),
    decreases s.len() - k,
{
    if k < s.len() {
        lemma_take_total_weight_le(s, k + 1);
        assert(s.take(k + 1).drop_last() =~= s.take(k));
        assert(s.take(k + 1).last() == s[k]);
        assert(s[k].weight >= 0);
    } else {
        assert(s.take(k) =~= s);
    }
}

} // verus!
