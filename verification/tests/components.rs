//! Component-level checks: validator sets, the vote collector, timers,
//! header verification, peer queues, and the chain store.

use tendermint_core::chain::{Block, BlockId, BlockStatus, ChainStore};
use tendermint_core::collector::{VoteCollector, VoteResult};
use tendermint_core::timeout::TimeoutParams;
use tendermint_core::types::{
    ConsensusMessage, EngineError, Header, Seal, Signature, Step, VoteOn, VoteTarget,
};
use tendermint_core::validator::{Validator, ValidatorSet};
use tendermint_core::worker::{best_block_from_proposal_header, Worker};
use tendermint_core::network::PeerQueue;

fn vals(n: u64) -> ValidatorSet {
    let mut list: Vec<Validator> = Vec::new();
    for a in 1..=n {
        list.push(Validator { address: a, weight: 1 });
    }
    ValidatorSet::new(list).expect("a valid set")
}

fn timeouts() -> TimeoutParams {
    TimeoutParams { propose: 100, prevote: 200, precommit: 300, commit: 400, delta: 50 }
}

fn signed_vote(signer: u64, height: u64, view: u64, step: Step, target: VoteTarget) -> ConsensusMessage {
    let v = VoteOn { height, view, step, target };
    ConsensusMessage { on: v, signature: Signature::sign(signer, v) }
}

#[test]
fn validator_set_thresholds() {
    assert_eq!(vals(4).threshold(), 3); // ceil(9 / 3)
    assert_eq!(vals(3).threshold(), 3); // ceil(7 / 3)
    assert_eq!(vals(1).threshold(), 1);
    assert_eq!(vals(7).threshold(), 5); // ceil(15 / 3)
    let weighted = ValidatorSet::new(vec![
        Validator { address: 1, weight: 5 },
        Validator { address: 2, weight: 1 },
    ])
    .expect("valid");
    assert_eq!(weighted.total_weight(), 6);
    assert_eq!(weighted.threshold(), 5); // ceil(13 / 3)
    assert_eq!(weighted.weight_of(1), 5);
    assert_eq!(weighted.weight_of(9), 0);
    assert!(weighted.contains(2));
    assert!(!weighted.contains(3));
}

#[test]
fn validator_set_rejects_bad_input() {
    assert!(ValidatorSet::new(vec![]).is_none());
    assert!(ValidatorSet::new(vec![
        Validator { address: 1, weight: 0 },
    ])
    .is_none());
    assert!(ValidatorSet::new(vec![
        Validator { address: 1, weight: 1 },
        Validator { address: 1, weight: 2 },
    ])
    .is_none());
}

#[test]
fn proposer_rotates_by_height_and_view() {
    let v = vals(4);
    assert_eq!(v.proposer(1, 0), 1);
    assert_eq!(v.proposer(1, 1), 2);
    assert_eq!(v.proposer(2, 0), 2);
    assert_eq!(v.proposer(4, 0), 4);
    assert_eq!(v.proposer(5, 0), 1);
    assert_eq!(v.proposer(1, 4), 1);
}

#[test]
fn collector_counts_once_per_signer_and_slot() {
    let mut c = VoteCollector::new();
    let x = VoteTarget::Block(5);
    let m = signed_vote(1, 1, 0, Step::Prevote, x);
    assert_eq!(c.insert(m), VoteResult::New);
    assert_eq!(c.insert(m), VoteResult::Duplicate);
    let conflicting = signed_vote(1, 1, 0, Step::Prevote, VoteTarget::Nil);
    assert_eq!(c.insert(conflicting), VoteResult::DoubleVote);
    assert_eq!(c.evidence().len(), 1);
    // a different slot counts separately
    assert_eq!(c.insert(signed_vote(1, 1, 1, Step::Prevote, x)), VoteResult::New);
    let v = vals(4);
    assert_eq!(c.weight_for(&v, 1, 0, Step::Prevote, x), 1);
    assert_eq!(c.weight_for(&v, 1, 0, Step::Prevote, VoteTarget::Nil), 0);
}

#[test]
fn collector_signatures_come_out_ascending() {
    let mut c = VoteCollector::new();
    let x = VoteTarget::Block(9);
    for signer in [4u64, 1, 3, 2] {
        assert_eq!(c.insert(signed_vote(signer, 2, 0, Step::Precommit, x)), VoteResult::New);
    }
    let sigs = c.signatures_for(2, 0, Step::Precommit, x);
    let signers: Vec<u64> = sigs.iter().map(|s| s.signer).collect();
    assert_eq!(signers, vec![1, 2, 3, 4]);
}

#[test]
fn collector_prune_releases_old_heights() {
    let mut c = VoteCollector::new();
    let x = VoteTarget::Block(9);
    c.insert(signed_vote(1, 1, 0, Step::Prevote, x));
    c.insert(signed_vote(1, 2, 0, Step::Prevote, x));
    c.prune(2);
    let v = vals(4);
    assert_eq!(c.weight_for(&v, 1, 0, Step::Prevote, x), 0);
    assert_eq!(c.weight_for(&v, 2, 0, Step::Prevote, x), 1);
}

#[test]
fn timeout_backoff_is_linear_per_view() {
    let tp = timeouts();
    assert_eq!(tp.timeout_for(Step::Propose, 0), 100);
    assert_eq!(tp.timeout_for(Step::Propose, 3), 250);
    assert_eq!(tp.timeout_for(Step::Prevote, 1), 250);
    assert_eq!(tp.timeout_for(Step::Precommit, 2), 400);
    assert_eq!(tp.timeout_for(Step::Commit, 0), 400);
    // saturation at the top of the range
    let big = TimeoutParams { propose: u64::MAX, prevote: 0, precommit: 0, commit: 0, delta: u64::MAX };
    assert_eq!(big.timeout_for(Step::Propose, 2), u64::MAX);
}

#[test]
fn verify_block_basic_checks_shape_and_author() {
    let w = Worker::new(vals(4), timeouts(), 1, 0);
    let good = Header {
        hash: 1,
        parent_hash: 0,
        number: 1,
        author: 2,
        extra_data: vec![],
        score: Some(1),
        seal: vec![vec![], vec![], vec![]],
        epoch_signal: None,
    };
    assert!(w.verify_block_basic(&good).is_ok());
    let mut wrong_fields = good.clone();
    wrong_fields.seal = vec![vec![], vec![]];
    assert_eq!(w.verify_block_basic(&wrong_fields), Err(EngineError::BadSeal));
    let mut no_score = good.clone();
    no_score.score = None;
    assert_eq!(w.verify_block_basic(&no_score), Err(EngineError::BadSeal));
    let mut outsider = good.clone();
    outsider.author = 9;
    assert_eq!(w.verify_block_basic(&outsider), Err(EngineError::NotAuthorized));
}

#[test]
fn verify_block_external_checks_the_seal() {
    let w = Worker::new(vals(4), timeouts(), 1, 0);
    let precommit = VoteOn { height: 3, view: 1, step: Step::Precommit, target: VoteTarget::Block(30) };
    let seal = Seal {
        view: 1,
        proposer_sig: Signature::sign(
            1,
            VoteOn { height: 3, view: 1, step: Step::Propose, target: VoteTarget::Block(30) },
        ),
        precommits: vec![
            Signature::sign(1, precommit),
            Signature::sign(2, precommit),
            Signature::sign(4, precommit),
        ],
    };
    let header = Header {
        hash: 30,
        parent_hash: 29,
        number: 3,
        author: 1,
        extra_data: vec![],
        score: Some(1),
        seal: tendermint_core::epoch::seal_to_fields(&seal),
        epoch_signal: None,
    };
    assert!(w.verify_block_external(&header).is_ok());
    // the same seal over another hash does not certify
    let mut forged = header.clone();
    forged.hash = 31;
    assert_eq!(w.verify_block_external(&forged), Err(EngineError::BadSeal));
}

#[test]
fn facade_constants() {
    let w = Worker::new(vals(4), timeouts(), 1, 7);
    assert_eq!(w.seal_fields(), 3);
    assert_eq!(w.recommended_confirmation(), 1);
    assert_eq!(w.block_reward(), 7);
    assert!(!w.has_signer());
    assert_eq!(w.calculate_score(3), u64::MAX - 3);
    assert_eq!(w.engine_type(), tendermint_core::types::EngineType::Pbft);
    assert!(w.can_change_canon_chain(1));
    assert!(!w.can_change_canon_chain(0));
    let h = Header {
        hash: 8,
        parent_hash: 5,
        number: 2,
        author: 1,
        extra_data: vec![],
        score: Some(1),
        seal: vec![],
        epoch_signal: None,
    };
    assert_eq!(best_block_from_proposal_header(&h), 5);
    assert!(w.verify_local_seal(&h).is_ok());
}

#[test]
fn peer_queue_is_bounded_and_ordered() {
    let mut q = PeerQueue::new(2);
    assert!(q.offer(vec![1]));
    assert!(q.offer(vec![2]));
    assert!(!q.offer(vec![3]));
    assert_eq!(q.len(), 2);
    assert_eq!(q.take_next(), Some(vec![1]));
    assert_eq!(q.take_next(), Some(vec![2]));
    assert_eq!(q.take_next(), None);
}

fn header(number: u64, hash: u64, parent: u64, score: u64) -> Header {
    Header {
        hash,
        parent_hash: parent,
        number,
        author: 1,
        extra_data: vec![],
        score: Some(score),
        seal: vec![],
        epoch_signal: None,
    }
}

fn block(number: u64, hash: u64, parent: u64, score: u64) -> Block {
    Block { header: header(number, hash, parent, score), transactions: vec![] }
}

#[test]
fn chain_store_extends_and_looks_up() {
    let mut store = ChainStore::new(block(0, 100, 0, 1));
    assert_eq!(store.import_block(block(1, 101, 100, 2)), 101);
    assert_eq!(store.import_block(block(2, 102, 101, 3)), 102);
    let info = store.chain_info();
    assert_eq!(info.best_block_number, 2);
    assert_eq!(info.best_block_hash, 102);
    assert_eq!(info.best_score, 6);
    assert_eq!(info.genesis_hash, 100);
    assert_eq!(store.block_hash(&BlockId::Number(1)), Some(101));
    assert_eq!(store.block_hash(&BlockId::Earliest), Some(100));
    assert_eq!(store.block_hash(&BlockId::Latest), Some(102));
    assert_eq!(store.block_hash(&BlockId::Number(9)), None);
    assert_eq!(store.block_status(&BlockId::Hash(101)), BlockStatus::InChain);
    assert_eq!(store.block_status(&BlockId::Hash(999)), BlockStatus::Unknown);
    assert_eq!(store.block_by_hash(101).map(|b| b.header.number), Some(1));
}

#[test]
fn chain_store_block_status_counts_stored_blocks() {
    let mut store = ChainStore::new(block(0, 100, 0, 1));
    store.import_block(block(1, 101, 100, 1));
    // a second block at an occupied number is stored by hash only: the
    // canonical index still has two entries, the store three blocks
    store.import_block(block(1, 111, 100, 1));
    assert_eq!(store.numbers.len(), 2);
    assert_eq!(store.blocks.len(), 3);
    assert_eq!(store.block_status(&BlockId::Number(2)), BlockStatus::InChain);
    assert_eq!(store.block_status(&BlockId::Number(3)), BlockStatus::Unknown);
}

#[test]
fn chain_store_carries_extra_data_into_built_blocks() {
    let mut store = ChainStore::new_with_extra_data(block(0, 100, 0, 1), vec![9, 9]);
    store.add_block_with_author(Some(1), 200, vec![]);
    let b = store.block_by_hash(200).expect("stored");
    assert_eq!(b.header.extra_data, vec![9, 9]);
    assert_eq!(store.import_sealed_block(&block(5, 500, 499, 1)), 0);
}

#[test]
fn chain_store_rewrites_canonical_index_on_fork() {
    // canonical chain: g <- a1 <- a2; a fork block b2 arrives at number 2
    // whose parent is a sibling b1 already stored off-chain
    let mut store = ChainStore::new(block(0, 100, 0, 1));
    store.import_block(block(1, 101, 100, 1));
    store.import_block(block(1, 111, 100, 1)); // stored by hash only
    assert_eq!(store.block_hash(&BlockId::Number(1)), Some(101));
    store.import_block(block(2, 112, 111, 1)); // extends through the fork
    // the canonical index was rewritten to the fork's ancestry
    assert_eq!(store.block_hash(&BlockId::Number(1)), Some(111));
    assert_eq!(store.block_hash(&BlockId::Number(2)), Some(112));
    assert_eq!(store.chain_info().best_block_hash, 112);
}

#[test]
fn chain_store_builds_blocks_on_the_head() {
    let mut store = ChainStore::new(block(0, 100, 0, 1));
    let h = store.add_block_with_author(Some(7), 200, vec![]);
    assert_eq!(h, 200);
    let b = store.block_by_hash(200).expect("stored");
    assert_eq!(b.header.number, 1);
    assert_eq!(b.header.parent_hash, 100);
    assert_eq!(b.header.author, 7);
    assert_eq!(b.header.score, Some(1));
    store.add_block_with_author(None, 201, vec![]);
    let info = store.chain_info();
    assert_eq!(info.best_block_number, 2);
    assert_eq!(info.best_block_hash, 201);
}

#[test]
fn chain_store_reporting_knobs() {
    let mut store = ChainStore::new(block(0, 100, 0, 1));
    store.set_queue_size(5);
    assert_eq!(store.queue_size, 5);
    store.set_latest_block_timestamp(42);
    assert_eq!(store.latest_block_timestamp, 42);
    store.set_history(Some(7));
    assert_eq!(store.history, Some(7));
}

#[test]
fn chain_store_accounts() {
    let mut store = ChainStore::new(block(0, 100, 0, 1));
    assert_eq!(store.balance(7), 0);
    store.set_balance(7, 500);
    store.set_balance(8, 20);
    store.set_balance(7, 600);
    assert_eq!(store.balance(7), 600);
    assert_eq!(store.balance(8), 20);
    assert_eq!(store.latest_seq(7), 0);
    store.set_seq(7, 3);
    assert_eq!(store.latest_seq(7), 3);
    assert_eq!(store.storage_at(7, 1), None);
    store.set_storage(7, 1, 42);
    assert_eq!(store.storage_at(7, 1), Some(42));
}
