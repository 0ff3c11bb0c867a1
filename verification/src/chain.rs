//! An in-memory chain store: blocks by hash, the canonical number-to-hash
//! index, account balances, sequence numbers and storage. It stands in for
//! real chain storage when the engine is driven in tests.

use vstd::prelude::*;

use crate::fees::Transaction;
use crate::types::Header;

verus! {

/// A block: its header and its transactions.
#[derive(Clone, Debug, PartialEq, Eq)]
pub struct Block {
    pub header: Header,
    pub transactions: Vec<Transaction>,
}

/// How a block may be addressed.
#[derive(Clone, Copy, Debug, PartialEq, Eq, Structural)]
pub enum BlockId {
    Hash(u64),
    Number(u64),
    Earliest,
    Latest,
}

/// The status of a block in the chain.
#[derive(Clone, Copy, Debug, PartialEq, Eq, Structural)]
pub enum BlockStatus {
    InChain,
    Unknown,
}

/// A snapshot of the chain's best state.
#[derive(Clone, Copy, Debug, PartialEq, Eq, Structural)]
pub struct ChainInfo {
    pub best_score: u64,
    pub genesis_hash: u64,
    pub best_block_hash: u64,
    pub best_block_number: u64,
    pub best_block_timestamp: u64,
}

/// The first value bound to `key`, if any.
pub open spec fn spec_kv_get(entries: Seq<(u128, u64)>, key: u128) -> Option<u64>
    decreases entries.len(),
{
    if entries.len() == 0 {
        None
    } else if entries[0].0 == key {
        Some(entries[0].1)
    } else {
        spec_kv_get(entries.skip(1), key)
    }
}

/// A small map from 128-bit keys to 64-bit values, with distinct keys.
pub struct KvMap {
    entries: Vec<(u128, u64)>,
}

impl KvMap {
    /// The entries, in insertion order.
    pub closed spec fn spec_entries(self) -> Seq<(u128, u64)> {
        self.entries@
    }

    /// Keys are distinct.
    pub open spec fn wf(self) -> bool {
        forall|i: int, j: int|
            0 <= i < j < self.spec_entries().len() ==> (#[trigger] self.spec_entries()[i]).0 != (
            #[trigger] self.spec_entries()[j]).0
    }

    /// The value bound to `key`.
    pub open spec fn spec_get(self, key: u128) -> Option<u64> {
        spec_kv_get(self.spec_entries(), key)
    }

    /// An empty map.
    pub fn new() -> (r: KvMap)
        ensures
            r.wf(),
            r.spec_entries().len() == 0,
    {
        KvMap { entries: Vec::new() }
    }

    /// Bind `key` to `value`, replacing any earlier binding.
    #[verifier::loop_isolation(false)]
    pub fn set(&mut self, key: u128, value: u64)
        requires
            old(self).wf(),
        ensures
            final(self).wf(),
            final(self).spec_get(key) == Some(value),
            forall|k: u128| k != key ==> final(self).spec_get(k) == old(self).spec_get(k),
    {
        let n = self.entries.len();
        let mut i: usize = 0;
        while i < n
            invariant
                self.entries@ == old(self).entries@,
                n == self.entries@.len(),
                0 <= i <= n,
                forall|p: int| 0 <= p < i ==> (#[trigger] self.entries@[p]).0 != key,
            decreases n - i,
        {
            if self.entries[i].0 == key {
                self.entries[i] = (key, value);
                proof {
                    lemma_kv_get_update(old(self).entries@, i as int, key, value);
                }
                return ;
            }
            i += 1;
        }
        self.entries.push((key, value));
        proof {
            lemma_kv_get_push(old(self).entries@, key, value);
            assert forall|p: int, q: int|
                0 <= p < q < self.entries@.len() implies (#[trigger] self.entries@[p]).0 != (
            #[trigger] self.entries@[q]).0 by {
                if q == self.entries@.len() - 1 {
                    assert((old(self).entries@[p]).0 != key);
                }
            }
        }
    }

    /// Look up `key`.
    pub fn get(&self, key: u128) -> (r: Option<u64>)
        ensures
            r == self.spec_get(key),
    {
        proof {
            assert(self.entries@.skip(0) =~= self.entries@);
        }
        let n = self.entries.len();
        let mut i: usize = 0;
        while i < n
            invariant
                n == self.entries@.len(),
                0 <= i <= n,
                spec_kv_get(self.entries@, key) == spec_kv_get(self.entries@.skip(i as int), key),
            decreases n - i,
        {
            proof {
                assert(self.entries@.skip(i as int)[0] == self.entries@[i as int]);
                assert(self.entries@.skip(i as int).skip(1) =~= self.entries@.skip(i + 1));
            }
            if self.entries[i].0 == key {
                return Some(self.entries[i].1);
            }
            i += 1;
        }
        proof {
            assert(self.entries@.skip(n as int).len() == 0);
        }
        None
    }
}

/// A key bound at position `i` is what lookup finds after updating it.
proof fn lemma_kv_get_update(entries: Seq<(u128, u64)>, i: int, key: u128, value: u64)
    requires
        0 <= i < entries.len(),
        entries[i].0 == key,
        forall|p: int| 0 <= p < i ==> (#[trigger] entries[p]).0 != key,
        forall|p: int, q: int|
            0 <= p < q < entries.len() ==> (#[trigger] entries[p]).0 != (#[trigger] entries[q]).0,
    ensures
        spec_kv_get(entries.update(i, (key, value)), key) == Some(value),
        forall|k: u128| k != key ==> spec_kv_get(entries.update(i, (key, value)), k) == spec_kv_get(
            entries,
            k,
        ),
        forall|p: int, q: int|
            0 <= p < q < entries.update(i, (key, value)).len() ==> (#[trigger] entries.update(
                i,
                (key, value),
            )[p]).0 != (#[trigger] entries.update(i, (key, value))[q]).0,
    decreases entries.len(),
{
    let u = entries.update(i, (key, value));
    if i == 0 {
        assert(u[0] == (key, value));
        assert forall|k: u128| k != key implies spec_kv_get(u, k) == spec_kv_get(entries, k) by {
            assert(u.skip(1) =~= entries.skip(1));
        }
    } else {
        lemma_kv_get_update(entries.skip(1), i - 1, key, value);
        assert(u.skip(1) =~= entries.skip(1).update(i - 1, (key, value)));
        assert(u[0] == entries[0]);
        assert(entries[0].0 != key);
        assert forall|k: u128| k != key implies spec_kv_get(u, k) == spec_kv_get(entries, k) by {
            assert(spec_kv_get(u.skip(1), k) == spec_kv_get(
                entries.skip(1).update(i - 1, (key, value)),
                k,
            ));
            assert(spec_kv_get(entries.skip(1).update(i - 1, (key, value)), k) == spec_kv_get(
                entries.skip(1),
                k,
            ));
        }
    }
}

/// Lookup after pushing a fresh key.
proof fn lemma_kv_get_push(entries: Seq<(u128, u64)>, key: u128, value: u64)
    requires
        forall|p: int| 0 <= p < entries.len() ==> (#[trigger] entries[p]).0 != key,
    ensures
        spec_kv_get(entries.push((key, value)), key) == Some(value),
        forall|k: u128| k != key ==> spec_kv_get(entries.push((key, value)), k) == spec_kv_get(
            entries,
            k,
        ),
    decreases entries.len(),
{
    let u = entries.push((key, value));
    if entries.len() == 0 {
        assert(u[0] == (key, value));
        assert(u.skip(1) =~= Seq::<(u128, u64)>::empty());
        assert forall|k: u128| k != key implies spec_kv_get(u, k) == spec_kv_get(entries, k) by {
            assert(spec_kv_get(u.skip(1), k) is None);
        }
    } else {
        lemma_kv_get_push(entries.skip(1), key, value);
        assert(u[0] == entries[0]);
        assert(u.skip(1) =~= entries.skip(1).push((key, value)));
        assert forall|k: u128| k != key implies spec_kv_get(u, k) == spec_kv_get(entries, k) by {
            assert(spec_kv_get(u.skip(1), k) == spec_kv_get(entries.skip(1).push((key, value)), k));
            assert(spec_kv_get(entries.skip(1).push((key, value)), k) == spec_kv_get(
                entries.skip(1),
                k,
            ));
        }
    }
}

/// A stored block: its hash and its body.
pub struct StoredBlock {
    pub hash: u64,
    pub block: Block,
}

/// The most recently stored block with `hash`, if any (a re-imported hash
/// shadows the earlier block).
pub open spec fn spec_block_lookup(blocks: Seq<StoredBlock>, hash: u64) -> Option<Block>
    decreases blocks.len(),
{
    if blocks.len() == 0 {
        None
    } else if blocks.last().hash == hash {
        Some(blocks.last().block)
    } else {
        spec_block_lookup(blocks.drop_last(), hash)
    }
}

/// The canonical index rewrite that block import performs: walking back
/// from position `n`, each entry that does not yet name its child's parent
/// is overwritten with it, and the walk continues with that parent's own
/// parent, stopping at the first entry that already agrees (or at the
/// genesis entry, or when the parent is unknown).
pub open spec fn spec_rewrite(
    numbers: Seq<u64>,
    blocks: Seq<StoredBlock>,
    n: int,
    parent: u64,
) -> Seq<u64>
    decreases (if n >= 0 { n + 1 } else { 0 }),
{
    if n <= 0 || n >= numbers.len() {
        numbers
    } else if numbers[n] == parent {
        numbers
    } else {
        let updated = numbers.update(n, parent);
        match spec_block_lookup(blocks, parent) {
            Some(b) => spec_rewrite(updated, blocks, n - 1, b.header.parent_hash),
            None => updated,
        }
    }
}

/// The canonical-index rewrite never touches entries above its starting
/// position.
pub proof fn lemma_rewrite_keeps_above(
    numbers: Seq<u64>,
    blocks: Seq<StoredBlock>,
    n: int,
    parent: u64,
    k: int,
)
    requires
        n < k < numbers.len(),
    ensures
        spec_rewrite(numbers, blocks, n, parent)[k] == numbers[k],
    decreases (if n >= 0 { n + 1 } else { 0 }),
{
    if 0 < n < numbers.len() && numbers[n] != parent {
        match spec_block_lookup(blocks, parent) {
            Some(b) => {
                lemma_rewrite_keeps_above(
                    numbers.update(n, parent),
                    blocks,
                    n - 1,
                    b.header.parent_hash,
                    k,
                );
            }
            None => {}
        }
    }
}

/// The canonical-index rewrite only overwrites entries: the length stands.
pub proof fn lemma_rewrite_keeps_len(
    numbers: Seq<u64>,
    blocks: Seq<StoredBlock>,
    n: int,
    parent: u64,
)
    ensures
        spec_rewrite(numbers, blocks, n, parent).len() == numbers.len(),
    decreases (if n >= 0 { n + 1 } else { 0 }),
{
    if 0 < n < numbers.len() && numbers[n] != parent {
        match spec_block_lookup(blocks, parent) {
            Some(b) => {
                lemma_rewrite_keeps_len(
                    numbers.update(n, parent),
                    blocks,
                    n - 1,
                    b.header.parent_hash,
                );
            }
            None => {}
        }
    }
}

/// The score a header contributes: its score field, or zero when absent.
pub open spec fn score_or_zero(sc: Option<u64>) -> u64 {
    match sc {
        Some(s) => s,
        None => 0,
    }
}

/// Addition capped at the largest representable score.
pub open spec fn saturating_score(a: u64, b: u64) -> int {
    if a + b <= u64::MAX {
        a + b
    } else {
        u64::MAX as int
    }
}

/// The in-memory chain store.
pub struct ChainStore {
    pub blocks: Vec<StoredBlock>,
    pub numbers: Vec<u64>,
    pub extra_data: Vec<u8>,
    pub genesis_hash: u64,
    pub last_hash: u64,
    pub score: u64,
    pub balances: KvMap,
    pub seqs: KvMap,
    pub storage: KvMap,
    pub queue_size: u64,
    pub latest_block_timestamp: u64,
    pub history: Option<u64>,
}

impl ChainStore {
    /// The stored blocks, in arrival order.
    pub open spec fn spec_blocks(self) -> Seq<StoredBlock> {
        self.blocks@
    }

    /// The canonical number-to-hash index.
    pub open spec fn spec_numbers(self) -> Seq<u64> {
        self.numbers@
    }

    /// The maps behave as maps, and the canonical index never names more
    /// blocks than the store holds.
    pub open spec fn wf(self) -> bool {
        &&& self.balances.wf()
        &&& self.seqs.wf()
        &&& self.storage.wf()
        &&& self.spec_numbers().len() >= 1
        &&& self.spec_numbers().len() <= self.spec_blocks().len()
    }

    /// A store holding only the genesis block.
    pub fn new(genesis: Block) -> (r: ChainStore)
        ensures
            r.wf(),
            r.genesis_hash == genesis.header.hash,
            r.last_hash == genesis.header.hash,
            r.spec_numbers().len() == 1,
            r.spec_numbers()[0] == genesis.header.hash,
            r.spec_blocks().len() == 1,
            r.spec_blocks()[0].hash == genesis.header.hash,
            r.spec_blocks()[0].block == genesis,
            r.extra_data@.len() == 0,
            r.score == (match genesis.header.score {
                Some(sc) => sc,
                None => 0u64,
            }),
            forall|k: u128| r.balances.spec_get(k) is None,
            forall|k: u128| r.seqs.spec_get(k) is None,
            forall|k: u128| r.storage.spec_get(k) is None,
            r.queue_size == 0,
            r.latest_block_timestamp == 10_000_000,
            r.history is None,
    {
        ChainStore::new_with_extra_data(genesis, Vec::new())
    }

    /// A store holding only the genesis block, with the extra data every
    /// block built on this store will carry.
    pub fn new_with_extra_data(genesis: Block, extra_data: Vec<u8>) -> (r: ChainStore)
        ensures
            r.wf(),
            r.genesis_hash == genesis.header.hash,
            r.last_hash == genesis.header.hash,
            r.spec_numbers().len() == 1,
            r.spec_numbers()[0] == genesis.header.hash,
            r.spec_blocks().len() == 1,
            r.spec_blocks()[0].hash == genesis.header.hash,
            r.spec_blocks()[0].block == genesis,
            r.extra_data == extra_data,
            r.score == (match genesis.header.score {
                Some(sc) => sc,
                None => 0u64,
            }),
            forall|k: u128| r.balances.spec_get(k) is None,
            forall|k: u128| r.seqs.spec_get(k) is None,
            forall|k: u128| r.storage.spec_get(k) is None,
            r.queue_size == 0,
            r.latest_block_timestamp == 10_000_000,
            r.history is None,
    {
        let genesis_hash = genesis.header.hash;
        let score = match genesis.header.score {
            Some(s) => s,
            None => 0,
        };
        let mut blocks: Vec<StoredBlock> = Vec::new();
        blocks.push(StoredBlock { hash: genesis_hash, block: genesis });
        let mut numbers: Vec<u64> = Vec::new();
        numbers.push(genesis_hash);
        ChainStore {
            blocks,
            numbers,
            extra_data,
            genesis_hash,
            last_hash: genesis_hash,
            score,
            balances: KvMap::new(),
            seqs: KvMap::new(),
            storage: KvMap::new(),
            queue_size: 0,
            latest_block_timestamp: 10_000_000,
            history: None,
        }
    }

    /// Import of an already-sealed block is acknowledged without storage,
    /// answering the zero hash.
    pub fn import_sealed_block(&self, _block: &Block) -> (r: u64)
        ensures
            r == 0,
    {
        0
    }

    /// Set the reported verification-queue size.
    pub fn set_queue_size(&mut self, size: u64)
        requires
            old(self).wf(),
        ensures
            final(self).wf(),
            final(self).queue_size == size,
            final(self).spec_numbers() == old(self).spec_numbers(),
            final(self).spec_blocks() == old(self).spec_blocks(),
            final(self).balances == old(self).balances,
    {
        self.queue_size = size;
    }

    /// Set the timestamp assigned to the latest sealed block.
    pub fn set_latest_block_timestamp(&mut self, ts: u64)
        requires
            old(self).wf(),
        ensures
            final(self).wf(),
            final(self).latest_block_timestamp == ts,
            final(self).spec_numbers() == old(self).spec_numbers(),
            final(self).spec_blocks() == old(self).spec_blocks(),
            final(self).balances == old(self).balances,
    {
        self.latest_block_timestamp = ts;
    }

    /// Set the reported pruning-history size.
    pub fn set_history(&mut self, h: Option<u64>)
        requires
            old(self).wf(),
        ensures
            final(self).wf(),
            final(self).history == h,
            final(self).spec_numbers() == old(self).spec_numbers(),
            final(self).spec_blocks() == old(self).spec_blocks(),
            final(self).balances == old(self).balances,
    {
        self.history = h;
    }

    /// Set the balance of `address`.
    pub fn set_balance(&mut self, address: u64, balance: u64)
        requires
            old(self).wf(),
        ensures
            final(self).wf(),
            final(self).balances.spec_get(address as u128) == Some(balance),
            forall|k: u128|
                k != address as u128 ==> final(self).balances.spec_get(k) == old(
                    self,
                ).balances.spec_get(k),
            final(self).spec_numbers() == old(self).spec_numbers(),
    {
        self.balances.set(address as u128, balance);
    }

    /// The balance of `address`, zero when unknown.
    pub fn balance(&self, address: u64) -> (r: u64)
        ensures
            r == (match self.balances.spec_get(address as u128) {
                Some(b) => b,
                None => 0u64,
            }),
    {
        match self.balances.get(address as u128) {
            Some(b) => b,
            None => 0,
        }
    }

    /// Set the sequence number of `address`.
    pub fn set_seq(&mut self, address: u64, seq_no: u64)
        requires
            old(self).wf(),
        ensures
            final(self).wf(),
            final(self).seqs.spec_get(address as u128) == Some(seq_no),
    {
        self.seqs.set(address as u128, seq_no);
    }

    /// The latest sequence number of `address`, zero when unknown.
    pub fn latest_seq(&self, address: u64) -> (r: u64)
        ensures
            r == (match self.seqs.spec_get(address as u128) {
                Some(s) => s,
                None => 0u64,
            }),
    {
        match self.seqs.get(address as u128) {
            Some(s) => s,
            None => 0,
        }
    }

    /// Set storage `position` of `address` to `value`.
    pub fn set_storage(&mut self, address: u64, position: u64, value: u64)
        requires
            old(self).wf(),
        ensures
            final(self).wf(),
            final(self).storage.spec_get(((address as u128) << 64) | (position as u128)) == Some(
                value,
            ),
    {
        self.storage.set(((address as u128) << 64) | (position as u128), value);
    }

    /// The storage value at `position` of `address`.
    pub fn storage_at(&self, address: u64, position: u64) -> (r: Option<u64>)
        ensures
            r == self.storage.spec_get(((address as u128) << 64) | (position as u128)),
    {
        self.storage.get(((address as u128) << 64) | (position as u128))
    }

    /// The most recently stored block with `hash`, if any.
    pub fn block_by_hash(&self, hash: u64) -> (r: Option<&Block>)
        ensures
            match r {
                Some(b) => spec_block_lookup(self.spec_blocks(), hash) == Some(*b),
                None => spec_block_lookup(self.spec_blocks(), hash) is None,
            },
    {
        proof {
            assert(self.blocks@.take(self.blocks@.len() as int) =~= self.blocks@);
        }
        let mut i: usize = self.blocks.len();
        while i > 0
            invariant
                0 <= i <= self.blocks@.len(),
                spec_block_lookup(self.blocks@, hash) == spec_block_lookup(
                    self.blocks@.take(i as int),
                    hash,
                ),
            decreases i,
        {
            i -= 1;
            proof {
                assert(self.blocks@.take(i + 1).last() == self.blocks@[i as int]);
                assert(self.blocks@.take(i + 1).drop_last() =~= self.blocks@.take(i as int));
            }
            if self.blocks[i].hash == hash {
                return Some(&self.blocks[i].block);
            }
        }
        proof {
            assert(self.blocks@.take(0).len() == 0);
        }
        None
    }

    /// Resolve a block id to a hash.
    pub fn block_hash(&self, id: &BlockId) -> (r: Option<u64>)
        requires
            self.wf(),
        ensures
            match *id {
                BlockId::Hash(h) => r == Some(h),
                BlockId::Number(n) => {
                    if n < self.spec_numbers().len() {
                        r == Some(self.spec_numbers()[n as int])
                    } else {
                        r is None
                    }
                }
                BlockId::Earliest => r == Some(self.spec_numbers()[0]),
                BlockId::Latest => r == Some(self.spec_numbers().last()),
            },
    {
        match id {
            BlockId::Hash(h) => Some(*h),
            BlockId::Number(n) => {
                if *n < self.numbers.len() as u64 {
                    Some(self.numbers[*n as usize])
                } else {
                    None
                }
            }
            BlockId::Earliest => Some(self.numbers[0]),
            BlockId::Latest => Some(self.numbers[self.numbers.len() - 1]),
        }
    }

    /// The status of a block id: in the chain when it resolves to a known
    /// block.
    pub fn block_status(&self, id: &BlockId) -> (r: BlockStatus)
        requires
            self.wf(),
        ensures
            match *id {
                BlockId::Number(n) => r == (if n < self.spec_blocks().len() {
                    BlockStatus::InChain
                } else {
                    BlockStatus::Unknown
                }),
                BlockId::Hash(h) => r == (if spec_block_lookup(self.spec_blocks(), h) is Some {
                    BlockStatus::InChain
                } else {
                    BlockStatus::Unknown
                }),
                BlockId::Earliest => r == BlockStatus::InChain,
                BlockId::Latest => r == BlockStatus::InChain,
            },
    {
        match id {
            BlockId::Number(n) => {
                // a numbered block is known once that many blocks are
                // stored, canonical or not
                if *n < self.blocks.len() as u64 {
                    BlockStatus::InChain
                } else {
                    BlockStatus::Unknown
                }
            }
            BlockId::Hash(h) => {
                match self.block_by_hash(*h) {
                    Some(_) => BlockStatus::InChain,
                    None => BlockStatus::Unknown,
                }
            }
            BlockId::Earliest => BlockStatus::InChain,
            BlockId::Latest => BlockStatus::InChain,
        }
    }

    /// A snapshot of the chain's best state.
    pub fn chain_info(&self) -> (r: ChainInfo)
        requires
            self.wf(),
        ensures
            r.best_score == self.score,
            r.genesis_hash == self.genesis_hash,
            r.best_block_hash == self.last_hash,
            r.best_block_number == self.spec_numbers().len() - 1,
            r.best_block_timestamp == self.spec_numbers().len() - 1,
    {
        let number = (self.numbers.len() - 1) as u64;
        ChainInfo {
            best_score: self.score,
            genesis_hash: self.genesis_hash,
            best_block_hash: self.last_hash,
            best_block_number: number,
            best_block_timestamp: number,
        }
    }

    /// Build the next block on the current head — numbered one past the
    /// best block, with the best block as parent, its number as score, and
    /// the given author — and import it.
    pub fn add_block_with_author(
        &mut self,
        author: Option<u64>,
        hash: u64,
        transactions: Vec<Transaction>,
    ) -> (r: u64)
        requires
            old(self).wf(),
            spec_block_lookup(old(self).spec_blocks(), old(self).last_hash) matches Some(b)
                && b.header.number == old(self).spec_numbers().len() - 1,
        ensures
            final(self).wf(),
            r == hash,
            final(self).last_hash == hash,
            final(self).spec_numbers().len() == old(self).spec_numbers().len() + 1,
            final(self).spec_blocks().len() == old(self).spec_blocks().len() + 1,
            final(self).spec_blocks().last().hash == hash,
            final(self).spec_blocks().last().block.header.number == old(
                self,
            ).spec_numbers().len(),
            final(self).spec_blocks().last().block.header.parent_hash == old(self).last_hash,
            final(self).spec_blocks().last().block.header.author == (match author {
                Some(a) => a,
                None => 0u64,
            }),
            final(self).spec_blocks().last().block.header.score == Some(
                old(self).spec_numbers().len() as u64,
            ),
            final(self).spec_blocks().last().block.header.extra_data@ == old(self).extra_data@,
            final(self).spec_numbers().last() == hash,
    {
        let number = self.numbers.len() as u64;
        let header = Header {
            hash,
            parent_hash: self.last_hash,
            number,
            author: match author {
                Some(a) => a,
                None => 0,
            },
            extra_data: self.extra_data.clone(),
            score: Some(number),
            seal: Vec::new(),
            epoch_signal: None,
        };
        let ghost gnum = self.spec_numbers().len() as int;
        let block = Block { header, transactions };
        let r = self.import_block(block);
        proof {
            assert(self.spec_numbers() == spec_rewrite(
                old(self).spec_numbers().push(hash),
                self.spec_blocks(),
                gnum - 1,
                old(self).last_hash,
            ));
            lemma_rewrite_keeps_len(
                old(self).spec_numbers().push(hash),
                self.spec_blocks(),
                gnum - 1,
                old(self).last_hash,
            );
            lemma_rewrite_keeps_above(
                old(self).spec_numbers().push(hash),
                self.spec_blocks(),
                gnum - 1,
                old(self).last_hash,
                gnum,
            );
            assert(old(self).spec_numbers().push(hash)[gnum] == hash);
        }
        r
    }

    /// Import a block.
    ///
    /// A block at the next fresh number extends the canonical chain: its
    /// score is added, it becomes the best block, and the canonical index
    /// walks back from its parent, overwriting entries that disagree with
    /// the new block's ancestry (the rewrite of `spec_rewrite`). A block
    /// at an already-occupied number is stored by hash only. The caller
    /// must hand blocks whose number is at most the chain length and, for
    /// non-genesis numbers, whose parent is the stored block numbered one
    /// less.
    #[verifier::loop_isolation(false)]
    pub fn import_block(&mut self, block: Block) -> (r: u64)
        requires
            old(self).wf(),
            block.header.number <= old(self).spec_blocks().len(),
            block.header.number > 0 ==> (spec_block_lookup(
                old(self).spec_blocks(),
                block.header.parent_hash,
            ) matches Some(b) && b.header.number == block.header.number - 1),
        ensures
            final(self).wf(),
            r == block.header.hash,
            final(self).spec_blocks() == old(self).spec_blocks().push(
                StoredBlock { hash: block.header.hash, block },
            ),
            final(self).genesis_hash == old(self).genesis_hash,
            final(self).extra_data == old(self).extra_data,
            final(self).balances == old(self).balances,
            final(self).seqs == old(self).seqs,
            final(self).storage == old(self).storage,
            final(self).queue_size == old(self).queue_size,
            final(self).latest_block_timestamp == old(self).latest_block_timestamp,
            final(self).history == old(self).history,
            block.header.number == old(self).spec_numbers().len() ==> {
                &&& final(self).last_hash == block.header.hash
                &&& final(self).spec_numbers() == spec_rewrite(
                    old(self).spec_numbers().push(block.header.hash),
                    final(self).spec_blocks(),
                    block.header.number - 1,
                    block.header.parent_hash,
                )
                &&& final(self).score == saturating_score(
                    old(self).score,
                    score_or_zero(block.header.score),
                )
            },
            block.header.number != old(self).spec_numbers().len() ==> {
                &&& final(self).spec_numbers() == old(self).spec_numbers()
                &&& final(self).last_hash == old(self).last_hash
                &&& final(self).score == old(self).score
            },
    {
        let h = block.header.hash;
        let number = block.header.number;
        let ghost gparent = block.header.parent_hash;
        let mut parent_hash = block.header.parent_hash;
        let fresh = number == self.numbers.len() as u64;
        let header_score = match block.header.score {
            Some(s) => s,
            None => 0,
        };
        self.blocks.push(StoredBlock { hash: h, block });
        let ghost gblocks = self.blocks@;
        if fresh {
            if self.score <= u64::MAX - header_score {
                self.score = self.score + header_score;
            } else {
                self.score = u64::MAX;
            }
            self.last_hash = h;
            self.numbers.push(h);
            let ghost gnumbers = self.numbers@;
            if number > 0 {
                let mut n: usize = (number - 1) as usize;
                while n > 0 && self.numbers[n] != parent_hash
                    invariant
                        0 <= n < self.numbers@.len(),
                        self.numbers@.len() == gnumbers.len(),
                        self.blocks@ == gblocks,
                        self.last_hash == h,
                        self.genesis_hash == old(self).genesis_hash,
                        self.extra_data == old(self).extra_data,
                        self.balances == old(self).balances,
                        self.seqs == old(self).seqs,
                        self.storage == old(self).storage,
                        self.score as int == saturating_score(
                            old(self).score,
                            score_or_zero(block.header.score),
                        ),
                        self.queue_size == old(self).queue_size,
                        self.latest_block_timestamp == old(self).latest_block_timestamp,
                        self.history == old(self).history,
                        spec_rewrite(gnumbers, gblocks, number - 1, gparent) == spec_rewrite(
                            self.numbers@,
                            gblocks,
                            n as int,
                            parent_hash,
                        ),
                    decreases n,
                {
                    let ghost pre_numbers = self.numbers@;
                    self.numbers[n] = parent_hash;
                    proof {
                        assert(self.numbers@ == pre_numbers.update(n as int, parent_hash));
                    }
                    match self.block_by_hash(parent_hash) {
                        Some(b) => {
                            parent_hash = b.header.parent_hash;
                        }
                        None => {
                            proof {
                                assert(spec_block_lookup(gblocks, parent_hash) is None);
                                assert(spec_rewrite(pre_numbers, gblocks, n as int, parent_hash)
                                    == pre_numbers.update(n as int, parent_hash));
                            }
                            return h;
                        }
                    }
                    n -= 1;
                }
            }
        }
        h
    }
}

} // verus!
