use vstd::prelude::*;
use crate::block::Block;
use crate::block::BlockV;
use crate::block::block_valid_against;
use crate::block::genesis_shape;
use crate::block::pow_ok;
use crate::block::no_nonce_works;
use crate::block::zeros64;
use crate::transaction::clone_transactions;
use crate::mempool::MemPool;
use crate::transaction::Transaction;
use crate::transaction::tx_valid;
use crate::strutil::str_eq;

verus! {

/// Seconds targeted between consecutive blocks, for difficulty adjustment.
pub const TARGET_BLOCK_TIME: u64 = 10;

/// Number of blocks between two difficulty adjustments.
pub const ADJUSTMENT_INTERVAL: usize = 10;

/// Most transactions a mined block takes from the pool.
pub const BLOCK_TX_LIMIT: usize = 10;

/// The ordered block sequence with its mempool and difficulty policy.
pub struct Blockchain {
    pub chain: Vec<Block>,
    pub difficulty: u32,
    pub mempool: MemPool,
    pub target_block_time: u64,
    pub adjustment_interval: usize,
}

/// Every block from the second on is valid against its predecessor.
pub open spec fn chain_valid(c: Seq<BlockV>) -> bool {
    forall|i: int| 1 <= i < c.len() ==> #[trigger] block_valid_against(c[i], c[i - 1])
}

/// In a valid chain rooted at index 0, every block's index is its position.
pub proof fn lemma_chain_indexes(c: Seq<BlockV>)
    requires
        chain_valid(c),
        c.len() >= 1,
        c[0].index == 0,
    ensures
        forall|i: int| 0 <= i < c.len() ==> c[i].index == i,
    decreases c.len(),
{
    if c.len() > 1 {
        let d = c.drop_last();
        assert forall|i: int| 1 <= i < d.len() implies #[trigger] block_valid_against(d[i], d[i - 1]) by {
            assert(block_valid_against(c[i], c[i - 1]));
        }
        lemma_chain_indexes(d);
        let n = c.len() - 1;
        assert(block_valid_against(c[n], c[n - 1]));
        assert forall|i: int| 0 <= i < c.len() implies c[i].index == i by {
            if i < n {
                assert(d[i] == c[i]);
                assert(d[i].index == i);
            } else {
                assert(i == n);
                assert(d[n - 1] == c[n - 1]);
                assert(d[n - 1].index == n - 1);
                assert(c[n].index == c[n - 1].index + 1);
            }
        }
    }
}

/// The signed effect of one transaction on one address's balance.
pub open spec fn tx_delta(t: Transaction, addr: Seq<char>) -> int {
    (if t.to@ == addr {
        t.amount as int
    } else {
        0
    }) - (if t.from@ == addr {
        t.amount as int
    } else {
        0
    })
}

/// The balance an address accumulates over a transaction sequence.
pub open spec fn txs_balance(txs: Seq<Transaction>, addr: Seq<char>) -> int
    decreases txs.len(),
{
    if txs.len() == 0 {
        0
    } else {
        txs_balance(txs.drop_last(), addr) + tx_delta(txs.last(), addr)
    }
}

/// The sum of all amounts in a transaction sequence.
pub open spec fn txs_amount_sum(txs: Seq<Transaction>) -> int
    decreases txs.len(),
{
    if txs.len() == 0 {
        0
    } else {
        txs_amount_sum(txs.drop_last()) + txs.last().amount
    }
}

/// The balance an address accumulates over a whole chain, in chain order.
pub open spec fn chain_balance(c: Seq<BlockV>, addr: Seq<char>) -> int
    decreases c.len(),
{
    if c.len() == 0 {
        0
    } else {
        chain_balance(c.drop_last(), addr) + txs_balance(c.last().transactions, addr)
    }
}

/// The sum of all amounts in a whole chain.
pub open spec fn chain_amount_sum(c: Seq<BlockV>) -> int
    decreases c.len(),
{
    if c.len() == 0 {
        0
    } else {
        chain_amount_sum(c.drop_last()) + txs_amount_sum(c.last().transactions)
    }
}

proof fn lemma_txs_balance_bound(txs: Seq<Transaction>, addr: Seq<char>)
    ensures
        txs_amount_sum(txs) >= 0,
        -txs_amount_sum(txs) <= txs_balance(txs, addr) <= txs_amount_sum(txs),
    decreases txs.len(),
{
    if txs.len() > 0 {
        lemma_txs_balance_bound(txs.drop_last(), addr);
    }
}

proof fn lemma_chain_balance_bound(c: Seq<BlockV>, addr: Seq<char>)
    ensures
        chain_amount_sum(c) >= 0,
        -chain_amount_sum(c) <= chain_balance(c, addr) <= chain_amount_sum(c),
    decreases c.len(),
{
    if c.len() > 0 {
        lemma_chain_balance_bound(c.drop_last(), addr);
        lemma_txs_balance_bound(c.last().transactions, addr);
    }
}

proof fn lemma_txs_take_step(txs: Seq<Transaction>, j: int, addr: Seq<char>)
    requires
        0 <= j < txs.len(),
    ensures
        txs_balance(txs.take(j + 1), addr) == txs_balance(txs.take(j), addr) + tx_delta(
            txs[j],
            addr,
        ),
        txs_amount_sum(txs.take(j + 1)) == txs_amount_sum(txs.take(j)) + txs[j].amount,
{
    assert(txs.take(j + 1).drop_last() =~= txs.take(j));
    assert(txs.take(j + 1).last() == txs[j]);
}

proof fn lemma_txs_sum_prefix(txs: Seq<Transaction>, j: int)
    requires
        0 <= j <= txs.len(),
    ensures
        txs_amount_sum(txs.take(j)) <= txs_amount_sum(txs),
    decreases txs.len() - j,
{
    if j == txs.len() {
        assert(txs.take(j) =~= txs);
    } else {
        lemma_txs_take_step(txs, j, Seq::empty());
        lemma_txs_sum_prefix(txs, j + 1);
    }
}

proof fn lemma_chain_take_step(c: Seq<BlockV>, i: int, addr: Seq<char>)
    requires
        0 <= i < c.len(),
    ensures
        chain_balance(c.take(i + 1), addr) == chain_balance(c.take(i), addr) + txs_balance(
            c[i].transactions,
            addr,
        ),
        chain_amount_sum(c.take(i + 1)) == chain_amount_sum(c.take(i)) + txs_amount_sum(
            c[i].transactions,
        ),
{
    assert(c.take(i + 1).drop_last() =~= c.take(i));
    assert(c.take(i + 1).last() == c[i]);
}

proof fn lemma_chain_sum_prefix(c: Seq<BlockV>, i: int)
    requires
        0 <= i <= c.len(),
    ensures
        chain_amount_sum(c.take(i)) <= chain_amount_sum(c),
    decreases c.len() - i,
{
    if i == c.len() {
        assert(c.take(i) =~= c);
    } else {
        lemma_chain_take_step(c, i, Seq::empty());
        lemma_txs_balance_bound(c[i].transactions, Seq::empty());
        lemma_chain_sum_prefix(c, i + 1);
    }
}

/// How many transactions a mined block takes from a pool of `n`.
pub open spec fn mine_take_count(n: nat) -> nat {
    if n < BLOCK_TX_LIMIT as nat {
        n
    } else {
        BLOCK_TX_LIMIT as nat
    }
}

/// The transactions a mining attempt takes from a pool: the most recent
/// `mine_take_count` of them, newest first.
pub open spec fn mined_txs_of(pool: Seq<Transaction>) -> Seq<Transaction> {
    Seq::new(mine_take_count(pool.len()), |j: int| pool[pool.len() - 1 - j])
}

/// The difficulty-adjustment rule: when the chain length is a positive
/// multiple of the interval and reaches past one interval, compare the time
/// the last interval took against the target; speed up (+1) when blocks came
/// too fast, slow down (-1, never below 1) when they came too slow.
pub open spec fn adjusted_difficulty(
    c: Seq<BlockV>,
    d: u32,
    target_block_time: u64,
    interval: usize,
) -> u32 {
    if interval >= 1 && c.len() >= 1 && (c.len() as int) % (interval as int) == 0 && c.len() - 1
        >= interval {
        let actual = c.last().timestamp - c[c.len() - 1 - interval].timestamp;
        let target = (target_block_time as int) * (interval as int);
        if 0 < actual && actual < target {
            if d < u32::MAX {
                (d + 1) as u32
            } else {
                d
            }
        } else if actual > target && d > 1 {
            (d - 1) as u32
        } else {
            d
        }
    } else {
        d
    }
}


/// A LIFO extraction followed by its restoration reads as the original pool.
proof fn lemma_restored_pool(orig: Seq<Transaction>, drained: Seq<Transaction>, restored: Seq<Transaction>)
    requires
        drained.len() <= orig.len(),
        forall|j: int| 0 <= j < drained.len() ==> drained[j] == orig[orig.len() - 1 - j],
        restored == orig.take(orig.len() - drained.len()) + drained.reverse(),
    ensures
        restored == orig,
{
    assert forall|i: int| 0 <= i < restored.len() implies restored[i] == orig[i] by {
        if i >= orig.len() - drained.len() {
            let j = i - (orig.len() - drained.len());
            assert(restored[i] == drained.reverse()[j]);
            assert(drained.reverse()[j] == drained[drained.len() - 1 - j]);
        }
    }
    assert(restored =~= orig);
}

impl Blockchain {
    /// Well-formedness: a non-empty chain rooted at index 0 whose links are
    /// all valid, a pool of valid transactions, and a positive interval.
    pub open spec fn wf(self) -> bool {
        &&& self.chain.deep_view().len() >= 1
        &&& self.chain.deep_view()[0].index == 0
        &&& chain_valid(self.chain.deep_view())
        &&& self.mempool.wf()
        &&& self.adjustment_interval >= 1
    }

    /// Builds a blockchain seeded with the genesis block and an empty pool.
    /// The genesis block is mined: its hash meets the difficulty unless no
    /// 32-bit nonce at all works for the captured timestamp.
    pub fn new() -> (r: Blockchain)
        ensures
            r.wf(),
            r.chain.deep_view().len() == 1,
            genesis_shape(r.chain.deep_view()[0]),
            pow_ok(
                0,
                r.chain.deep_view()[0].timestamp,
                r.chain.deep_view()[0].transactions,
                zeros64(),
                r.chain.deep_view()[0].nonce,
            ) || no_nonce_works(
                0,
                r.chain.deep_view()[0].timestamp,
                r.chain.deep_view()[0].transactions,
                zeros64(),
            ),
            r.mempool.transactions@.len() == 0,
            r.difficulty == 2,
            r.target_block_time == TARGET_BLOCK_TIME,
            r.adjustment_interval == ADJUSTMENT_INTERVAL,
    {
        let genesis = Block::genesis();
        let mut chain: Vec<Block> = Vec::new();
        chain.push(genesis);
        let r = Blockchain {
            chain,
            difficulty: 2,
            mempool: MemPool::new(),
            target_block_time: TARGET_BLOCK_TIME,
            adjustment_interval: ADJUSTMENT_INTERVAL,
        };
        proof {
            assert(r.chain.deep_view().len() == 1);
            assert(r.chain.deep_view()[0] == r.chain@[0]@);
        }
        r
    }

    /// Validates `tx` and inserts it into the mempool; the chain and the
    /// difficulty policy are untouched.
    pub fn add_transaction(&mut self, tx: Transaction) -> (r: bool)
        ensures
            r == tx_valid(tx),
            r ==> final(self).mempool.transactions@ == old(self).mempool.transactions@.push(tx),
            !r ==> final(self).mempool == old(self).mempool,
            final(self).chain == old(self).chain,
            final(self).difficulty == old(self).difficulty,
            final(self).target_block_time == old(self).target_block_time,
            final(self).adjustment_interval == old(self).adjustment_interval,
            old(self).wf() ==> final(self).wf(),
    {
        self.mempool.add_transaction(tx)
    }

    /// Applies the difficulty-adjustment rule to the current chain.
    pub fn adjust_difficulty(&mut self)
        requires
            old(self).adjustment_interval >= 1,
        ensures
            final(self).difficulty == adjusted_difficulty(
                old(self).chain.deep_view(),
                old(self).difficulty,
                old(self).target_block_time,
                old(self).adjustment_interval,
            ),
            final(self).chain == old(self).chain,
            final(self).mempool == old(self).mempool,
            final(self).target_block_time == old(self).target_block_time,
            final(self).adjustment_interval == old(self).adjustment_interval,
    {
        let len = self.chain.len();
        if len == 0 {
            return;
        }
        if len % self.adjustment_interval != 0 {
            return;
        }
        if len - 1 < self.adjustment_interval {
            return;
        }
        let last_ts = self.chain[len - 1].timestamp;
        let early_ts = self.chain[len - 1 - self.adjustment_interval].timestamp;
        proof {
            assert(self.chain.deep_view().last() == self.chain@[len - 1]@);
            assert(self.chain.deep_view()[len - 1 - self.adjustment_interval] == self.chain@[len - 1
                - self.adjustment_interval]@);
        }
        proof {
            assert((self.target_block_time as int) * (self.adjustment_interval as int) <= (
            u128::MAX as int)) by (nonlinear_arith)
                requires
                    0 <= (self.target_block_time as int) <= (u64::MAX as int),
                    0 <= (self.adjustment_interval as int) <= (u64::MAX as int),
            ;
        }
        let target = (self.target_block_time as u128) * (self.adjustment_interval as u128);
        if last_ts > early_ts {
            let actual = (last_ts - early_ts) as u128;
            if actual < target {
                if self.difficulty < u32::MAX {
                    self.difficulty = self.difficulty + 1;
                }
            } else if actual > target {
                if self.difficulty > 1 {
                    self.difficulty = self.difficulty - 1;
                }
            }
        }
    }

    /// Takes up to `BLOCK_TX_LIMIT` transactions from the pool (most recent
    /// first), mines a candidate over them against the current tail, and
    /// appends it when it validates; reports success. Failure happens only
    /// with an empty pool, a chain whose next index would not fit, or a
    /// timestamp for which no nonce at all works — and then nothing changes:
    /// any drained transactions are returned to the pool.
    pub fn mine_block(&mut self) -> (r: bool)
        requires
            old(self).wf(),
        ensures
            final(self).wf(),
            final(self).chain.deep_view()[0] == old(self).chain.deep_view()[0],
            final(self).target_block_time == old(self).target_block_time,
            final(self).adjustment_interval == old(self).adjustment_interval,
            old(self).mempool.transactions@.len() == 0 ==> !r && *final(self) == *old(self),
            !r ==> final(self).chain == old(self).chain && final(self).difficulty == old(
                self,
            ).difficulty && final(self).mempool.transactions@ == old(self).mempool.transactions@,
            !r ==> old(self).mempool.transactions@.len() == 0 || old(self).chain@.len() > (
            u32::MAX as usize) || (exists|ts: u64|
                #[trigger] no_nonce_works(
                    old(self).chain@.len() as u32,
                    ts,
                    mined_txs_of(old(self).mempool.transactions@),
                    old(self).chain.deep_view().last().hash,
                )),
            r ==> {
                &&& final(self).chain.deep_view().len() == old(self).chain.deep_view().len() + 1
                &&& final(self).chain.deep_view().take(old(self).chain.deep_view().len() as int)
                    == old(self).chain.deep_view()
                &&& block_valid_against(
                    final(self).chain.deep_view().last(),
                    old(self).chain.deep_view().last(),
                )
                &&& final(self).mempool.transactions@ == old(self).mempool.transactions@.take(
                    old(self).mempool.transactions@.len() - mine_take_count(
                        old(self).mempool.transactions@.len(),
                    ),
                )
                &&& final(self).chain.deep_view().last().transactions.len() == mine_take_count(
                    old(self).mempool.transactions@.len(),
                )
                &&& (forall|j: int|
                    0 <= j < final(self).chain.deep_view().last().transactions.len()
                        ==> final(self).chain.deep_view().last().transactions[j] == old(
                        self,
                    ).mempool.transactions@[old(self).mempool.transactions@.len() - 1 - j])
                &&& final(self).difficulty == adjusted_difficulty(
                    final(self).chain.deep_view(),
                    old(self).difficulty,
                    old(self).target_block_time,
                    old(self).adjustment_interval,
                )
            },
    {
        if self.mempool.size() == 0 {
            return false;
        }
        let transactions = self.mempool.get_transactions(BLOCK_TX_LIMIT);
        let ghost orig_pool = old(self).mempool.transactions@;
        let ghost drained = transactions@;
        proof {
            assert forall|i: int| 0 <= i < drained.len() implies tx_valid(
                #[trigger] drained[i],
            ) by {
                assert(drained[i] == orig_pool[orig_pool.len() - 1 - i]);
            }
        }
        if self.chain.len() > (u32::MAX as usize) {
            self.mempool.restore_transactions(transactions);
            proof {
                lemma_restored_pool(orig_pool, drained, self.mempool.transactions@);
            }
            return false;
        }
        let new_index = self.chain.len() as u32;
        let tail_pos = self.chain.len() - 1;
        let prev_hash = self.chain[tail_pos].hash.clone();
        proof {
            lemma_chain_indexes(old(self).chain.deep_view());
            assert(self.chain.deep_view()[tail_pos as int] == self.chain@[tail_pos as int]@);
        }
        let mining_txs = clone_transactions(&transactions);
        proof {
            assert(mining_txs@ =~= mined_txs_of(orig_pool));
            assert(prev_hash@ == old(self).chain.deep_view().last().hash);
        }
        let candidate = Block::new(new_index, mining_txs, prev_hash);
        match candidate {
            None => {
                self.mempool.restore_transactions(transactions);
                proof {
                    lemma_restored_pool(orig_pool, drained, self.mempool.transactions@);
                    let ts = choose|ts: u64|
                        no_nonce_works(new_index, ts, mining_txs@, prev_hash@);
                    assert(no_nonce_works(
                        old(self).chain@.len() as u32,
                        ts,
                        mined_txs_of(orig_pool),
                        old(self).chain.deep_view().last().hash,
                    ));
                }
                false
            },
            Some(b) => {
                let valid = b.is_valid(&self.chain[tail_pos]);
                proof {
                    // the freshly mined candidate always validates against the tail
                    assert(block_valid_against(b@, self.chain@[tail_pos as int]@));
                }
                if valid {
                    self.chain.push(b);
                    proof {
                        let oldc = old(self).chain.deep_view();
                        let newc = self.chain.deep_view();
                        assert(newc.len() == oldc.len() + 1);
                        assert forall|k: int| 0 <= k < newc.len() implies newc[k] == (if k
                            < oldc.len() {
                            oldc[k]
                        } else {
                            b@
                        }) by {
                            if k < oldc.len() {
                                assert(newc[k] == self.chain@[k]@);
                                assert(oldc[k] == old(self).chain@[k]@);
                            } else {
                                assert(newc[k] == self.chain@[k]@);
                            }
                        }
                        assert(newc.take(oldc.len() as int) =~= oldc);
                        assert(chain_valid(newc));
                    }
                    self.adjust_difficulty();
                    true
                } else {
                    // unreachable: the assertion above shows the check cannot fail
                    proof {
                        assert(false);
                    }
                    false
                }
            },
        }
    }

    /// Checks every block against its predecessor, exactly `chain_valid`.
    pub fn is_chain_valid(&self) -> (r: bool)
        ensures
            r == chain_valid(self.chain.deep_view()),
    {
        let ghost c = self.chain.deep_view();
        let mut i: usize = 1;
        while i < self.chain.len()
            invariant
                1 <= i,
                i <= self.chain@.len() || i == 1,
                c == self.chain.deep_view(),
                forall|j: int| 1 <= j < i ==> #[trigger] block_valid_against(c[j], c[j - 1]),
            decreases self.chain@.len() - i,
        {
            let valid = self.chain[i].is_valid(&self.chain[i - 1]);
            proof {
                assert(c[i as int] == self.chain@[i as int]@);
                assert(c[i as int - 1] == self.chain@[i as int - 1]@);
            }
            if !valid {
                return false;
            }
            i = i + 1;
        }
        true
    }


    /// Decides well-formedness exactly as `wf` states it, for callers outside
    /// the proof (the constructor and every verified mutation preserve it).
    pub fn is_well_formed(&self) -> (r: bool)
        ensures
            r == self.wf(),
    {
        if self.chain.len() == 0 {
            return false;
        }
        if self.adjustment_interval == 0 {
            return false;
        }
        proof {
            assert(self.chain.deep_view()[0] == self.chain@[0]@);
        }
        if self.chain[0].index != 0 {
            return false;
        }
        if !self.is_chain_valid() {
            return false;
        }
        let mut i: usize = 0;
        while i < self.mempool.transactions.len()
            invariant
                i <= self.mempool.transactions@.len(),
                forall|j: int| 0 <= j < i ==> tx_valid(self.mempool.transactions@[j]),
            decreases self.mempool.transactions@.len() - i,
        {
            if !self.mempool.transactions[i].is_valid() {
                return false;
            }
            i = i + 1;
        }
        true
    }

    /// Decides whether the total amount moved by the chain fits the balance
    /// type, exactly the requirement of `get_balance`.
    pub fn amounts_within_limit(&self) -> (r: bool)
        ensures
            r == (chain_amount_sum(self.chain.deep_view()) <= i128::MAX),
    {
        let ghost c = self.chain.deep_view();
        let mut sum: i128 = 0;
        let mut i: usize = 0;
        while i < self.chain.len()
            invariant
                i <= self.chain@.len(),
                c == self.chain.deep_view(),
                sum == chain_amount_sum(c.take(i as int)),
                0 <= sum <= i128::MAX,
            decreases self.chain@.len() - i,
        {
            let ghost txs = c[i as int].transactions;
            proof {
                assert(c[i as int] == self.chain@[i as int]@);
            }
            let block = &self.chain[i];
            let mut j: usize = 0;
            while j < block.transactions.len()
                invariant
                    j <= txs.len(),
                    txs == block.transactions@,
                    c == self.chain.deep_view(),
                    0 <= (i as int) < c.len(),
                    txs == c[i as int].transactions,
                    sum == chain_amount_sum(c.take(i as int)) + txs_amount_sum(txs.take(j as int)),
                    0 <= sum <= i128::MAX,
                decreases txs.len() - j,
            {
                let amt = block.transactions[j].amount;
                proof {
                    lemma_txs_take_step(txs, j as int, Seq::empty());
                    lemma_chain_balance_bound(c.take(i as int), Seq::empty());
                    lemma_txs_balance_bound(txs.take(j as int + 1), Seq::empty());
                }
                if amt as i128 > i128::MAX - sum {
                    proof {
                        lemma_txs_sum_prefix(txs, j as int + 1);
                        lemma_chain_take_step(c, i as int, Seq::empty());
                        lemma_chain_sum_prefix(c, i as int + 1);
                    }
                    return false;
                }
                sum = sum + amt as i128;
                j = j + 1;
            }
            proof {
                assert(txs.take(txs.len() as int) =~= txs);
                lemma_chain_take_step(c, i as int, Seq::empty());
                lemma_chain_balance_bound(c.take(i as int + 1), Seq::empty());
            }
            i = i + 1;
        }
        proof {
            assert(c.take(c.len() as int) =~= c);
        }
        true
    }

    /// Scans the whole chain in order and returns the running balance of
    /// `address`: credits where it receives, debits where it sends. The
    /// requirement bounds the total amount moved so the total fits the result.
    pub fn get_balance(&self, address: &str) -> (r: i128)
        requires
            chain_amount_sum(self.chain.deep_view()) <= i128::MAX,
        ensures
            r == chain_balance(self.chain.deep_view(), address@),
    {
        let ghost c = self.chain.deep_view();
        let mut bal: i128 = 0;
        let mut i: usize = 0;
        while i < self.chain.len()
            invariant
                i <= self.chain@.len(),
                c == self.chain.deep_view(),
                chain_amount_sum(c) <= i128::MAX,
                bal == chain_balance(c.take(i as int), address@),
            decreases self.chain@.len() - i,
        {
            let ghost txs = c[i as int].transactions;
            proof {
                assert(c[i as int] == self.chain@[i as int]@);
            }
            let block = &self.chain[i];
            let mut j: usize = 0;
            while j < block.transactions.len()
                invariant
                    j <= txs.len(),
                    txs == block.transactions@,
                    c == self.chain.deep_view(),
                    0 <= (i as int) < c.len(),
                    txs == c[i as int].transactions,
                    chain_amount_sum(c) <= i128::MAX,
                    bal == chain_balance(c.take(i as int), address@) + txs_balance(
                        txs.take(j as int),
                        address@,
                    ),
                decreases txs.len() - j,
            {
                let tx = &block.transactions[j];
                let mut d: i128 = 0;
                if str_eq(tx.to.as_str(), address) {
                    d = tx.amount as i128;
                }
                if str_eq(tx.from.as_str(), address) {
                    d = d - tx.amount as i128;
                }
                proof {
                    assert(d == tx_delta(txs[j as int], address@));
                    lemma_txs_take_step(txs, j as int, address@);
                    lemma_chain_balance_bound(c.take(i as int), address@);
                    lemma_txs_balance_bound(txs.take(j as int + 1), address@);
                    lemma_txs_sum_prefix(txs, j as int + 1);
                    lemma_chain_take_step(c, i as int, address@);
                    lemma_chain_sum_prefix(c, i as int + 1);
                    lemma_chain_balance_bound(c.take(i as int), Seq::empty());
                    lemma_txs_balance_bound(txs, address@);
                }
                bal = bal + d;
                j = j + 1;
            }
            proof {
                assert(txs.take(txs.len() as int) =~= txs);
                lemma_chain_take_step(c, i as int, address@);
            }
            i = i + 1;
        }
        proof {
            assert(c.take(c.len() as int) =~= c);
        }
        bal
    }
}

/// The summed balance of a list of addresses over one transaction.
pub open spec fn sum_deltas(addrs: Seq<Seq<char>>, t: Transaction) -> int
    decreases addrs.len(),
{
    if addrs.len() == 0 {
        0
    } else {
        sum_deltas(addrs.drop_last(), t) + tx_delta(t, addrs.last())
    }
}

/// The summed balance of a list of addresses over a whole chain.
pub open spec fn sum_balances(addrs: Seq<Seq<char>>, c: Seq<BlockV>) -> int
    decreases addrs.len(),
{
    if addrs.len() == 0 {
        0
    } else {
        sum_balances(addrs.drop_last(), c) + chain_balance(c, addrs.last())
    }
}

/// The summed balance of a list of addresses over one transaction sequence.
pub open spec fn sum_txs_balances(addrs: Seq<Seq<char>>, txs: Seq<Transaction>) -> int
    decreases addrs.len(),
{
    if addrs.len() == 0 {
        0
    } else {
        sum_txs_balances(addrs.drop_last(), txs) + txs_balance(txs, addrs.last())
    }
}

/// No address appears twice.
pub open spec fn distinct_addrs(addrs: Seq<Seq<char>>) -> bool {
    forall|i: int, j: int| 0 <= i < j < addrs.len() ==> addrs[i] != addrs[j]
}

/// Every sender and recipient in the chain appears in `addrs`.
pub open spec fn chain_addresses_covered(c: Seq<BlockV>, addrs: Seq<Seq<char>>) -> bool {
    forall|i: int, j: int|
        0 <= i < c.len() && 0 <= j < c[i].transactions.len() ==> addrs.contains(
            c[i].transactions[j].from@,
        ) && addrs.contains(c[i].transactions[j].to@)
}

proof fn lemma_sum_deltas_formula(addrs: Seq<Seq<char>>, t: Transaction)
    requires
        distinct_addrs(addrs),
    ensures
        sum_deltas(addrs, t) == (if addrs.contains(t.to@) {
            t.amount as int
        } else {
            0
        }) - (if addrs.contains(t.from@) {
            t.amount as int
        } else {
            0
        }),
    decreases addrs.len(),
{
    if addrs.len() == 0 {
        assert(!addrs.contains(t.to@));
        assert(!addrs.contains(t.from@));
    } else {
        let d = addrs.drop_last();
        let a = addrs.last();
        assert(distinct_addrs(d)) by {
            assert forall|i: int, j: int| 0 <= i < j < d.len() implies d[i] != d[j] by {
                assert(addrs[i] != addrs[j]);
            }
        }
        lemma_sum_deltas_formula(d, t);
        // relate contains on addrs to contains on its front
        assert forall|x: Seq<char>| #[trigger] addrs.contains(x) implies (d.contains(x) || x
            == a) by {
            let k = choose|k: int| 0 <= k < addrs.len() && addrs[k] == x;
            if k < addrs.len() - 1 {
                assert(d[k] == x);
            }
        }
        assert forall|x: Seq<char>| #[trigger] d.contains(x) implies addrs.contains(x) by {
            let k = choose|k: int| 0 <= k < d.len() && d[k] == x;
            assert(addrs[k] == x);
        }
        if d.contains(a) {
            let k = choose|k: int| 0 <= k < d.len() && d[k] == a;
            assert(addrs[k] == addrs[addrs.len() - 1]);
            assert(false);
        }
        assert(addrs.contains(a)) by {
            assert(addrs[addrs.len() - 1] == a);
        }
    }
}

proof fn lemma_sum_txs_balances_step(addrs: Seq<Seq<char>>, txs: Seq<Transaction>)
    requires
        txs.len() > 0,
    ensures
        sum_txs_balances(addrs, txs) == sum_txs_balances(addrs, txs.drop_last()) + sum_deltas(
            addrs,
            txs.last(),
        ),
    decreases addrs.len(),
{
    if addrs.len() > 0 {
        lemma_sum_txs_balances_step(addrs.drop_last(), txs);
    }
}

proof fn lemma_sum_txs_balances_empty(addrs: Seq<Seq<char>>, txs: Seq<Transaction>)
    requires
        txs.len() == 0,
    ensures
        sum_txs_balances(addrs, txs) == 0,
    decreases addrs.len(),
{
    if addrs.len() > 0 {
        lemma_sum_txs_balances_empty(addrs.drop_last(), txs);
    }
}

proof fn lemma_txs_conservation(addrs: Seq<Seq<char>>, txs: Seq<Transaction>)
    requires
        distinct_addrs(addrs),
        forall|k: int|
            0 <= k < txs.len() ==> addrs.contains(#[trigger] txs[k].from@) && addrs.contains(
                txs[k].to@,
            ),
    ensures
        sum_txs_balances(addrs, txs) == 0,
    decreases txs.len(),
{
    if txs.len() == 0 {
        lemma_sum_txs_balances_empty(addrs, txs);
    } else {
        lemma_sum_txs_balances_step(addrs, txs);
        assert(txs[txs.len() - 1] == txs.last());
        lemma_sum_deltas_formula(addrs, txs.last());
        lemma_txs_conservation(addrs, txs.drop_last());
    }
}

proof fn lemma_sum_balances_step(addrs: Seq<Seq<char>>, c: Seq<BlockV>)
    requires
        c.len() > 0,
    ensures
        sum_balances(addrs, c) == sum_balances(addrs, c.drop_last()) + sum_txs_balances(
            addrs,
            c.last().transactions,
        ),
    decreases addrs.len(),
{
    if addrs.len() > 0 {
        lemma_sum_balances_step(addrs.drop_last(), c);
    }
}

proof fn lemma_sum_balances_empty_chain(addrs: Seq<Seq<char>>, c: Seq<BlockV>)
    requires
        c.len() == 0,
    ensures
        sum_balances(addrs, c) == 0,
    decreases addrs.len(),
{
    if addrs.len() > 0 {
        lemma_sum_balances_empty_chain(addrs.drop_last(), c);
    }
}

/// Balance conservation: over any chain, for any duplicate-free list of
/// addresses that covers every sender and recipient in it, the balances sum
/// to zero — the ledger issues nothing beyond what it moves.
pub proof fn lemma_balance_conservation(c: Seq<BlockV>, addrs: Seq<Seq<char>>)
    requires
        distinct_addrs(addrs),
        chain_addresses_covered(c, addrs),
    ensures
        sum_balances(addrs, c) == 0,
    decreases c.len(),
{
    if c.len() == 0 {
        lemma_sum_balances_empty_chain(addrs, c);
    } else {
        lemma_sum_balances_step(addrs, c);
        let d = c.drop_last();
        assert(chain_addresses_covered(d, addrs)) by {
            assert forall|i: int, j: int|
                0 <= i < d.len() && 0 <= j < d[i].transactions.len() implies addrs.contains(
                d[i].transactions[j].from@,
            ) && addrs.contains(d[i].transactions[j].to@) by {
                assert(d[i] == c[i]);
            }
        }
        lemma_balance_conservation(d, addrs);
        let txs = c.last().transactions;
        assert(forall|k: int|
            0 <= k < txs.len() ==> addrs.contains(#[trigger] txs[k].from@) && addrs.contains(
                txs[k].to@,
            )) by {
            assert(c.last() == c[c.len() - 1]);
        }
        lemma_txs_conservation(addrs, txs);
    }
}

} // verus!
