use vstd::prelude::*;
use vstd::string::StringExecFns;
use crate::transaction::Transaction;
use crate::transaction::tx_valid;
use crate::transaction::clone_transactions;
use crate::strutil::dec_digits;
use crate::strutil::u64_to_string;
use crate::hashing::sha_hex;
use crate::hashing::sha256_hex;
use crate::hashing::meets_difficulty;
use crate::hashing::hash_meets_difficulty;
use crate::clock;

verus! {

/// One unit of the chain: transactions, the link to the predecessor, and a
/// proof-of-work solution. Immutable once mined.
pub struct Block {
    pub index: u32,
    pub timestamp: u64,
    pub transactions: Vec<Transaction>,
    pub prev_hash: String,
    pub hash: String,
    pub nonce: u32,
}

/// The mathematical value of a block: its fields, with the collection and
/// string fields abstracted to sequences.
#[verifier::ext_equal]
pub ghost struct BlockV {
    pub index: u32,
    pub timestamp: u64,
    pub transactions: Seq<Transaction>,
    pub prev_hash: Seq<char>,
    pub hash: Seq<char>,
    pub nonce: u32,
}

impl View for Block {
    type V = BlockV;

    open spec fn view(&self) -> BlockV {
        BlockV {
            index: self.index,
            timestamp: self.timestamp,
            transactions: self.transactions@,
            prev_hash: self.prev_hash@,
            hash: self.hash@,
            nonce: self.nonce,
        }
    }
}

impl DeepView for Block {
    type V = BlockV;

    open spec fn deep_view(&self) -> BlockV {
        self.view()
    }
}

/// The rendering "from->to:amount" of one transaction.
pub open spec fn tx_summary(t: Transaction) -> Seq<char> {
    t.from@ + "->"@ + t.to@ + ":"@ + dec_digits(t.amount as nat)
}

/// Transaction summaries joined with "|", in the sequence's own order.
pub open spec fn txs_joined(txs: Seq<Transaction>) -> Seq<char>
    decreases txs.len(),
{
    if txs.len() == 0 {
        Seq::empty()
    } else if txs.len() == 1 {
        tx_summary(txs[0])
    } else {
        txs_joined(txs.drop_last()) + "|"@ + tx_summary(txs.last())
    }
}

/// The pre-image of a block hash:
/// index | timestamp | joined transactions | prev_hash | nonce.
pub open spec fn block_input(
    index: u32,
    timestamp: u64,
    txs: Seq<Transaction>,
    prev_hash: Seq<char>,
    nonce: u32,
) -> Seq<char> {
    dec_digits(index as nat) + "|"@ + dec_digits(timestamp as nat) + "|"@ + txs_joined(txs) + "|"@
        + prev_hash + "|"@ + dec_digits(nonce as nat)
}

/// The hex-rendered SHA-256 hash of a block's pre-image.
pub open spec fn block_hash_chars(
    index: u32,
    timestamp: u64,
    txs: Seq<Transaction>,
    prev_hash: Seq<char>,
    nonce: u32,
) -> Seq<char> {
    sha_hex(block_input(index, timestamp, txs, prev_hash, nonce))
}

/// The proof-of-work condition for the given block data and nonce.
pub open spec fn pow_ok(
    index: u32,
    timestamp: u64,
    txs: Seq<Transaction>,
    prev_hash: Seq<char>,
    nonce: u32,
) -> bool {
    meets_difficulty(block_hash_chars(index, timestamp, txs, prev_hash, nonce))
}

/// No 32-bit nonce at all solves the proof of work for this block data: the
/// only way a mining attempt can come back empty.
pub open spec fn no_nonce_works(
    index: u32,
    timestamp: u64,
    txs: Seq<Transaction>,
    prev_hash: Seq<char>,
) -> bool {
    forall|n: u32| !pow_ok(index, timestamp, txs, prev_hash, n)
}

/// A 64-character run of '0': the placeholder predecessor hash of the genesis block.
pub open spec fn zeros64() -> Seq<char> {
    Seq::new(64, |i: int| '0')
}

/// Builds the 64-zero placeholder hash string.
pub fn zero_hash_string() -> (r: String)
    ensures
        r@ == zeros64(),
{
    let mut s = String::new();
    proof {
        assert(s@ =~= Seq::new(0, |j: int| '0'));
    }
    let mut i: usize = 0;
    while i < 64
        invariant
            i <= 64,
            s@ == Seq::new(i as nat, |j: int| '0'),
        decreases 64 - i,
    {
        s.append("0");
        proof {
            reveal_strlit("0");
            assert(s@ =~= Seq::new((i + 1) as nat, |j: int| '0'));
        }
        i = i + 1;
    }
    s
}

/// The placeholder transaction carried by the genesis block.
pub open spec fn genesis_tx_shape(t: Transaction) -> bool {
    &&& t.from@ == "GENESIS"@
    &&& t.to@ == "GENESIS"@
    &&& t.amount == 0
}

/// The shape of the genesis block: index 0, all-zero predecessor hash, one
/// placeholder transaction, and a hash that matches its own pre-image.
pub open spec fn genesis_shape(b: BlockV) -> bool {
    &&& b.index == 0
    &&& b.prev_hash == zeros64()
    &&& b.transactions.len() == 1
    &&& genesis_tx_shape(b.transactions[0])
    &&& b.hash == block_hash_chars(0, b.timestamp, b.transactions, zeros64(), b.nonce)
}

/// Validity of `cur` against its predecessor `prev`: the index grows by one,
/// the link matches, every transaction is valid, the stored hash equals the
/// recomputed one, and the hash meets the difficulty.
pub open spec fn block_valid_against(cur: BlockV, prev: BlockV) -> bool {
    &&& cur.index == prev.index + 1
    &&& cur.prev_hash == prev.hash
    &&& (forall|i: int| 0 <= i < cur.transactions.len() ==> tx_valid(cur.transactions[i]))
    &&& cur.hash == block_hash_chars(
        cur.index,
        cur.timestamp,
        cur.transactions,
        cur.prev_hash,
        cur.nonce,
    )
    &&& meets_difficulty(cur.hash)
}

/// Appends "from->to:amount" for one transaction.
fn append_tx_summary(s: &mut String, t: &Transaction)
    ensures
        final(s)@ == old(s)@ + tx_summary(*t),
{
    s.append(t.from.as_str());
    s.append("->");
    s.append(t.to.as_str());
    s.append(":");
    let amt = u64_to_string(t.amount);
    s.append(amt.as_str());
    proof {
        assert(s@ =~= old(s)@ + tx_summary(*t));
    }
}

proof fn lemma_txs_joined_step(txs: Seq<Transaction>, i: int)
    requires
        0 <= i < txs.len(),
    ensures
        txs_joined(txs.take(i + 1)) == if i == 0 {
            tx_summary(txs[0])
        } else {
            txs_joined(txs.take(i)) + "|"@ + tx_summary(txs[i])
        },
{
    let t = txs.take(i + 1);
    if i == 0 {
        assert(t.len() == 1);
        assert(t[0] == txs[0]);
    } else {
        assert(t.drop_last() =~= txs.take(i));
        assert(t.last() == txs[i]);
    }
}

impl Block {
    /// Computes the hex SHA-256 hash of the given block data.
    pub fn compute_hash(
        index: u32,
        timestamp: u64,
        transactions: &Vec<Transaction>,
        prev_hash: &str,
        nonce: u32,
    ) -> (r: String)
        ensures
            r@ == block_hash_chars(index, timestamp, transactions@, prev_hash@, nonce),
            r@.len() == 64,
    {
        let ghost head = dec_digits(index as nat) + "|"@ + dec_digits(timestamp as nat) + "|"@;
        let mut input = u64_to_string(index as u64);
        input.append("|");
        let ts = u64_to_string(timestamp);
        input.append(ts.as_str());
        input.append("|");
        proof {
            assert(input@ =~= head);
            assert(input@ =~= head + txs_joined(transactions@.take(0)));
        }
        let mut i: usize = 0;
        while i < transactions.len()
            invariant
                i <= transactions@.len(),
                input@ == head + txs_joined(transactions@.take(i as int)),
            decreases transactions@.len() - i,
        {
            if i > 0 {
                input.append("|");
            }
            append_tx_summary(&mut input, &transactions[i]);
            proof {
                lemma_txs_joined_step(transactions@, i as int);
                assert(input@ =~= head + txs_joined(transactions@.take(i as int + 1)));
            }
            i = i + 1;
        }
        proof {
            assert(transactions@.take(transactions@.len() as int) =~= transactions@);
        }
        input.append("|");
        input.append(prev_hash);
        input.append("|");
        let nn = u64_to_string(nonce as u64);
        input.append(nn.as_str());
        proof {
            assert(input@ =~= block_input(index, timestamp, transactions@, prev_hash@, nonce));
        }
        sha256_hex(input.as_str())
    }

    /// The proof-of-work search: tries nonces from 0 upward and returns the
    /// first block whose hash meets the difficulty; `None` exactly when no
    /// nonce in range works.
    pub fn mine(index: u32, timestamp: u64, transactions: Vec<Transaction>, prev_hash: String) -> (r:
        Option<Block>)
        ensures
            (r is Some) == exists|n: u32|
                pow_ok(index, timestamp, transactions@, prev_hash@, n),
            r matches Some(b) ==> {
                &&& b.index == index
                &&& b.timestamp == timestamp
                &&& b.transactions@ == transactions@
                &&& b.prev_hash@ == prev_hash@
                &&& b.hash@ == block_hash_chars(index, timestamp, transactions@, prev_hash@, b.nonce)
                &&& pow_ok(index, timestamp, transactions@, prev_hash@, b.nonce)
                &&& forall|m: u32|
                    m < b.nonce ==> !pow_ok(index, timestamp, transactions@, prev_hash@, m)
            },
    {
        let mut nonce: u32 = 0;
        loop
            invariant
                forall|m: u32| m < nonce ==> !pow_ok(index, timestamp, transactions@, prev_hash@, m),
            decreases u32::MAX - nonce,
        {
            let h = Self::compute_hash(index, timestamp, &transactions, prev_hash.as_str(), nonce);
            if hash_meets_difficulty(h.as_str()) {
                proof {
                    assert(pow_ok(index, timestamp, transactions@, prev_hash@, nonce));
                }
                return Some(Block { index, timestamp, transactions, prev_hash, hash: h, nonce });
            }
            if nonce == u32::MAX {
                proof {
                    assert forall|m: u32| !pow_ok(
                        index,
                        timestamp,
                        transactions@,
                        prev_hash@,
                        m,
                    ) by {
                        if m < u32::MAX {
                        } else {
                            assert(m == u32::MAX);
                        }
                    }
                }
                return None;
            }
            nonce = nonce + 1;
        }
    }

    /// Builds a block over the given transactions, stamped with the current
    /// wall-clock time, by running the proof-of-work search from nonce 0
    /// upward: any returned block carries the least working nonce, and the
    /// attempt comes back empty only when no nonce at all works for the
    /// captured timestamp.
    pub fn new(index: u32, transactions: Vec<Transaction>, prev_hash: String) -> (r: Option<Block>)
        ensures
            r matches Some(b) ==> {
                &&& b.index == index
                &&& b.transactions@ == transactions@
                &&& b.prev_hash@ == prev_hash@
                &&& b.hash@ == block_hash_chars(index, b.timestamp, transactions@, prev_hash@, b.nonce)
                &&& meets_difficulty(b.hash@)
                &&& forall|m: u32|
                    m < b.nonce ==> !pow_ok(index, b.timestamp, transactions@, prev_hash@, m)
            },
            r is None ==> exists|ts: u64| no_nonce_works(index, ts, transactions@, prev_hash@),
    {
        let timestamp = clock::now_or_zero();
        let r = Self::mine(index, timestamp, transactions, prev_hash);
        proof {
            if r is None {
                assert(no_nonce_works(index, timestamp, transactions@, prev_hash@));
            }
        }
        r
    }

    /// Builds the first block of a chain, mined through the same
    /// proof-of-work search as every other block: its hash meets the
    /// difficulty unless no 32-bit nonce at all works for the captured
    /// timestamp, in which case the block is still well-formed, with nonce 0
    /// and its true hash.
    pub fn genesis() -> (r: Block)
        ensures
            genesis_shape(r@),
            pow_ok(0, r.timestamp, r.transactions@, zeros64(), r.nonce) || no_nonce_works(
                0,
                r.timestamp,
                r.transactions@,
                zeros64(),
            ),
    {
        let tx = Transaction::new(
            String::from_str("GENESIS"),
            String::from_str("GENESIS"),
            0,
            String::from_str("genesis_signature"),
            String::from_str("genesis_key"),
        );
        let mut txs: Vec<Transaction> = Vec::new();
        txs.push(tx);
        let timestamp = clock::now_or_zero();
        let mined_txs = clone_transactions(&txs);
        match Self::mine(0, timestamp, mined_txs, zero_hash_string()) {
            Some(b) => b,
            None => {
                let ph = zero_hash_string();
                let h = Self::compute_hash(0, timestamp, &txs, ph.as_str(), 0);
                Block { index: 0, timestamp, transactions: txs, prev_hash: ph, hash: h, nonce: 0 }
            },
        }
    }

    /// Decides validity against the predecessor exactly as
    /// `block_valid_against` states it.
    pub fn is_valid(&self, prev: &Block) -> (r: bool)
        ensures
            r == block_valid_against(self@, prev@),
    {
        if prev.index == u32::MAX || self.index != prev.index + 1 {
            return false;
        }
        if !(self.prev_hash == prev.hash) {
            return false;
        }
        let mut i: usize = 0;
        while i < self.transactions.len()
            invariant
                i <= self.transactions@.len(),
                forall|j: int| 0 <= j < i ==> tx_valid(self.transactions@[j]),
            decreases self.transactions@.len() - i,
        {
            if !self.transactions[i].is_valid() {
                return false;
            }
            i = i + 1;
        }
        let expected = Self::compute_hash(
            self.index,
            self.timestamp,
            &self.transactions,
            self.prev_hash.as_str(),
            self.nonce,
        );
        if !(self.hash == expected) {
            return false;
        }
        hash_meets_difficulty(self.hash.as_str())
    }
}

impl Clone for Block {
    /// A clone has the same mathematical value as the original.
    fn clone(&self) -> (r: Self)
        ensures
            r@ == self@,
    {
        Block {
            index: self.index,
            timestamp: self.timestamp,
            transactions: clone_transactions(&self.transactions),
            prev_hash: self.prev_hash.clone(),
            hash: self.hash.clone(),
            nonce: self.nonce,
        }
    }
}

/// Clones a sequence of blocks value for value.
pub fn clone_blocks(v: &Vec<Block>) -> (r: Vec<Block>)
    ensures
        r.deep_view() == v.deep_view(),
{
    let mut r: Vec<Block> = Vec::new();
    let mut i: usize = 0;
    while i < v.len()
        invariant
            i <= v@.len(),
            r@.len() == i,
            r.deep_view() == v.deep_view().take(i as int),
        decreases v@.len() - i,
    {
        let b = v[i].clone();
        r.push(b);
        proof {
            assert(r.deep_view().len() == r@.len());
            assert(v.deep_view().len() == v@.len());
            assert forall|j: int| 0 <= j < r.deep_view().len() implies r.deep_view()[j]
                == v.deep_view().take(i + 1)[j] by {
                assert(r.deep_view()[j] == r@[j]@);
                assert(0 <= j < v@.len());
                assert(v.deep_view()[j] == v@[j]@);
            }
            assert(r.deep_view() =~= v.deep_view().take(i + 1));
        }
        i = i + 1;
    }
    proof {
        assert(v.deep_view().take(v.deep_view().len() as int) =~= v.deep_view());
    }
    r
}

} // verus!
