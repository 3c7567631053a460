use blockchain::block::Block;
use blockchain::chain::Blockchain;
use blockchain::mempool::MemPool;
use blockchain::strutil::u64_to_string;
use blockchain::strutil::str_eq;
use blockchain::transaction::Transaction;
use blockchain::hashing::sha256_hex;
use blockchain::hashing::hash_meets_difficulty;
use blockchain::block::zero_hash_string;

fn tx(from: &str, to: &str, amount: u64) -> Transaction {
    Transaction::new(
        from.to_string(),
        to.to_string(),
        amount,
        "sig".to_string(),
        "key".to_string(),
    )
}

#[test]
fn u64_rendering() {
    assert_eq!(u64_to_string(0), "0");
    assert_eq!(u64_to_string(7), "7");
    assert_eq!(u64_to_string(10), "10");
    assert_eq!(u64_to_string(305441), "305441");
    assert_eq!(u64_to_string(u64::MAX), "18446744073709551615");
}

#[test]
fn str_eq_cases() {
    assert!(str_eq("", ""));
    assert!(str_eq("abc", "abc"));
    assert!(!str_eq("abc", "abd"));
    assert!(!str_eq("abc", "ab"));
}

#[test]
fn sha256_hex_known_value() {
    // SHA-256("0|0||abc|0")
    assert_eq!(
        sha256_hex("0|0||abc|0"),
        "833c93dba72def28b70b3fa2d982250ce04e76e962c6fd198f2c195dce9933b0"
    );
}

#[test]
fn compute_hash_known_values() {
    let h = Block::compute_hash(0, 0, &vec![], "abc", 0);
    assert_eq!(h, "833c93dba72def28b70b3fa2d982250ce04e76e962c6fd198f2c195dce9933b0");
    let t = tx("A", "B", 7);
    let h2 = Block::compute_hash(1, 5, &vec![t], "ph", 9);
    assert_eq!(h2, "2e54f24430987971b70c1dd194eea0cba39582da1f1e11b2cd5b8f8257c56f11");
}

#[test]
fn difficulty_prefix_check() {
    assert!(hash_meets_difficulty("00abc"));
    assert!(hash_meets_difficulty("00"));
    assert!(!hash_meets_difficulty("0a00"));
    assert!(!hash_meets_difficulty("0"));
    assert!(!hash_meets_difficulty(""));
}

#[test]
fn zero_hash_is_64_zeros() {
    let z = zero_hash_string();
    assert_eq!(z.len(), 64);
    assert!(z.chars().all(|c| c == '0'));
}

#[test]
fn transaction_validity() {
    assert!(tx("A", "B", 10).is_valid());
    assert!(!tx("A", "B", 0).is_valid());
    assert!(!tx("", "B", 10).is_valid());
    assert!(!tx("A", "", 10).is_valid());
    assert!(!tx("A", "A", 10).is_valid());
    let no_sig = Transaction::new("A".to_string(), "B".to_string(), 10, String::new(), "key".to_string());
    assert!(!no_sig.is_valid());
    let no_key = Transaction::new("A".to_string(), "B".to_string(), 10, "sig".to_string(), String::new());
    assert!(!no_key.is_valid());
}

#[test]
fn mempool_rejects_invalid() {
    let mut pool = MemPool::new();
    assert!(!pool.add_transaction(tx("A", "B", 0)));
    assert_eq!(pool.size(), 0);
    assert!(pool.add_transaction(tx("A", "B", 1)));
    assert_eq!(pool.size(), 1);
}

#[test]
fn mempool_lifo_extraction() {
    let mut pool = MemPool::new();
    pool.add_transaction(tx("A", "B", 1));
    pool.add_transaction(tx("B", "C", 2));
    pool.add_transaction(tx("C", "D", 3));
    let got = pool.get_transactions(2);
    assert_eq!(got.len(), 2);
    assert_eq!(got[0].amount, 3);
    assert_eq!(got[1].amount, 2);
    assert_eq!(pool.size(), 1);
    assert_eq!(pool.transactions[0].amount, 1);
}

#[test]
fn mempool_extraction_drains_small_pool() {
    let mut pool = MemPool::new();
    pool.add_transaction(tx("A", "B", 1));
    pool.add_transaction(tx("B", "C", 2));
    let got = pool.get_transactions(10);
    assert_eq!(got.len(), 2);
    assert_eq!(got[0].amount, 2);
    assert_eq!(got[1].amount, 1);
    assert_eq!(pool.size(), 0);
}

#[test]
fn mempool_clear() {
    let mut pool = MemPool::new();
    pool.add_transaction(tx("A", "B", 1));
    pool.clear();
    assert_eq!(pool.size(), 0);
}

#[test]
fn genesis_block_shape() {
    let g = Block::genesis();
    assert_eq!(g.index, 0);
    assert_eq!(g.prev_hash, "0".repeat(64));
    assert_eq!(g.transactions.len(), 1);
    assert_eq!(g.transactions[0].from, "GENESIS");
    assert_eq!(g.transactions[0].to, "GENESIS");
    assert_eq!(g.transactions[0].amount, 0);
    let recomputed =
        Block::compute_hash(0, g.timestamp, &g.transactions, &g.prev_hash, g.nonce);
    assert_eq!(g.hash, recomputed);
    assert!(g.hash.starts_with("00"));
}

#[test]
fn mined_block_validates_against_predecessor() {
    let prev = Block {
        index: 0,
        timestamp: 0,
        transactions: vec![],
        prev_hash: String::new(),
        hash: "ph".to_string(),
        nonce: 0,
    };
    let b = Block::mine(1, 5, vec![tx("A", "B", 7)], "ph".to_string()).unwrap();
    assert!(b.hash.starts_with("00"));
    assert!(b.is_valid(&prev));
}

#[test]
fn block_validity_rejections() {
    let prev = Block {
        index: 0,
        timestamp: 0,
        transactions: vec![],
        prev_hash: String::new(),
        hash: "ph".to_string(),
        nonce: 0,
    };
    let good = Block::mine(1, 5, vec![tx("A", "B", 7)], "ph".to_string()).unwrap();
    // wrong index
    let mut b = good.clone();
    b.index = 2;
    assert!(!b.is_valid(&prev));
    // broken link
    let mut b = good.clone();
    b.prev_hash = "other".to_string();
    assert!(!b.is_valid(&prev));
    // an invalid transaction inside
    let mut b = good.clone();
    b.transactions.push(tx("A", "A", 1));
    assert!(!b.is_valid(&prev));
    // tampered hash
    let mut b = good.clone();
    b.hash = "00".repeat(32);
    assert!(!b.is_valid(&prev));
}

#[test]
fn fresh_blockchain() {
    let bc = Blockchain::new();
    assert_eq!(bc.chain.len(), 1);
    assert_eq!(bc.difficulty, 2);
    assert_eq!(bc.mempool.size(), 0);
    assert!(bc.is_chain_valid());
    assert!(bc.is_well_formed());
}

#[test]
fn mine_block_scenario() {
    let mut bc = Blockchain::new();
    assert!(bc.add_transaction(tx("A", "B", 10)));
    assert!(bc.add_transaction(tx("B", "C", 5)));
    assert!(bc.add_transaction(tx("C", "A", 3)));
    assert!(bc.mine_block());
    assert_eq!(bc.chain.len(), 2);
    assert_eq!(bc.mempool.size(), 0);
    // reverse insertion order
    assert_eq!(bc.chain[1].transactions.len(), 3);
    assert_eq!(bc.chain[1].transactions[0].amount, 3);
    assert_eq!(bc.chain[1].transactions[1].amount, 5);
    assert_eq!(bc.chain[1].transactions[2].amount, 10);
    assert!(bc.chain[1].is_valid(&bc.chain[0]));
    assert!(bc.is_chain_valid());
}

#[test]
fn mine_block_empty_mempool_changes_nothing() {
    let mut bc = Blockchain::new();
    assert!(!bc.mine_block());
    assert_eq!(bc.chain.len(), 1);
    assert_eq!(bc.mempool.size(), 0);
}

#[test]
fn mine_block_takes_at_most_ten() {
    let mut bc = Blockchain::new();
    for i in 1..=12u64 {
        assert!(bc.add_transaction(tx("A", "B", i)));
    }
    assert!(bc.mine_block());
    assert_eq!(bc.chain[1].transactions.len(), 10);
    // the most recent ten, newest first
    assert_eq!(bc.chain[1].transactions[0].amount, 12);
    assert_eq!(bc.chain[1].transactions[9].amount, 3);
    assert_eq!(bc.mempool.size(), 2);
    assert!(bc.mine_block());
    assert_eq!(bc.chain[2].transactions.len(), 2);
    assert!(bc.is_chain_valid());
}

#[test]
fn balances_after_mining() {
    let mut bc = Blockchain::new();
    bc.add_transaction(tx("A", "B", 10));
    bc.add_transaction(tx("B", "C", 5));
    bc.add_transaction(tx("C", "A", 3));
    assert!(bc.mine_block());
    assert!(bc.amounts_within_limit());
    assert_eq!(bc.get_balance("A"), -7);
    assert_eq!(bc.get_balance("B"), 5);
    assert_eq!(bc.get_balance("C"), 2);
    assert_eq!(bc.get_balance("GENESIS"), 0);
    assert_eq!(bc.get_balance("nobody"), 0);
    // conservation over the closed address set
    let total = bc.get_balance("A") + bc.get_balance("B") + bc.get_balance("C")
        + bc.get_balance("GENESIS");
    assert_eq!(total, 0);
}

fn flat_block(index: u32, timestamp: u64) -> Block {
    Block {
        index,
        timestamp,
        transactions: vec![],
        prev_hash: String::new(),
        hash: String::new(),
        nonce: 0,
    }
}

#[test]
fn difficulty_adjustment_speeds_up() {
    // 20 blocks, interval 10, target 10 s * 10 = 100 s; the last interval took
    // 50 s, so the difficulty rises by one.
    let mut chain = vec![];
    for i in 0..20u32 {
        let ts = if i <= 9 { 1000 } else { 1000 + (i as u64 - 9) * 5 };
        chain.push(flat_block(i, ts));
    }
    let mut bc = Blockchain {
        chain,
        difficulty: 2,
        mempool: MemPool::new(),
        target_block_time: 10,
        adjustment_interval: 10,
    };
    bc.adjust_difficulty();
    assert_eq!(bc.difficulty, 3);
}

#[test]
fn difficulty_adjustment_slows_down() {
    let mut chain = vec![];
    for i in 0..20u32 {
        let ts = (i as u64) * 20;
        chain.push(flat_block(i, ts));
    }
    let mut bc = Blockchain {
        chain,
        difficulty: 2,
        mempool: MemPool::new(),
        target_block_time: 10,
        adjustment_interval: 10,
    };
    bc.adjust_difficulty();
    assert_eq!(bc.difficulty, 1);
    // never below 1
    bc.adjust_difficulty();
    assert_eq!(bc.difficulty, 1);
}

#[test]
fn difficulty_adjustment_off_interval() {
    let mut chain = vec![];
    for i in 0..15u32 {
        chain.push(flat_block(i, (i as u64) * 20));
    }
    let mut bc = Blockchain {
        chain,
        difficulty: 2,
        mempool: MemPool::new(),
        target_block_time: 10,
        adjustment_interval: 10,
    };
    bc.adjust_difficulty();
    assert_eq!(bc.difficulty, 2);
}

#[test]
fn blockchain_rejects_zero_amount_transaction() {
    let mut bc = Blockchain::new();
    assert!(!bc.add_transaction(tx("A", "B", 0)));
    assert_eq!(bc.mempool.size(), 0);
}

#[test]
fn mempool_get_zero() {
    let mut pool = MemPool::new();
    pool.add_transaction(tx("A", "B", 1));
    let got = pool.get_transactions(0);
    assert!(got.is_empty());
    assert_eq!(pool.size(), 1);
}
