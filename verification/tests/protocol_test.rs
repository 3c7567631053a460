use blockchain::block::Block;
use blockchain::block::clone_blocks;
use blockchain::chain::Blockchain;
use blockchain::keys::Wallet;
use blockchain::mempool::MemPool;
use blockchain::message::Message;
use blockchain::message::parse_message;
use blockchain::message::serialize_message;
use blockchain::transaction::Transaction;

fn tx(from: &str, to: &str, amount: u64) -> Transaction {
    Transaction::new(
        from.to_string(),
        to.to_string(),
        amount,
        "sig".to_string(),
        "key".to_string(),
    )
}

fn fresh_follower(of: &Blockchain) -> Blockchain {
    Blockchain {
        chain: vec![of.chain[0].clone()],
        difficulty: 2,
        mempool: MemPool::new(),
        target_block_time: 10,
        adjustment_interval: 10,
    }
}

fn tx_eq(a: &Transaction, b: &Transaction) -> bool {
    a.from == b.from && a.to == b.to && a.amount == b.amount && a.timestamp == b.timestamp
        && a.signature == b.signature && a.public_key == b.public_key
}

fn block_eq(a: &Block, b: &Block) -> bool {
    a.index == b.index && a.timestamp == b.timestamp && a.prev_hash == b.prev_hash
        && a.hash == b.hash && a.nonce == b.nonce
        && a.transactions.len() == b.transactions.len()
        && a.transactions.iter().zip(b.transactions.iter()).all(|(x, y)| tx_eq(x, y))
}

#[test]
fn serialize_sync_request_exact_text() {
    let m = Message::SyncRequest { from: "n1".to_string() };
    assert_eq!(
        serialize_message(&m),
        "{\"type\":\"SYNC_REQUEST\",\"from\":\"n1\"}"
    );
}

#[test]
fn round_trip_sync_request() {
    let m = Message::SyncRequest { from: "node-7".to_string() };
    let s = serialize_message(&m);
    match parse_message(&s) {
        Some(Message::SyncRequest { from }) => assert_eq!(from, "node-7"),
        _ => panic!("round trip failed"),
    }
}

#[test]
fn round_trip_sync_response() {
    let mut bc = Blockchain::new();
    bc.add_transaction(tx("A", "B", 10));
    assert!(bc.mine_block());
    let m = Message::SyncResponse { chain: clone_blocks(&bc.chain) };
    let s = serialize_message(&m);
    match parse_message(&s) {
        Some(Message::SyncResponse { chain }) => {
            assert_eq!(chain.len(), 2);
            assert!(block_eq(&chain[0], &bc.chain[0]));
            assert!(block_eq(&chain[1], &bc.chain[1]));
        },
        _ => panic!("round trip failed"),
    }
}

#[test]
fn round_trip_new_block() {
    let b = Block::mine(1, 5, vec![tx("A", "B", 7)], "ph".to_string()).unwrap();
    let m = Message::NewBlock { block: b.clone() };
    let s = serialize_message(&m);
    match parse_message(&s) {
        Some(Message::NewBlock { block }) => assert!(block_eq(&block, &b)),
        _ => panic!("round trip failed"),
    }
}

#[test]
fn round_trip_new_transaction() {
    let t = tx("alice", "bob", 42);
    let m = Message::NewTransaction { transaction: t.clone() };
    let s = serialize_message(&m);
    match parse_message(&s) {
        Some(Message::NewTransaction { transaction }) => assert!(tx_eq(&transaction, &t)),
        _ => panic!("round trip failed"),
    }
}

#[test]
fn parse_rejects_garbage() {
    assert!(parse_message("").is_none());
    assert!(parse_message("hello").is_none());
    assert!(parse_message("{\"type\":\"UNKNOWN\"}").is_none());
    assert!(parse_message("{\"type\":\"SYNC_REQUEST\",\"from\":\"x\"").is_none());
    // non-canonical spacing is refused
    assert!(parse_message("{\"type\":\"SYNC_REQUEST\", \"from\":\"x\"}").is_none());
    // trailing bytes are refused
    assert!(parse_message("{\"type\":\"SYNC_REQUEST\",\"from\":\"x\"}g").is_none());
}

#[test]
fn sync_merge_appends_missing_blocks() {
    let mut a = Blockchain::new();
    let mut b = fresh_follower(&a);
    a.add_transaction(tx("A", "B", 10));
    assert!(a.mine_block());
    a.add_transaction(tx("B", "C", 5));
    assert!(a.mine_block());
    let snapshot = clone_blocks(&a.chain);
    let appended = b.sync_merge(&snapshot);
    assert_eq!(appended, 2);
    assert_eq!(b.chain.len(), 3);
    assert!(b.is_chain_valid());
    assert!(block_eq(&b.chain[0], &a.chain[0]));
}

#[test]
fn sync_merge_is_idempotent_on_second_application() {
    let mut a = Blockchain::new();
    let mut b = fresh_follower(&a);
    a.add_transaction(tx("A", "B", 10));
    assert!(a.mine_block());
    let snapshot = clone_blocks(&a.chain);
    assert_eq!(b.sync_merge(&snapshot), 1);
    assert_eq!(b.chain.len(), 2);
    assert_eq!(b.sync_merge(&snapshot), 0);
    assert_eq!(b.chain.len(), 2);
}

#[test]
fn sync_merge_aborts_on_genesis_mismatch() {
    let mut b = Blockchain::new();
    let fake_genesis = Block {
        index: 0,
        timestamp: 0,
        transactions: vec![],
        prev_hash: "0".repeat(64),
        hash: "ff".repeat(32),
        nonce: 0,
    };
    let mut a = Blockchain::new();
    a.chain[0] = fake_genesis;
    a.add_transaction(tx("A", "B", 10));
    a.mine_block();
    let snapshot = clone_blocks(&a.chain);
    let appended = b.sync_merge(&snapshot);
    assert_eq!(appended, 0);
    assert_eq!(b.chain.len(), 1);
}

#[test]
fn sync_merge_drops_non_linking_blocks() {
    // the follower has already advanced past the snapshot: nothing applies
    let mut a = Blockchain::new();
    let mut b = fresh_follower(&a);
    a.add_transaction(tx("A", "B", 10));
    assert!(a.mine_block());
    let snapshot = clone_blocks(&a.chain);
    assert_eq!(b.sync_merge(&snapshot), 1);
    b.add_transaction(tx("B", "C", 5));
    assert!(b.mine_block());
    assert_eq!(b.chain.len(), 3);
    // the old snapshot carries only stale blocks now
    assert_eq!(b.sync_merge(&snapshot), 0);
    assert_eq!(b.chain.len(), 3);
}

#[test]
fn handle_sync_request_returns_full_chain() {
    let mut bc = Blockchain::new();
    bc.add_transaction(tx("A", "B", 10));
    assert!(bc.mine_block());
    let resp = bc.handle_message(Message::SyncRequest { from: "peer".to_string() });
    match resp {
        Some(Message::SyncResponse { chain }) => {
            assert_eq!(chain.len(), 2);
            assert!(block_eq(&chain[0], &bc.chain[0]));
            assert!(block_eq(&chain[1], &bc.chain[1]));
        },
        _ => panic!("expected a sync response"),
    }
    assert_eq!(bc.chain.len(), 2);
}

#[test]
fn handle_new_transaction_pools_valid_only() {
    let mut bc = Blockchain::new();
    let resp = bc.handle_message(Message::NewTransaction { transaction: tx("A", "B", 10) });
    assert!(resp.is_none());
    assert_eq!(bc.mempool.size(), 1);
    let resp = bc.handle_message(Message::NewTransaction { transaction: tx("A", "B", 0) });
    assert!(resp.is_none());
    assert_eq!(bc.mempool.size(), 1);
}

#[test]
fn handle_new_block_appends_valid_drops_invalid() {
    let mut a = Blockchain::new();
    let mut b = fresh_follower(&a);
    a.add_transaction(tx("A", "B", 10));
    assert!(a.mine_block());
    let good = a.chain[1].clone();
    let resp = b.handle_message(Message::NewBlock { block: good });
    assert!(resp.is_none());
    assert_eq!(b.chain.len(), 2);
    // a block that does not link to the new tail is dropped
    let stale = a.chain[1].clone();
    let resp = b.handle_message(Message::NewBlock { block: stale });
    assert!(resp.is_none());
    assert_eq!(b.chain.len(), 2);
}

#[test]
fn handle_sync_response_merges() {
    let mut a = Blockchain::new();
    let mut b = fresh_follower(&a);
    a.add_transaction(tx("A", "B", 10));
    assert!(a.mine_block());
    let resp = b.handle_message(Message::SyncResponse { chain: clone_blocks(&a.chain) });
    assert!(resp.is_none());
    assert_eq!(b.chain.len(), 2);
}

#[test]
fn wallet_keys_and_address() {
    let w = Wallet::new().unwrap();
    assert_eq!(w.private_key.len(), 64);
    assert_eq!(w.public_key.len(), 66);
    let addr = w.get_address();
    assert_eq!(addr.len(), 10);
    assert_eq!(addr, &w.public_key[0..10]);
}

#[test]
fn wallet_signature_is_hex_and_deterministic() {
    let w = Wallet::new().unwrap();
    let s1 = w.sign_transaction("A->B:10");
    let s2 = w.sign_transaction("A->B:10");
    assert_eq!(s1.len(), 128);
    assert_eq!(s1, s2);
    assert!(s1.chars().all(|c| c.is_ascii_hexdigit()));
    let other = w.sign_transaction("A->B:11");
    assert_ne!(s1, other);
}

#[test]
fn signed_transaction_enters_pool() {
    let w = Wallet::new().unwrap();
    let mut bc = Blockchain::new();
    let data = format!("{}->{}:{}", w.get_address(), "B", 10);
    let sig = w.sign_transaction(&data);
    let t = Transaction::new(w.get_address(), "B".to_string(), 10, sig, w.public_key.clone());
    assert!(bc.add_transaction(t));
    assert_eq!(bc.mempool.size(), 1);
}

#[test]
fn parse_rejects_non_canonical_numbers() {
    // a leading zero is not the canonical rendering of any number
    let leading_zero = "{\"type\":\"NEW_TRANSACTION\",\"transaction\":{\"from\":\"A\",\"to\":\"B\",\"amount\":007,\"timestamp\":1,\"signature\":\"s\",\"public_key\":\"k\"}}";
    assert!(parse_message(leading_zero).is_none());
    // a value beyond u64 is refused
    let huge = "{\"type\":\"NEW_TRANSACTION\",\"transaction\":{\"from\":\"A\",\"to\":\"B\",\"amount\":99999999999999999999999,\"timestamp\":1,\"signature\":\"s\",\"public_key\":\"k\"}}";
    assert!(parse_message(huge).is_none());
}

#[test]
fn parse_accepts_exact_canonical_transaction() {
    let text = "{\"type\":\"NEW_TRANSACTION\",\"transaction\":{\"from\":\"A\",\"to\":\"B\",\"amount\":7,\"timestamp\":1,\"signature\":\"s\",\"public_key\":\"k\"}}";
    match parse_message(text) {
        Some(Message::NewTransaction { transaction }) => {
            assert_eq!(transaction.from, "A");
            assert_eq!(transaction.to, "B");
            assert_eq!(transaction.amount, 7);
            assert_eq!(transaction.timestamp, 1);
        },
        _ => panic!("canonical text should parse"),
    }
}
