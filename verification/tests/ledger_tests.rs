use blocksmith::block::Block;
use blocksmith::chain::{Blockchain, ChainError, MINING_REWARD};

#[test]
fn test_block_hash() {
    let block = Block::genesis();
    let hash = block.hash_raw().unwrap();
    assert_eq!(hash.len(), 32);
}

#[test]
fn test_raw_hash_converted_is_same() {
    let block = Block::genesis();
    let hash_raw: String = block
        .hash_raw()
        .unwrap()
        .iter()
        .map(|b| format!("{:02x}", b))
        .collect::<String>();

    let hash = block.hash().unwrap();
    assert_eq!(hash, hash_raw);
}

#[test]
fn cannot_insert_block_without_pow() {
    let mut blockchain = Blockchain::new(String::from("my_address"), 3);
    let new_block = blockchain.last_block().unwrap().clone();

    assert!(blockchain.verify_and_add_block(new_block).is_err());
}

#[test]
fn block_added_references_previous_block() {
    let mut blockchain = Blockchain::new(String::from("my_address"), 3);

    blockchain.mine().unwrap();
    let first_block = blockchain.last_block().unwrap().clone();

    blockchain.mine().unwrap();
    let last_block = blockchain.last_block().unwrap().clone();

    assert_eq!(first_block.hash().unwrap(), last_block.previous_hash());
}

#[test]
fn hashes_are_unique() {
    let mut blockchain = Blockchain::new(String::from("my_address"), 3);

    blockchain.mine().unwrap();
    let first_block = blockchain.last_block().unwrap().clone();

    blockchain.mine().unwrap();
    let last_block = blockchain.last_block().unwrap().clone();

    assert_ne!(
        first_block.hash_raw().unwrap(),
        last_block.hash_raw().unwrap()
    );
}

#[test]
fn mempool_empty_after_block_created() {
    let mut blockchain = Blockchain::new(String::from("my_address"), 3);

    blockchain.add_transaction("sender_address", "recipient_address", 100);

    assert_eq!(blockchain.mempool().len(), 1);

    blockchain.mine().unwrap();

    assert_eq!(blockchain.mempool().len(), 0);
}

#[test]
fn mining_scenario_difficulty_one() {
    let mut blockchain = Blockchain::new(String::from("miner1"), 1);
    blockchain.add_transaction("alice", "bob", 50);
    blockchain.mine().unwrap();

    let block = blockchain.last_block().unwrap().clone();
    let txs = block.transactions();
    assert_eq!(txs.len(), 2);
    assert_eq!(txs[0].sender_address(), "alice");
    assert_eq!(txs[0].recipient_address(), "bob");
    assert_eq!(txs[0].value(), 50);
    assert_eq!(txs[1].sender_address(), "Network");
    assert_eq!(txs[1].recipient_address(), "miner1");
    assert_eq!(txs[1].value(), MINING_REWARD);

    assert_eq!(blockchain.mempool().len(), 0);
    assert_eq!(blockchain.get_balance("bob"), 50);
    assert_eq!(blockchain.get_balance("alice"), -50);
    assert_eq!(blockchain.get_balance("miner1"), MINING_REWARD as i128);
}

#[test]
fn difficulty_zero_mines_on_first_nonce() {
    let mut blockchain = Blockchain::new(String::from("m"), 0);
    let block = blockchain.mine().unwrap().clone();
    assert_eq!(block.nonce(), 0);
    assert_eq!(blockchain.chain().len(), 2);
}

#[test]
fn mined_hash_meets_target_with_smallest_nonce() {
    let mut blockchain = Blockchain::new(String::from("m"), 1);
    blockchain.add_transaction("a", "b", 7);
    blockchain.mine().unwrap();
    let block = blockchain.last_block().unwrap().clone();

    let hash = block.hash().unwrap();
    assert!(hash.starts_with("0"));

    // No smaller nonce satisfies the target: the search is a monotonic
    // linear scan from zero.
    for n in 0..block.nonce() {
        let candidate = Block::new(
            block.timestamp(),
            block.transactions(),
            n,
            block.previous_hash(),
        );
        assert!(!candidate.hash().unwrap().starts_with("0"));
    }
}

#[test]
fn chain_grows_by_one_per_mine() {
    let mut blockchain = Blockchain::new(String::from("m"), 1);
    assert_eq!(blockchain.chain().len(), 1);
    blockchain.mine().unwrap();
    assert_eq!(blockchain.chain().len(), 2);
    blockchain.mine().unwrap();
    assert_eq!(blockchain.chain().len(), 3);
}

#[test]
fn stale_timestamp_is_rejected() {
    let mut blockchain = Blockchain::new(String::from("m"), 0);
    let head = blockchain.last_block().unwrap().clone();
    let candidate = Block::new(
        head.timestamp() - 1,
        Vec::new(),
        0,
        head.hash().unwrap(),
    );
    let err = blockchain.verify_and_add_block(candidate).unwrap_err();
    assert_eq!(err, ChainError::InvalidTimestamp);
    assert_eq!(blockchain.chain().len(), 1);
}

#[test]
fn wrong_previous_hash_is_rejected() {
    let mut blockchain = Blockchain::new(String::from("m"), 0);
    let candidate = Block::new(
        Block::generate_timestamp(),
        Vec::new(),
        0,
        String::from("not the head hash"),
    );
    let err = blockchain.verify_and_add_block(candidate).unwrap_err();
    assert_eq!(err, ChainError::PreviousHashMismatch);
    assert_eq!(blockchain.chain().len(), 1);
}

#[test]
fn missed_target_is_rejected() {
    let mut blockchain = Blockchain::new(String::from("m"), 60);
    let head_hash = blockchain.last_block().unwrap().hash().unwrap();
    let candidate = Block::new(Block::generate_timestamp(), Vec::new(), 0, head_hash);
    let err = blockchain.verify_and_add_block(candidate).unwrap_err();
    assert_eq!(err, ChainError::InvalidProof);
    assert_eq!(blockchain.chain().len(), 1);
    assert_eq!(blockchain.mempool().len(), 0);
}

#[test]
fn balances_conserve_value() {
    let mut blockchain = Blockchain::new(String::from("m"), 1);
    blockchain.add_transaction("a", "b", 50);
    blockchain.mine().unwrap();
    blockchain.add_transaction("b", "c", 20);
    blockchain.mine().unwrap();

    let total_rewards = 2 * MINING_REWARD as i128;
    let sum = blockchain.get_balance("a")
        + blockchain.get_balance("b")
        + blockchain.get_balance("c")
        + blockchain.get_balance("m");
    assert_eq!(sum, total_rewards);
    assert_eq!(sum + blockchain.get_balance("Network"), 0);
}

#[test]
fn balance_of_absent_address_is_zero() {
    let mut blockchain = Blockchain::new(String::from("m"), 0);
    blockchain.mine().unwrap();
    assert_eq!(blockchain.get_balance("nobody"), 0);
}

#[test]
fn negative_values_are_representable() {
    let mut blockchain = Blockchain::new(String::from("m"), 0);
    blockchain.add_transaction("a", "b", -5);
    blockchain.mine().unwrap();
    assert_eq!(blockchain.get_balance("a"), 5);
    assert_eq!(blockchain.get_balance("b"), -5);
}

#[test]
fn hashing_is_deterministic() {
    let block = Block::genesis();
    assert_eq!(block.hash().unwrap(), block.hash().unwrap());
    assert_eq!(block.hash_raw().unwrap(), block.hash_raw().unwrap());
}

#[test]
fn any_field_change_changes_the_hash() {
    let base = Block::new(1706493690001, Vec::new(), 5, String::from("prev"));
    let base_hash = base.hash().unwrap();

    let other_timestamp = Block::new(1706493690002, Vec::new(), 5, String::from("prev"));
    assert_ne!(other_timestamp.hash().unwrap(), base_hash);

    let other_nonce = Block::new(1706493690001, Vec::new(), 6, String::from("prev"));
    assert_ne!(other_nonce.hash().unwrap(), base_hash);

    let other_prev = Block::new(1706493690001, Vec::new(), 5, String::from("prew"));
    assert_ne!(other_prev.hash().unwrap(), base_hash);

    let tx = blocksmith::transaction::Transaction::new(
        String::from("a"),
        String::from("b"),
        1,
    );
    let with_tx = Block::new(1706493690001, vec![tx], 5, String::from("prev"));
    assert_ne!(with_tx.hash().unwrap(), base_hash);
}

#[test]
fn check_timestamp_compares_against_the_clock() {
    assert!(Block::check_timestamp(0));
    assert!(Block::check_timestamp(Block::generate_timestamp()));
    assert!(!Block::check_timestamp(i64::MAX));
}

#[test]
fn increment_nonce_steps_by_one() {
    let mut block = Block::new(1706493690001, Vec::new(), 5, String::new());
    block.increment_nonce();
    assert_eq!(block.nonce(), 6);
}

#[test]
fn add_transaction_is_observable_in_order() {
    let mut blockchain = Blockchain::new(String::from("m"), 1);
    blockchain.add_transaction("a", "b", 1);
    blockchain.add_transaction("c", "d", 2);
    let pool = blockchain.mempool();
    assert_eq!(pool.len(), 2);
    assert_eq!(pool[0].sender_address(), "a");
    assert_eq!(pool[1].sender_address(), "c");
    assert_eq!(pool[1].value(), 2);
}

#[test]
fn proof_of_work_leaves_state_alone() {
    let mut blockchain = Blockchain::new(String::from("m"), 0);
    blockchain.add_transaction("a", "b", 3);
    let candidate = blockchain.proof_of_work().unwrap();
    assert_eq!(candidate.transactions().len(), 1);
    assert_eq!(blockchain.mempool().len(), 1);
    assert_eq!(blockchain.chain().len(), 1);
    assert_eq!(
        candidate.previous_hash(),
        blockchain.last_block().unwrap().hash().unwrap()
    );
}
