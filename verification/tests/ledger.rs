use minichain::block::Block;
use minichain::blockchain::Blockchain;
use minichain::error::ChainError;
use minichain::transaction::{TXInput, TXOutput, Transaction, SUBSIDY};

const ADDRESS_A: &str = "3J98t1WpEZ73CNmQviecrnyiWrnqRhWNLy";
const ADDRESS_B: &str = "3FVZ2jRyCDZ83L9Gy4n7sttqmFaQ62gv8r";
const T0: u128 = 1_700_000_000_000;

fn chain_of_three() -> Blockchain {
    let mut bc = Blockchain::create_blockchain_at(ADDRESS_A.to_string(), 1, T0).unwrap();
    let first = Transaction::new_coinbase(ADDRESS_B.to_string(), "first".to_string()).unwrap();
    bc.mine_block_at(vec![first], 1, T0 + 1).unwrap();
    let second = Transaction::new_coinbase(ADDRESS_A.to_string(), "second".to_string()).unwrap();
    bc.mine_block_at(vec![second], 1, T0 + 2).unwrap();
    bc
}

#[test]
fn genesis_block_at_low_difficulty_is_sealed() {
    let bc = Blockchain::create_blockchain_at(ADDRESS_A.to_string(), 2, T0).unwrap();
    assert_eq!(bc.blocks.len(), 1);
    let genesis = &bc.blocks[0];
    assert_eq!(bc.tip, genesis.hash);
    assert_eq!(genesis.height, 0);
    assert_eq!(genesis.prev_block_hash, "");
    assert_eq!(genesis.timestamp, T0);
    assert_eq!(genesis.hash.len(), 64);
    assert!(genesis.hash.starts_with("00"));
    assert_eq!(genesis.validate_at(2), Ok(true));
    assert_eq!(genesis.transactions.len(), 1);
    assert!(genesis.transactions[0].is_coinbase());
    assert_eq!(genesis.transactions[0].vout[0].value, SUBSIDY);
}

#[test]
fn genesis_coinbase_carries_the_genesis_memo_and_32_zero_bytes() {
    let bc = Blockchain::create_blockchain_at(ADDRESS_A.to_string(), 1, T0).unwrap();
    let memo = "The Times 03/Jan/2009 Chancellor on brink of second bailout for banks";
    let mut expected = memo.as_bytes().to_vec();
    expected.extend_from_slice(&[0u8; 32]);
    assert_eq!(bc.blocks[0].transactions[0].vin[0].pub_key, expected);
}

#[test]
fn create_rejects_a_text_that_is_no_address() {
    match Blockchain::create_blockchain_at("not an address".to_string(), 1, 0) {
        Err(e) => assert_eq!(e, ChainError::InvalidAddress),
        Ok(_) => panic!("accepted"),
    }
    match Blockchain::create_blockchain("bitcoincash:a5a8yrhz".to_string()) {
        Err(e) => assert_eq!(e, ChainError::InvalidAddress),
        Ok(_) => panic!("accepted"),
    }
}

#[test]
fn opening_a_store_without_a_tip_pointer_fails() {
    match Blockchain::new(Vec::new(), String::new()) {
        Err(e) => assert_eq!(e, ChainError::NotFound),
        Ok(_) => panic!("opened"),
    }
}

#[test]
fn opening_a_store_keeps_blocks_and_tip() {
    let made = chain_of_three();
    let tip = made.tip.clone();
    let bc = Blockchain::new(made.blocks.clone(), tip.clone()).unwrap();
    assert_eq!(bc.tip, tip);
    assert_eq!(bc.get_block_hashs(), made.get_block_hashs());
    assert_eq!(bc.get_best_height(), Ok(2));
}

#[test]
fn best_height_of_an_empty_ledger_is_minus_one() {
    assert_eq!(Blockchain::empty().get_best_height(), Ok(-1));
}

#[test]
fn best_height_of_a_dangling_tip_is_not_found() {
    let mut bc = Blockchain::empty();
    bc.tip = "ff".to_string();
    assert_eq!(bc.get_best_height(), Err(ChainError::NotFound));
}

#[test]
fn chain_linkage_holds_along_the_walk() {
    let bc = chain_of_three();
    let mut it = bc.iter();
    let mut walked: Vec<Block> = Vec::new();
    while let Some(b) = it.next() {
        walked.push(b);
    }
    assert_eq!(walked.len(), 3);
    assert_eq!(walked[0].hash, bc.tip);
    for i in 0..walked.len() - 1 {
        assert_eq!(walked[i + 1].hash, walked[i].prev_block_hash);
        assert_eq!(walked[i].height, walked[i + 1].height + 1);
    }
    assert_eq!(walked[2].height, 0);
    assert_eq!(walked[2].prev_block_hash, "");
    assert!(it.next().is_none());
}

#[test]
fn every_mined_block_reproduces_its_hash() {
    let bc = chain_of_three();
    for b in &bc.blocks {
        assert_eq!(b.validate_at(1), Ok(true));
        assert!(b.hash.starts_with('0'));
        let again = Block::seal(
            b.transactions.clone(),
            b.prev_block_hash.clone(),
            b.height,
            1,
            b.timestamp,
        )
        .unwrap();
        assert_eq!(again.hash, b.hash);
        assert_eq!(again.nonce, b.nonce);
    }
}

#[test]
fn a_fresh_cursor_starts_at_the_tip_again() {
    let bc = chain_of_three();
    let mut first = bc.iter();
    let a = first.next().unwrap();
    let b = first.next().unwrap();
    assert_ne!(a.hash, b.hash);
    let mut second = bc.iter();
    assert_eq!(second.next().unwrap().hash, a.hash);
}

#[test]
fn block_hashes_come_newest_first() {
    let bc = chain_of_three();
    let hashes = bc.get_block_hashs();
    assert_eq!(hashes.len(), 3);
    assert_eq!(hashes[0], bc.tip);
    assert_eq!(hashes[2], bc.blocks[0].hash);
}

#[test]
fn get_block_finds_by_hash_or_reports_not_found() {
    let bc = chain_of_three();
    let got = bc.get_block(&bc.tip).unwrap();
    assert_eq!(got.height, 2);
    match bc.get_block("no such hash") {
        Err(e) => assert_eq!(e, ChainError::NotFound),
        Ok(_) => panic!("found"),
    }
}

#[test]
fn find_transaction_finds_by_id_or_reports_not_found() {
    let bc = chain_of_three();
    let id = bc.blocks[1].transactions[0].id.clone();
    let found = bc.find_transacton(&id).unwrap();
    assert_eq!(found.id, id);
    assert_eq!(found.vout[0].value, SUBSIDY);
    match bc.find_transacton("missing") {
        Err(e) => assert_eq!(e, ChainError::NotFound),
        Ok(_) => panic!("found"),
    }
}

#[test]
fn transactions_are_listed_newest_block_first() {
    let bc = chain_of_three();
    let txs = bc.transactions();
    assert_eq!(txs.len(), 3);
    assert_eq!(txs[0].id, bc.blocks[2].transactions[0].id);
    assert_eq!(txs[2].id, bc.blocks[0].transactions[0].id);
}

#[test]
fn mining_advances_tip_and_height() {
    let mut bc = Blockchain::create_blockchain_at(ADDRESS_A.to_string(), 1, T0).unwrap();
    let genesis_hash = bc.tip.clone();
    let cb = Transaction::new_coinbase(ADDRESS_B.to_string(), "x".to_string()).unwrap();
    let block = bc.mine_block_at(vec![cb], 1, T0 + 5).unwrap();
    assert_eq!(block.prev_block_hash, genesis_hash);
    assert_eq!(block.height, 1);
    assert_eq!(block.timestamp, T0 + 5);
    assert_eq!(bc.tip, block.hash);
    assert_eq!(bc.blocks.len(), 2);
    assert_eq!(bc.get_best_height(), Ok(1));
}

#[test]
fn mining_an_invalid_transaction_commits_nothing() {
    let mut bc = Blockchain::create_blockchain_at(ADDRESS_A.to_string(), 1, T0).unwrap();
    let genesis_tx = bc.blocks[0].transactions[0].id.clone();
    let forged = Transaction {
        id: "forged".to_string(),
        vin: vec![TXInput {
            txid: genesis_tx,
            vout: 0,
            signature: vec![0u8; 64],
            pub_key: vec![1u8; 32],
        }],
        vout: vec![TXOutput { value: 10, pub_key_hash: vec![7u8; 20] }],
    };
    let tip = bc.tip.clone();
    match bc.mine_block_at(vec![forged], 1, T0 + 1) {
        Err(e) => assert_eq!(e, ChainError::InvalidTransaction),
        Ok(_) => panic!("mined"),
    }
    assert_eq!(bc.tip, tip);
    assert_eq!(bc.blocks.len(), 1);
}

#[test]
fn mining_a_transaction_that_spends_from_nowhere_is_not_found() {
    let mut bc = Blockchain::create_blockchain_at(ADDRESS_A.to_string(), 1, T0).unwrap();
    let orphan = Transaction {
        id: "orphan".to_string(),
        vin: vec![TXInput {
            txid: "nowhere".to_string(),
            vout: 0,
            signature: vec![0u8; 64],
            pub_key: vec![1u8; 32],
        }],
        vout: vec![TXOutput { value: 1, pub_key_hash: vec![7u8; 20] }],
    };
    assert_eq!(bc.verify_transacton(&orphan), Err(ChainError::NotFound));
    match bc.mine_block_at(vec![orphan], 1, T0 + 1) {
        Err(e) => assert_eq!(e, ChainError::NotFound),
        Ok(_) => panic!("mined"),
    }
    assert_eq!(bc.blocks.len(), 1);
}

#[test]
fn mining_on_an_empty_ledger_is_not_found() {
    let mut bc = Blockchain::empty();
    let cb = Transaction::new_coinbase(ADDRESS_B.to_string(), "x".to_string()).unwrap();
    match bc.mine_block_at(vec![cb], 1, T0) {
        Err(e) => assert_eq!(e, ChainError::NotFound),
        Ok(_) => panic!("mined"),
    }
}

#[test]
fn mining_on_top_of_the_highest_height_overflows() {
    let mut bc = Blockchain::create_blockchain_at(ADDRESS_A.to_string(), 1, T0).unwrap();
    bc.blocks[0].height = i32::MAX;
    let cb = Transaction::new_coinbase(ADDRESS_B.to_string(), "x".to_string()).unwrap();
    match bc.mine_block_at(vec![cb], 1, T0 + 1) {
        Err(e) => assert_eq!(e, ChainError::HeightOverflow),
        Ok(_) => panic!("mined"),
    }
    assert_eq!(bc.blocks.len(), 1);
}

#[test]
fn mining_at_a_difficulty_beyond_a_hash_finds_no_proof() {
    let mut bc = Blockchain::create_blockchain_at(ADDRESS_A.to_string(), 1, T0).unwrap();
    let cb = Transaction::new_coinbase(ADDRESS_B.to_string(), "x".to_string()).unwrap();
    match bc.mine_block_at(vec![cb], 65, T0 + 1) {
        Err(e) => assert_eq!(e, ChainError::NoProofOfWork),
        Ok(_) => panic!("mined"),
    }
    assert_eq!(bc.blocks.len(), 1);
}

#[test]
fn adding_a_stored_block_changes_nothing() {
    let mut bc = chain_of_three();
    let tip = bc.tip.clone();
    let known = bc.blocks[1].clone();
    assert_eq!(bc.add_block(known), Ok(()));
    assert_eq!(bc.blocks.len(), 3);
    assert_eq!(bc.tip, tip);
}

#[test]
fn adding_a_higher_block_moves_the_tip() {
    let source = chain_of_three();
    let mut bc = Blockchain::new(vec![source.blocks[0].clone()], source.blocks[0].hash.clone())
        .unwrap();
    assert_eq!(bc.add_block(source.blocks[1].clone()), Ok(()));
    assert_eq!(bc.tip, source.blocks[1].hash);
    assert_eq!(bc.add_block(source.blocks[2].clone()), Ok(()));
    assert_eq!(bc.tip, source.blocks[2].hash);
    assert_eq!(bc.get_best_height(), Ok(2));
    assert_eq!(bc.get_block_hashs(), source.get_block_hashs());
}

#[test]
fn adding_a_block_of_equal_or_lower_height_keeps_the_tip() {
    let mut bc = chain_of_three();
    let tip = bc.tip.clone();
    let rival_tx = Transaction::new_coinbase(ADDRESS_B.to_string(), "rival".to_string()).unwrap();
    let rival = Block::seal(vec![rival_tx], bc.blocks[1].hash.clone(), 2, 1, T0 + 9).unwrap();
    assert_eq!(bc.add_block(rival.clone()), Ok(()));
    assert_eq!(bc.blocks.len(), 4);
    assert_eq!(bc.tip, tip);
    assert_eq!(bc.get_block(&rival.hash).unwrap().height, 2);
    let low_tx = Transaction::new_coinbase(ADDRESS_B.to_string(), "low".to_string()).unwrap();
    let low = Block::seal(vec![low_tx], bc.blocks[0].hash.clone(), 1, 1, T0 + 10).unwrap();
    assert_eq!(bc.add_block(low), Ok(()));
    assert_eq!(bc.tip, tip);
}

#[test]
fn adding_the_first_block_to_an_empty_ledger_makes_it_the_tip() {
    let source = chain_of_three();
    let mut bc = Blockchain::empty();
    assert_eq!(bc.add_block(source.blocks[0].clone()), Ok(()));
    assert_eq!(bc.tip, source.blocks[0].hash);
    assert_eq!(bc.get_best_height(), Ok(0));
}

#[test]
fn adding_to_a_ledger_with_a_dangling_tip_is_not_found_and_stores_nothing() {
    let source = chain_of_three();
    let mut bc = Blockchain::empty();
    bc.tip = "dangling".to_string();
    assert_eq!(bc.add_block(source.blocks[0].clone()), Err(ChainError::NotFound));
    assert_eq!(bc.blocks.len(), 0);
    assert_eq!(bc.tip, "dangling");
}

#[test]
fn put_block_replaces_the_block_of_the_same_hash() {
    let mut bc = chain_of_three();
    let mut changed = bc.blocks[1].clone();
    changed.timestamp = 42;
    bc.put_block(changed);
    assert_eq!(bc.blocks.len(), 3);
    assert_eq!(bc.blocks[1].timestamp, 42);
}

#[test]
fn a_walk_over_links_in_a_circle_ends() {
    let source = chain_of_three();
    let mut a = source.blocks[1].clone();
    let mut b = source.blocks[2].clone();
    a.hash = "a".to_string();
    b.hash = "b".to_string();
    a.prev_block_hash = "b".to_string();
    b.prev_block_hash = "a".to_string();
    let bc = Blockchain::new(vec![a, b], "a".to_string()).unwrap();
    assert_eq!(bc.get_block_hashs(), vec!["a".to_string(), "b".to_string()]);
}
