use crypto::digest::Digest;
use crypto::sha2::Sha256;
use minichain::block::{has_leading_zeros, hash_transactions, Block, TARGET_HEXS};
use minichain::clock::{elapsed_millis, now_millis};
use minichain::error::ChainError;
use minichain::transaction::{TXInput, TXOutput, Transaction};
use std::time::{Duration, UNIX_EPOCH};

fn coinbase_with_memo(memo: &str) -> Transaction {
    Transaction::new_coinbase("3J98t1WpEZ73CNmQviecrnyiWrnqRhWNLy".to_string(), memo.to_string())
        .unwrap()
}

fn sha256(data: &[u8]) -> Vec<u8> {
    let mut hasher = Sha256::new();
    hasher.input(data);
    let mut out = vec![0u8; 32];
    hasher.result(&mut out);
    out
}

#[test]
fn sealing_finds_the_first_nonce_that_works() {
    let block = Block::seal(vec![coinbase_with_memo("memo")], String::new(), 0, 1, 1_700_000_000_000)
        .unwrap();
    assert_eq!(block.nonce, 20);
    assert_eq!(block.hash, "08fd7f469798588efb3bdcbbad25657ee059ef5edc9dd7a6666b0356c797f807");
    assert_eq!(block.height, 0);
    assert_eq!(block.prev_block_hash, "");
    assert_eq!(block.timestamp, 1_700_000_000_000);
}

#[test]
fn sealing_at_difficulty_zero_takes_nonce_zero() {
    let block = Block::seal(vec![coinbase_with_memo("memo")], "prev".to_string(), 7, 0, 5).unwrap();
    assert_eq!(block.nonce, 0);
    assert_eq!(block.height, 7);
    assert_eq!(block.prev_block_hash, "prev");
    assert_eq!(block.validate_at(0), Ok(true));
}

#[test]
fn sealing_beyond_the_digits_of_a_hash_fails() {
    match Block::seal(vec![coinbase_with_memo("memo")], String::new(), 0, 65, 5) {
        Err(e) => assert_eq!(e, ChainError::NoProofOfWork),
        Ok(_) => panic!("sealed"),
    }
}

#[test]
fn validation_fails_after_a_field_changes() {
    let mut block =
        Block::seal(vec![coinbase_with_memo("memo")], String::new(), 0, 2, 1_700_000_000_000)
            .unwrap();
    assert_eq!(block.validate_at(2), Ok(true));
    block.timestamp += 1;
    let again = Block::seal(
        vec![coinbase_with_memo("memo")],
        String::new(),
        0,
        2,
        1_700_000_000_001,
    )
    .unwrap();
    assert_ne!(again.hash, block.hash);
    block.nonce = again.nonce;
    assert_eq!(block.validate_at(2), Ok(true));
}

#[test]
fn getters_give_the_fields() {
    let block = Block::seal(vec![coinbase_with_memo("memo")], "p".to_string(), 3, 1, 9).unwrap();
    assert_eq!(block.get_hash(), block.hash);
    assert_eq!(block.get_prev_hash(), "p");
    assert_eq!(block.get_height(), 3);
    assert_eq!(block.get_transaction().len(), 1);
    assert_eq!(block.get_transaction()[0].id, block.transactions[0].id);
}

#[test]
fn the_target_is_five_digits() {
    assert_eq!(TARGET_HEXS, 5);
    let mut sealed =
        Block::seal(vec![coinbase_with_memo("memo")], String::new(), 0, 1, 1_700_000_000_000)
            .unwrap();
    assert_eq!(sealed.validate(), Ok(false));
    sealed.nonce = 0;
    assert_eq!(sealed.validate_at(1), Ok(false));
}

#[test]
fn the_clock_gives_milliseconds_since_the_epoch() {
    let first = now_millis().unwrap();
    let second = now_millis().unwrap();
    assert!(first > 1_600_000_000_000);
    assert!(first < 100_000_000_000_000);
    assert!(second >= first);
}

#[test]
fn time_since_the_epoch_is_counted_in_whole_milliseconds() {
    assert_eq!(elapsed_millis(Ok(Duration::from_micros(1_500_999))), Ok(1_500));
    assert_eq!(elapsed_millis(Ok(Duration::from_secs(0))), Ok(0));
    assert_eq!(elapsed_millis(Ok(Duration::new(1_700_000_000, 123_000_000))), Ok(1_700_000_000_123));
}

#[test]
fn a_moment_before_the_epoch_is_a_storage_failure() {
    let later = UNIX_EPOCH + Duration::from_secs(1);
    let before = UNIX_EPOCH.duration_since(later);
    assert!(before.is_err());
    assert_eq!(elapsed_millis(before), Err(ChainError::Storage));
}

#[test]
fn leading_zeros_are_counted_on_digits() {
    assert!(has_leading_zeros("000ab", 3));
    assert!(has_leading_zeros("000ab", 0));
    assert!(!has_leading_zeros("000ab", 4));
    assert!(!has_leading_zeros("00", 3));
    assert!(has_leading_zeros("", 0));
}

#[test]
fn root_of_no_transaction_is_empty() {
    assert_eq!(hash_transactions(&Vec::new()), Ok(Vec::new()));
}

#[test]
fn root_of_one_transaction_is_its_leaf() {
    let tx = coinbase_with_memo("memo");
    let leaf = tx.hash().unwrap().into_bytes();
    assert_eq!(hash_transactions(&vec![tx]), Ok(leaf));
}

#[test]
fn root_of_two_transactions_combines_them_in_order() {
    let a = coinbase_with_memo("a");
    let b = coinbase_with_memo("b");
    let mut joined = a.hash().unwrap().into_bytes();
    joined.extend(b.hash().unwrap().into_bytes());
    let expected = sha256(&joined);
    assert_eq!(hash_transactions(&vec![a.clone(), b.clone()]), Ok(expected.clone()));
    assert_ne!(hash_transactions(&vec![b, a]), Ok(expected));
}

#[test]
fn root_of_three_transactions_pairs_the_last_two_first() {
    let a = coinbase_with_memo("a");
    let b = coinbase_with_memo("b");
    let c = coinbase_with_memo("c");
    let mut right = b.hash().unwrap().into_bytes();
    right.extend(c.hash().unwrap().into_bytes());
    let mut top = sha256(&right);
    top.extend(a.hash().unwrap().into_bytes());
    assert_eq!(hash_transactions(&vec![a, b, c]), Ok(sha256(&top)));
}

#[test]
fn a_block_commits_to_the_order_of_its_transactions() {
    let a = coinbase_with_memo("a");
    let b = coinbase_with_memo("b");
    let one = Block::seal(vec![a.clone(), b.clone()], String::new(), 0, 0, 1).unwrap();
    let other = Block::seal(vec![b, a], String::new(), 0, 0, 1).unwrap();
    assert_ne!(one.hash, other.hash);
}

#[test]
fn a_block_with_a_transaction_changed_no_longer_validates_with_its_hash() {
    let mut block =
        Block::seal(vec![coinbase_with_memo("memo")], String::new(), 0, 3, 1_700_000_000_000)
            .unwrap();
    block.transactions[0] = Transaction {
        id: String::new(),
        vin: vec![TXInput { txid: String::new(), vout: -1, signature: vec![], pub_key: vec![1] }],
        vout: vec![TXOutput { value: 1_000, pub_key_hash: vec![2u8; 20] }],
    };
    let now = Block::seal(block.transactions.clone(), String::new(), 0, 0, block.timestamp).unwrap();
    assert_ne!(now.hash, block.hash);
}
