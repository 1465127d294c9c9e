use minichain::address::{decode_address, is_truncated_prefixed};
use minichain::error::ChainError;
use minichain::wallets::{hash_pub_key, Wallet, WalletEntry, Wallets};

const SEED_1: &str = "9d61b19deffd5a60ba844af492ec2cc44449c5697b326919703bac031cae7f60";
const PUBLIC_1: &str = "d75a980182b10ab7d54bfed3c964073a0ee172f3daa62325af021a68f707511a";
const SEED_2: &str = "4ccd089b28ff96da9db6c346ec114e0f5b8a319f35aba624da8cf6ed4fb8a6fb";
const PUBLIC_2: &str = "3d4017c3e843895a92b70aa74d1b7ebc9c982ccf2ec4968cc0cd55f12af4660c";

#[test]
fn a_seed_gives_its_key_pair() {
    let wallet = Wallet::from_seed(&hex::decode(SEED_1).unwrap());
    assert_eq!(hex::encode(&wallet.public_key), PUBLIC_1);
    assert_eq!(hex::encode(&wallet.secret_key), format!("{}{}", SEED_1, PUBLIC_1));
    let other = Wallet::from_seed(&hex::decode(SEED_2).unwrap());
    assert_eq!(hex::encode(&other.public_key), PUBLIC_2);
}

#[test]
fn the_locking_hash_is_the_double_hash_of_the_key() {
    let mut key =
        hex::decode("0250863ad64a87ae8a2fe83c1af1a8403cb53f53e486d8511dad8a04887e5b2352").unwrap();
    hash_pub_key(&mut key);
    assert_eq!(hex::encode(&key), "f54a5851e9372b87810a8e60cdd2e7cfd80b6e31");
    let mut first = hex::decode(PUBLIC_1).unwrap();
    hash_pub_key(&mut first);
    assert_eq!(hex::encode(&first), "9766bc6a50b376bd6fb25ecc5bd3288a663bbec9");
}

#[test]
fn the_address_stands_for_the_locking_hash() {
    let wallet = Wallet::from_seed(&hex::decode(SEED_1).unwrap());
    assert_eq!(wallet.get_address(), "3FVZ2jRyCDZ83L9Gy4n7sttqmFaQ62gv8r");
    let other = Wallet::from_seed(&hex::decode(SEED_2).unwrap());
    assert_eq!(other.get_address(), "3EabyDVMoodLs6gD8JWafWzy4XRXosrC8J");
    let back = decode_address(&wallet.get_address()).unwrap();
    assert_eq!(hex::encode(&back), "9766bc6a50b376bd6fb25ecc5bd3288a663bbec9");
}

#[test]
fn new_wallets_differ() {
    let one = Wallet::new().unwrap();
    let two = Wallet::new().unwrap();
    assert_eq!(one.public_key.len(), 32);
    assert_eq!(one.secret_key.len(), 64);
    assert_eq!(&one.secret_key[32..], &one.public_key[..]);
    assert_ne!(one.public_key, two.public_key);
}

#[test]
fn addresses_decode_in_both_schemes() {
    assert_eq!(
        hex::encode(decode_address("3J98t1WpEZ73CNmQviecrnyiWrnqRhWNLy").unwrap()),
        "b472a266d0bd89c13706a4132ccfb16f7c3b9fcb"
    );
    assert_eq!(
        hex::encode(decode_address("1PMycacnJaSqwwJqjawXBErnLsZ7RkXUAs").unwrap()),
        "f54a5851e9372b87810a8e60cdd2e7cfd80b6e31"
    );
    assert_eq!(
        hex::encode(
            decode_address("bitcoincash:qr6m7j9njldwwzlg9v7v53unlr4jkmx6eylep8ekg2").unwrap()
        ),
        "f5bf48b397dae70be82b3cca4793f8eb2b6cdac9"
    );
}

#[test]
fn texts_that_are_no_address_are_rejected() {
    for text in [
        "",
        "0",
        "3J98t1WpEZ73CNmQviecrnyiWrnqRhWNLz",
        "bitcoincash:",
        "bitcoincash:a5a8yrhz",
        "bitcoincash:qr6m7j9njldwwzlg9v7v53unlr4jkmx6eylep8ekg3",
        "a:b:c",
        "\u{80}\u{e9}",
    ] {
        assert_eq!(decode_address(text), Err(ChainError::InvalidAddress));
    }
}

#[test]
fn a_short_payload_behind_one_colon_is_truncated() {
    assert!(is_truncated_prefixed(b"bitcoincash:a5a8yrhz"));
    assert!(is_truncated_prefixed(b":"));
    assert!(is_truncated_prefixed(b"p:123456789"));
    assert!(!is_truncated_prefixed(b"p:1234567890"));
    assert!(!is_truncated_prefixed(b"a:b:c"));
    assert!(!is_truncated_prefixed(b"no colon"));
    assert!(!is_truncated_prefixed(b""));
}

#[test]
fn wallets_are_held_under_their_addresses() {
    let mut wallets = Wallets::new(Vec::new());
    assert!(wallets.get_all_addresses().is_empty());
    let a = wallets.insert(Wallet::from_seed(&hex::decode(SEED_1).unwrap()));
    let b = wallets.insert(Wallet::from_seed(&hex::decode(SEED_2).unwrap()));
    assert_eq!(a, "3FVZ2jRyCDZ83L9Gy4n7sttqmFaQ62gv8r");
    assert_eq!(wallets.get_all_addresses(), vec![a.clone(), b.clone()]);
    assert_eq!(hex::encode(&wallets.get_wallet(&b).unwrap().public_key), PUBLIC_2);
    assert!(wallets.get_wallet("unknown").is_none());
    assert_eq!(wallets.find_wallet(&b), Some(1));
    let again = wallets.insert(Wallet::from_seed(&hex::decode(SEED_1).unwrap()));
    assert_eq!(again, a);
    assert_eq!(wallets.get_all_addresses().len(), 2);
}

#[test]
fn a_created_wallet_is_found_under_the_address_given() {
    let mut wallets = Wallets::new(Vec::new());
    let address = wallets.create_wallet().unwrap();
    let wallet = wallets.get_wallet(&address).unwrap();
    assert_eq!(wallet.get_address(), address);
    assert_eq!(wallets.get_all_addresses(), vec![address]);
}

#[test]
fn stored_wallets_are_taken_over() {
    let wallet = Wallet::from_seed(&hex::decode(SEED_1).unwrap());
    let entry = WalletEntry { address: wallet.get_address(), wallet: wallet.clone() };
    let wallets = Wallets::new(vec![entry]);
    assert_eq!(wallets.get_all_addresses(), vec!["3FVZ2jRyCDZ83L9Gy4n7sttqmFaQ62gv8r".to_string()]);
}
