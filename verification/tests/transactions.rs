use crypto::ed25519;
use minichain::error::ChainError;
use minichain::signing::verify_signature;
use minichain::transaction::{
    find_by_id, TXInput, TXOutput, TXOutputs, Transaction, SUBSIDY,
};
use minichain::wallets::Wallet;

const ADDRESS_A: &str = "3J98t1WpEZ73CNmQviecrnyiWrnqRhWNLy";
const LOCK_A: &str = "b472a266d0bd89c13706a4132ccfb16f7c3b9fcb";
const SEED_1: &str = "9d61b19deffd5a60ba844af492ec2cc44449c5697b326919703bac031cae7f60";
const PUBLIC_1: &str = "d75a980182b10ab7d54bfed3c964073a0ee172f3daa62325af021a68f707511a";
const SIGNATURE_1: &str = "e5564300c360ac729086e2cc806e828a84877f1eb8e5d974d873e06522490155\
                           5fb8821590a33bacc61e39701cf9b46bd25bf5f0595bbe24655141438e7a100b";

fn funding(lock: &[u8]) -> Transaction {
    Transaction {
        id: "funding".to_string(),
        vin: vec![TXInput { txid: String::new(), vout: -1, signature: vec![], pub_key: vec![9] }],
        vout: vec![
            TXOutput { value: 4, pub_key_hash: vec![1u8; 20] },
            TXOutput { value: 6, pub_key_hash: lock.to_vec() },
        ],
    }
}

fn spending(public_key: &[u8]) -> Transaction {
    Transaction {
        id: "spending".to_string(),
        vin: vec![TXInput {
            txid: "funding".to_string(),
            vout: 1,
            signature: vec![],
            pub_key: public_key.to_vec(),
        }],
        vout: vec![TXOutput { value: 6, pub_key_hash: vec![2u8; 20] }],
    }
}

#[test]
fn subsidy_is_ten() {
    assert_eq!(SUBSIDY, 10);
}

#[test]
fn coinbase_with_a_memo_has_the_expected_identity() {
    let tx = Transaction::new_coinbase(ADDRESS_A.to_string(), "memo".to_string()).unwrap();
    assert_eq!(tx.id, "e59db6b00306732af10ffc58892cc74a1d29d308b665a5706b012200dca31006");
    assert_eq!(tx.hash().unwrap(), tx.id);
    assert!(tx.is_coinbase());
    assert_eq!(tx.vin.len(), 1);
    assert_eq!(tx.vin[0].txid, "");
    assert_eq!(tx.vin[0].vout, -1);
    assert!(tx.vin[0].signature.is_empty());
    let mut data = b"memo".to_vec();
    data.extend_from_slice(&[0u8; 32]);
    assert_eq!(tx.vin[0].pub_key, data);
    assert_eq!(tx.vout.len(), 1);
    assert_eq!(tx.vout[0].value, 10);
    assert_eq!(hex::encode(&tx.vout[0].pub_key_hash), LOCK_A);
}

#[test]
fn coinbase_without_a_memo_names_the_receiver_and_carries_random_bytes() {
    let one = Transaction::new_coinbase(ADDRESS_A.to_string(), String::new()).unwrap();
    let two = Transaction::new_coinbase(ADDRESS_A.to_string(), String::new()).unwrap();
    let memo = format!("Reward to '{}'", ADDRESS_A);
    assert_eq!(one.vin[0].pub_key.len(), memo.len() + 32);
    assert_eq!(&one.vin[0].pub_key[..memo.len()], memo.as_bytes());
    assert_eq!(&two.vin[0].pub_key[..memo.len()], memo.as_bytes());
    assert_ne!(one.vin[0].pub_key, two.vin[0].pub_key);
    assert_ne!(one.id, two.id);
    assert_eq!(one.hash().unwrap(), one.id);
}

#[test]
fn coinbase_to_a_text_that_is_no_address_is_rejected() {
    match Transaction::new_coinbase("nonsense".to_string(), "memo".to_string()) {
        Err(e) => assert_eq!(e, ChainError::InvalidAddress),
        Ok(_) => panic!("built"),
    }
    match Transaction::new_coinbase("nonsense".to_string(), String::new()) {
        Err(e) => assert_eq!(e, ChainError::InvalidAddress),
        Ok(_) => panic!("built"),
    }
}

#[test]
fn coinbase_with_data_pays_the_subsidy_to_the_lock() {
    let tx = Transaction::coinbase_with_data(vec![5u8; 20], vec![1, 2, 3]).unwrap();
    assert!(tx.is_coinbase());
    assert_eq!(tx.vin[0].pub_key, vec![1, 2, 3]);
    assert_eq!(tx.vout[0].value, SUBSIDY);
    assert_eq!(tx.vout[0].pub_key_hash, vec![5u8; 20]);
    assert_eq!(tx.hash().unwrap(), tx.id);
}

#[test]
fn the_hash_does_not_depend_on_the_identity_carried() {
    let mut tx = funding(&[3u8; 20]);
    let h = tx.hash().unwrap();
    assert_eq!(h.len(), 64);
    assert!(h.chars().all(|c| c.is_ascii_hexdigit() && !c.is_ascii_uppercase()));
    tx.id = "something else".to_string();
    assert_eq!(tx.hash().unwrap(), h);
    tx.vout[0].value += 1;
    assert_ne!(tx.hash().unwrap(), h);
}

#[test]
fn is_coinbase_wants_exactly_the_sentinel() {
    let mut tx = funding(&[3u8; 20]);
    assert!(tx.is_coinbase());
    tx.vin[0].vout = 0;
    assert!(!tx.is_coinbase());
    tx.vin[0].vout = -1;
    tx.vin[0].txid = "x".to_string();
    assert!(!tx.is_coinbase());
    tx.vin[0].txid = String::new();
    tx.vin.push(TXInput { txid: String::new(), vout: -1, signature: vec![], pub_key: vec![] });
    assert!(!tx.is_coinbase());
    tx.vin.clear();
    assert!(!tx.is_coinbase());
}

#[test]
fn trim_copy_blanks_signatures_and_keys_only() {
    let mut tx = spending(&[8u8; 32]);
    tx.vin[0].signature = vec![7u8; 64];
    let copy = tx.trim_copy();
    assert_eq!(copy.id, tx.id);
    assert_eq!(copy.vin.len(), 1);
    assert_eq!(copy.vin[0].txid, "funding");
    assert_eq!(copy.vin[0].vout, 1);
    assert!(copy.vin[0].signature.is_empty());
    assert!(copy.vin[0].pub_key.is_empty());
    assert_eq!(copy.vout.len(), 1);
    assert_eq!(copy.vout[0].value, 6);
    assert_eq!(copy.vout[0].pub_key_hash, vec![2u8; 20]);
}

#[test]
fn the_signing_payload_is_the_hash_of_the_copy_with_the_lock_in_place() {
    let tx = spending(&[8u8; 32]);
    let lock = vec![3u8; 20];
    let mut copy = tx.trim_copy();
    copy.vin[0].pub_key = lock.clone();
    assert_eq!(tx.signing_payload(0, &lock).unwrap(), copy.hash().unwrap().into_bytes());
    assert_eq!(tx.signing_payload(5, &lock).unwrap(), tx.trim_copy().hash().unwrap().into_bytes());
}

#[test]
fn an_output_is_locked_with_its_own_key_hash_only() {
    let out = TXOutput { value: 1, pub_key_hash: vec![1, 2, 3] };
    assert!(out.is_locked_with_key(&[1, 2, 3]));
    assert!(!out.is_locked_with_key(&[1, 2]));
    assert!(!out.is_locked_with_key(&[1, 2, 4]));
    assert!(!out.is_locked_with_key(&[]));
}

#[test]
fn a_new_output_is_locked_to_the_hash_of_the_address() {
    let out = TXOutput::new(7, ADDRESS_A.to_string()).unwrap();
    assert_eq!(out.value, 7);
    assert_eq!(hex::encode(&out.pub_key_hash), LOCK_A);
    match TXOutput::new(7, "xyz".to_string()) {
        Err(e) => assert_eq!(e, ChainError::InvalidAddress),
        Ok(_) => panic!("built"),
    }
}

#[test]
fn locking_to_a_bad_address_leaves_the_output_as_it_was() {
    let mut out = TXOutput { value: 3, pub_key_hash: vec![9, 9] };
    assert_eq!(out.lock("nope"), Err(ChainError::InvalidAddress));
    assert_eq!(out.pub_key_hash, vec![9, 9]);
    assert_eq!(out.lock(ADDRESS_A), Ok(()));
    assert_eq!(hex::encode(&out.pub_key_hash), LOCK_A);
    assert_eq!(out.value, 3);
}

#[test]
fn find_by_id_gives_the_first_place() {
    let a = funding(&[1u8; 20]);
    let mut b = funding(&[2u8; 20]);
    b.id = "other".to_string();
    let c = funding(&[3u8; 20]);
    let txs = vec![a, b, c];
    assert_eq!(find_by_id(&txs, &"funding".to_string()), Some(0));
    assert_eq!(find_by_id(&txs, &"other".to_string()), Some(1));
    assert_eq!(find_by_id(&txs, &"none".to_string()), None);
}

#[test]
fn a_signed_transaction_verifies_and_a_changed_one_does_not() {
    let wallet = Wallet::from_seed(&hex::decode(SEED_1).unwrap());
    let prev = vec![funding(&[3u8; 20])];
    let mut tx = spending(&wallet.public_key);
    assert_eq!(tx.verify(&prev), Ok(false));
    assert_eq!(tx.sign(&wallet.secret_key, &prev), Ok(()));
    assert_eq!(tx.vin[0].signature.len(), 64);
    assert_eq!(tx.vin[0].pub_key, wallet.public_key);
    assert_eq!(tx.verify(&prev), Ok(true));
    let mut other_output = tx.clone();
    other_output.vout[0].value = 5;
    assert_eq!(other_output.verify(&prev), Ok(false));
    let other_lock = vec![funding(&[4u8; 20])];
    assert_eq!(tx.verify(&other_lock), Ok(false));
}

#[test]
fn the_signature_is_the_signature_of_the_payload() {
    let wallet = Wallet::from_seed(&hex::decode(SEED_1).unwrap());
    let prev = vec![funding(&[3u8; 20])];
    let mut tx = spending(&wallet.public_key);
    tx.sign(&wallet.secret_key, &prev).unwrap();
    let payload = tx.signing_payload(0, &[3u8; 20]).unwrap();
    assert_eq!(tx.vin[0].signature, ed25519::signature(&payload, &wallet.secret_key).to_vec());
    assert!(verify_signature(&payload, &wallet.public_key, &tx.vin[0].signature));
    assert!(!verify_signature(b"other", &wallet.public_key, &tx.vin[0].signature));
}

#[test]
fn flipping_any_bit_of_the_signature_invalidates() {
    let wallet = Wallet::from_seed(&hex::decode(SEED_1).unwrap());
    let prev = vec![funding(&[3u8; 20])];
    let mut tx = spending(&wallet.public_key);
    tx.sign(&wallet.secret_key, &prev).unwrap();
    for byte in 0..64 {
        for bit in 0..8 {
            let mut changed = tx.clone();
            changed.vin[0].signature[byte] ^= 1 << bit;
            assert_eq!(changed.verify(&prev), Ok(false));
        }
    }
}

#[test]
fn signing_or_verifying_a_coinbase_does_nothing() {
    let mut tx = funding(&[3u8; 20]);
    assert_eq!(tx.sign(&[0u8; 64], &Vec::new()), Ok(()));
    assert!(tx.vin[0].signature.is_empty());
    assert_eq!(tx.verify(&Vec::new()), Ok(true));
}

#[test]
fn a_reference_that_does_not_resolve_is_an_invalid_transaction() {
    let wallet = Wallet::from_seed(&hex::decode(SEED_1).unwrap());
    let mut tx = spending(&wallet.public_key);
    assert_eq!(tx.verify(&Vec::new()), Err(ChainError::InvalidTransaction));
    assert_eq!(tx.sign(&wallet.secret_key, &Vec::new()), Err(ChainError::InvalidTransaction));
    let prev = vec![funding(&[3u8; 20])];
    tx.vin[0].vout = 2;
    assert_eq!(tx.verify(&prev), Err(ChainError::InvalidTransaction));
    tx.vin[0].vout = -3;
    assert_eq!(tx.verify(&prev), Err(ChainError::InvalidTransaction));
    let mut nameless = funding(&[3u8; 20]);
    nameless.id = String::new();
    tx.vin[0].vout = 0;
    tx.vin[0].txid = String::new();
    assert_eq!(tx.verify(&vec![nameless]), Err(ChainError::InvalidTransaction));
    assert!(tx.vin[0].signature.is_empty());
}

#[test]
fn a_short_secret_key_is_an_invalid_key_and_signs_nothing() {
    let wallet = Wallet::from_seed(&hex::decode(SEED_1).unwrap());
    let prev = vec![funding(&[3u8; 20])];
    let mut tx = spending(&wallet.public_key);
    assert_eq!(tx.sign(&wallet.secret_key[..63], &prev), Err(ChainError::InvalidKey));
    assert!(tx.vin[0].signature.is_empty());
}

#[test]
fn a_short_public_key_or_signature_is_not_valid() {
    let public = hex::decode(PUBLIC_1).unwrap();
    let signature = hex::decode(SIGNATURE_1).unwrap();
    assert!(verify_signature(b"", &public, &signature));
    assert!(!verify_signature(b"", &public[..31], &signature));
    assert!(!verify_signature(b"", &public, &signature[..63]));
    assert!(!verify_signature(b"x", &public, &signature));
    assert!(!verify_signature(b"", &public, &[]));
}

#[test]
fn referenced_locks_follow_the_inputs() {
    let tx = Transaction {
        id: "t".to_string(),
        vin: vec![
            TXInput { txid: "funding".to_string(), vout: 1, signature: vec![], pub_key: vec![] },
            TXInput { txid: "funding".to_string(), vout: 0, signature: vec![], pub_key: vec![] },
        ],
        vout: vec![],
    };
    let prev = vec![funding(&[3u8; 20])];
    assert_eq!(tx.referenced_locks(&prev), Some(vec![vec![3u8; 20], vec![1u8; 20]]));
    assert_eq!(tx.referenced_locks(&Vec::new()), None);
}

#[test]
fn clones_hold_the_same_values() {
    let outs = TXOutputs { outputs: vec![TXOutput { value: 2, pub_key_hash: vec![1] }] };
    let copy = outs.clone();
    assert_eq!(copy.outputs.len(), 1);
    assert_eq!(copy.outputs[0].value, 2);
    assert_eq!(copy.outputs[0].pub_key_hash, vec![1]);
    let tx = funding(&[3u8; 20]);
    let twin = tx.clone();
    assert_eq!(twin.id, tx.id);
    assert_eq!(twin.hash().unwrap(), tx.hash().unwrap());
}
