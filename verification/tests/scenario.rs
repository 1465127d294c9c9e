use minichain::blockchain::Blockchain;
use minichain::error::ChainError;
use minichain::transaction::Transaction;
use minichain::utxoset::UTXOSet;
use minichain::wallets::{hash_pub_key, Wallet};

const SEED_1: &str = "9d61b19deffd5a60ba844af492ec2cc44449c5697b326919703bac031cae7f60";
const SEED_2: &str = "4ccd089b28ff96da9db6c346ec114e0f5b8a319f35aba624da8cf6ed4fb8a6fb";
const T0: u128 = 1_700_000_000_000;

fn wallet(seed: &str) -> Wallet {
    Wallet::from_seed(&hex::decode(seed).unwrap())
}

fn lock(w: &Wallet) -> Vec<u8> {
    let mut key = w.public_key.clone();
    hash_pub_key(&mut key);
    key
}

fn send(utxo: &mut UTXOSet, from: &Wallet, to: &str, amount: i32, at: u128) -> Result<(), ChainError> {
    let tx = Transaction::new_UTXO(from, to, amount, utxo)?;
    let reward = Transaction::new_coinbase(from.get_address(), "reward!".to_string())?;
    let block = utxo.blockchain.mine_block_at(vec![reward, tx], 2, at)?;
    utxo.update(&block);
    Ok(())
}

#[test]
fn send_with_mine_moves_the_amount_and_pays_the_reward() {
    let a = wallet(SEED_1);
    let b = wallet(SEED_2);
    let bc = Blockchain::create_blockchain_at(a.get_address(), 2, T0).unwrap();
    let mut utxo = UTXOSet::new(bc);
    utxo.reindex();
    assert_eq!(utxo.balance(&lock(&a)), 10);
    assert_eq!(utxo.balance(&lock(&b)), 0);

    send(&mut utxo, &a, &b.get_address(), 5, T0 + 1).unwrap();
    assert_eq!(utxo.balance(&lock(&a)), 15);
    assert_eq!(utxo.balance(&lock(&b)), 5);

    assert_eq!(send(&mut utxo, &b, &a.get_address(), 15, T0 + 2), Err(ChainError::InsufficientFunds));
    assert_eq!(utxo.balance(&lock(&a)), 15);
    assert_eq!(utxo.balance(&lock(&b)), 5);
    assert_eq!(utxo.blockchain.get_best_height(), Ok(1));
}

#[test]
fn a_transfer_verifies_on_the_chain_and_not_once_a_signature_bit_flips() {
    let a = wallet(SEED_1);
    let b = wallet(SEED_2);
    let bc = Blockchain::create_blockchain_at(a.get_address(), 1, T0).unwrap();
    let mut utxo = UTXOSet::new(bc);
    utxo.reindex();
    send(&mut utxo, &a, &b.get_address(), 3, T0 + 1).unwrap();
    let tx = Transaction::new_UTXO(&a, &b.get_address(), 12, &utxo).unwrap();
    assert_eq!(tx.vin.len(), 2);
    assert_eq!(utxo.blockchain.verify_transacton(&tx), Ok(true));
    for input in 0..tx.vin.len() {
        for byte in 0..64 {
            for bit in 0..8 {
                let mut changed = tx.clone();
                changed.vin[input].signature[byte] ^= 1 << bit;
                assert_eq!(utxo.blockchain.verify_transacton(&changed), Ok(false));
            }
        }
    }
}

#[test]
fn a_transfer_conserves_value() {
    let a = wallet(SEED_1);
    let b = wallet(SEED_2);
    let bc = Blockchain::create_blockchain_at(a.get_address(), 1, T0).unwrap();
    let mut utxo = UTXOSet::new(bc);
    utxo.reindex();

    let with_change = Transaction::new_UTXO(&a, &b.get_address(), 3, &utxo).unwrap();
    assert_eq!(with_change.vin.len(), 1);
    assert_eq!(with_change.vin[0].pub_key, a.public_key);
    assert_eq!(with_change.vin[0].vout, 0);
    assert_eq!(with_change.vin[0].txid, utxo.blockchain.blocks[0].transactions[0].id);
    assert_eq!(with_change.vout.len(), 2);
    assert_eq!(with_change.vout[0].value, 3);
    assert_eq!(with_change.vout[0].pub_key_hash, lock(&b));
    assert_eq!(with_change.vout[1].value, 7);
    assert_eq!(with_change.vout[1].pub_key_hash, lock(&a));
    let mut unsigned = with_change.clone();
    unsigned.vin[0].signature.clear();
    assert_eq!(unsigned.hash().unwrap(), with_change.id);
    assert_eq!(with_change.vin[0].signature.len(), 64);
    assert!(!with_change.is_coinbase());

    let exact = Transaction::new_UTXO(&a, &b.get_address(), 10, &utxo).unwrap();
    assert_eq!(exact.vout.len(), 1);
    assert_eq!(exact.vout[0].value, 10);

    match Transaction::new_UTXO(&a, &b.get_address(), 11, &utxo) {
        Err(e) => assert_eq!(e, ChainError::InsufficientFunds),
        Ok(_) => panic!("built"),
    }
    match Transaction::new_UTXO(&a, "nowhere", 3, &utxo) {
        Err(e) => assert_eq!(e, ChainError::InvalidAddress),
        Ok(_) => panic!("built"),
    }
}

#[test]
fn a_transfer_from_an_index_ahead_of_the_chain_is_not_found() {
    let a = wallet(SEED_1);
    let b = wallet(SEED_2);
    let bc = Blockchain::create_blockchain_at(a.get_address(), 1, T0).unwrap();
    let mut utxo = UTXOSet::new(bc);
    utxo.reindex();
    utxo.entries[0].txid = "gone".to_string();
    match Transaction::new_UTXO(&a, &b.get_address(), 3, &utxo) {
        Err(e) => assert_eq!(e, ChainError::NotFound),
        Ok(_) => panic!("built"),
    }
}

#[test]
fn the_ledger_signs_what_it_verifies() {
    let a = wallet(SEED_1);
    let b = wallet(SEED_2);
    let bc = Blockchain::create_blockchain_at(a.get_address(), 1, T0).unwrap();
    let mut utxo = UTXOSet::new(bc);
    utxo.reindex();
    let mut tx = Transaction::new_UTXO(&a, &b.get_address(), 3, &utxo).unwrap();
    let signed = tx.vin[0].signature.clone();
    tx.vin[0].signature.clear();
    assert_eq!(utxo.blockchain.verify_transacton(&tx), Ok(false));
    assert_eq!(utxo.blockchain.sign_transacton(&mut tx, &a.secret_key), Ok(()));
    assert_eq!(tx.vin[0].signature, signed);
    assert_eq!(utxo.blockchain.sign_transacton(&mut tx, &b.secret_key), Ok(()));
    assert_eq!(utxo.blockchain.verify_transacton(&tx), Ok(false));
    let prev = utxo.blockchain.get_prev_TXs(&tx).unwrap();
    assert_eq!(prev.len(), 1);
    assert_eq!(prev[0].id, tx.vin[0].txid);
    let mut coinbase = Transaction::new_coinbase(a.get_address(), "c".to_string()).unwrap();
    assert_eq!(
        utxo.blockchain.sign_transacton(&mut coinbase, &a.secret_key),
        Err(ChainError::NotFound)
    );
    assert_eq!(utxo.blockchain.verify_transacton(&coinbase), Ok(true));
    assert_eq!(utxo.blockchain.verify_batch(&vec![coinbase, tx]), Err(ChainError::InvalidTransaction));
}
