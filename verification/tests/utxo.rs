use minichain::blockchain::Blockchain;
use minichain::error::ChainError;
use minichain::transaction::{TXInput, TXOutput, Transaction};
use minichain::utxoset::{
    apply, insert_output, remove_output, scan_unspent, IndexedOutput, UTXOSet, UtxoEntry,
};
use minichain::wallets::Wallet;

const SEED_1: &str = "9d61b19deffd5a60ba844af492ec2cc44449c5697b326919703bac031cae7f60";
const SEED_2: &str = "4ccd089b28ff96da9db6c346ec114e0f5b8a319f35aba624da8cf6ed4fb8a6fb";
const LOCK_A: &str = "9766bc6a50b376bd6fb25ecc5bd3288a663bbec9";
const LOCK_B: &str = "8d6324c8d2eb4c79afed7baaf78cc248a10de8c5";
const T0: u128 = 1_700_000_000_000;

fn wallet_a() -> Wallet {
    Wallet::from_seed(&hex::decode(SEED_1).unwrap())
}

fn wallet_b() -> Wallet {
    Wallet::from_seed(&hex::decode(SEED_2).unwrap())
}

fn lock_a() -> Vec<u8> {
    hex::decode(LOCK_A).unwrap()
}

fn lock_b() -> Vec<u8> {
    hex::decode(LOCK_B).unwrap()
}

fn output(value: i32, lock: u8) -> TXOutput {
    TXOutput { value, pub_key_hash: vec![lock; 20] }
}

fn coinbase(id: &str, outputs: Vec<TXOutput>) -> Transaction {
    Transaction {
        id: id.to_string(),
        vin: vec![TXInput { txid: String::new(), vout: -1, signature: vec![], pub_key: vec![] }],
        vout: outputs,
    }
}

fn spend(id: &str, from: &[(&str, i32)], outputs: Vec<TXOutput>) -> Transaction {
    Transaction {
        id: id.to_string(),
        vin: from
            .iter()
            .map(|(txid, vout)| TXInput {
                txid: txid.to_string(),
                vout: *vout,
                signature: vec![],
                pub_key: vec![],
            })
            .collect(),
        vout: outputs,
    }
}

fn shape(entries: &Vec<UtxoEntry>) -> Vec<(String, Vec<(i32, i32)>)> {
    entries
        .iter()
        .map(|e| (e.txid.clone(), e.outputs.iter().map(|o| (o.index, o.output.value)).collect()))
        .collect()
}

fn index_of(entries: Vec<UtxoEntry>) -> UTXOSet {
    let mut set = UTXOSet::new(Blockchain::empty());
    set.entries = entries;
    set
}

#[test]
fn a_scan_leaves_out_what_a_later_transaction_spends() {
    let walk = vec![
        spend("c", &[("b", 0)], vec![output(3, 1)]),
        spend("b", &[("a", 1)], vec![output(2, 1), output(1, 2)]),
        coinbase("a", vec![output(7, 1), output(3, 2)]),
    ];
    let entries = scan_unspent(&walk);
    assert_eq!(
        shape(&entries),
        vec![
            ("c".to_string(), vec![(0, 3)]),
            ("b".to_string(), vec![(1, 1)]),
            ("a".to_string(), vec![(0, 7)]),
        ]
    );
}

#[test]
fn a_scan_ignores_what_a_coinbase_names_and_what_is_met_later() {
    let mut minted = coinbase("m", vec![output(1, 1)]);
    minted.vin[0].txid = String::new();
    let walk = vec![
        coinbase("late", vec![output(5, 1)]),
        spend("early", &[("late", 0)], vec![output(5, 2)]),
        minted,
    ];
    let entries = scan_unspent(&walk);
    assert_eq!(
        shape(&entries),
        vec![
            ("late".to_string(), vec![(0, 5)]),
            ("early".to_string(), vec![(0, 5)]),
            ("m".to_string(), vec![(0, 1)]),
        ]
    );
}

#[test]
fn a_scan_drops_a_transaction_whose_outputs_are_all_spent() {
    let walk = vec![
        spend("b", &[("a", 0), ("a", 1)], vec![output(10, 2)]),
        coinbase("a", vec![output(7, 1), output(3, 1)]),
    ];
    assert_eq!(shape(&scan_unspent(&walk)), vec![("b".to_string(), vec![(0, 10)])]);
    assert!(scan_unspent(&Vec::new()).is_empty());
}

#[test]
fn outputs_go_in_and_out_of_the_index_by_their_place() {
    let mut entries: Vec<UtxoEntry> = Vec::new();
    insert_output(&mut entries, &"a".to_string(), 0, output(1, 1));
    insert_output(&mut entries, &"b".to_string(), 0, output(2, 1));
    insert_output(&mut entries, &"a".to_string(), 1, output(3, 1));
    assert_eq!(
        shape(&entries),
        vec![("a".to_string(), vec![(0, 1), (1, 3)]), ("b".to_string(), vec![(0, 2)])]
    );
    remove_output(&mut entries, &"a".to_string(), 0);
    assert_eq!(
        shape(&entries),
        vec![("a".to_string(), vec![(1, 3)]), ("b".to_string(), vec![(0, 2)])]
    );
    remove_output(&mut entries, &"a".to_string(), 0);
    remove_output(&mut entries, &"zz".to_string(), 0);
    assert_eq!(entries.len(), 2);
    remove_output(&mut entries, &"a".to_string(), 1);
    assert_eq!(shape(&entries), vec![("b".to_string(), vec![(0, 2)])]);
}

#[test]
fn applying_a_transaction_spends_then_adds() {
    let mut entries: Vec<UtxoEntry> = Vec::new();
    apply(&mut entries, &coinbase("a", vec![output(7, 1), output(3, 2)]));
    apply(&mut entries, &spend("b", &[("a", 1)], vec![output(2, 1), output(1, 2)]));
    assert_eq!(
        shape(&entries),
        vec![("a".to_string(), vec![(0, 7)]), ("b".to_string(), vec![(0, 2), (1, 1)])]
    );
    apply(&mut entries, &spend("c", &[("a", 0), ("b", 1)], vec![]));
    assert_eq!(shape(&entries), vec![("b".to_string(), vec![(0, 2)])]);
}

#[test]
fn spendable_outputs_are_picked_until_the_amount_is_covered() {
    let index = index_of(vec![
        UtxoEntry {
            txid: "a".to_string(),
            outputs: vec![
                IndexedOutput { index: 0, output: output(4, 1) },
                IndexedOutput { index: 2, output: output(3, 9) },
                IndexedOutput { index: 3, output: output(5, 1) },
            ],
        },
        UtxoEntry {
            txid: "b".to_string(),
            outputs: vec![
                IndexedOutput { index: 1, output: output(6, 1) },
                IndexedOutput { index: 4, output: output(8, 1) },
            ],
        },
    ]);
    let pick = |amount: i32| {
        let (sum, picks) = index.find_spendable_outputs(&[1u8; 20], amount);
        let named: Vec<(String, i32, i32)> =
            picks.iter().map(|p| (p.txid.clone(), p.vout, p.value)).collect();
        (sum, named)
    };
    assert_eq!(pick(4), (4, vec![("a".to_string(), 0, 4)]));
    assert_eq!(pick(5), (9, vec![("a".to_string(), 0, 4), ("a".to_string(), 3, 5)]));
    assert_eq!(
        pick(10),
        (15, vec![("a".to_string(), 0, 4), ("a".to_string(), 3, 5), ("b".to_string(), 1, 6)])
    );
    assert_eq!(pick(100).0, 23);
    assert_eq!(pick(100).1.len(), 4);
    assert_eq!(pick(0), (0, vec![]));
    assert_eq!(pick(-3), (0, vec![]));
    assert_eq!(index.find_spendable_outputs(&[7u8; 20], 1).0, 0);
}

#[test]
fn negative_values_are_never_picked() {
    let index = index_of(vec![UtxoEntry {
        txid: "a".to_string(),
        outputs: vec![
            IndexedOutput { index: 0, output: output(-4, 1) },
            IndexedOutput { index: 1, output: output(0, 1) },
            IndexedOutput { index: 2, output: output(2, 1) },
        ],
    }]);
    let (sum, picks) = index.find_spendable_outputs(&[1u8; 20], 2);
    assert_eq!(sum, 2);
    assert_eq!(picks.iter().map(|p| p.vout).collect::<Vec<i32>>(), vec![1, 2]);
}

#[test]
fn balance_sums_the_outputs_locked_to_the_hash() {
    let index = index_of(vec![
        UtxoEntry {
            txid: "a".to_string(),
            outputs: vec![
                IndexedOutput { index: 0, output: output(4, 1) },
                IndexedOutput { index: 1, output: output(3, 9) },
            ],
        },
        UtxoEntry {
            txid: "b".to_string(),
            outputs: vec![IndexedOutput { index: 0, output: output(i32::MAX, 1) }],
        },
    ]);
    let found = index.find_UTXO(&[1u8; 20]);
    assert_eq!(found.outputs.iter().map(|o| o.value).collect::<Vec<i32>>(), vec![4, i32::MAX]);
    assert_eq!(index.balance(&[1u8; 20]), 4 + i32::MAX as i128);
    assert_eq!(index.balance(&[9u8; 20]), 3);
    assert_eq!(index.balance(&[5u8; 20]), 0);
    assert_eq!(index.count_transactions(), 2);
}

#[test]
fn rewards_are_indexed_after_create_mine_update() {
    let a = wallet_a().get_address();
    let b = wallet_b().get_address();
    let bc = Blockchain::create_blockchain_at(a.clone(), 1, T0).unwrap();
    let mut utxo = UTXOSet::new(bc);
    assert_eq!(utxo.count_transactions(), 0);
    assert_eq!(utxo.reindex(), 1);
    let reward = Transaction::new_coinbase(b, "reward".to_string()).unwrap();
    let block = utxo.blockchain.mine_block_at(vec![reward], 1, T0 + 1).unwrap();
    assert_eq!(utxo.balance(&lock_b()), 0);
    utxo.update(&block);
    let of_a = utxo.find_UTXO(&lock_a());
    assert_eq!(of_a.outputs.len(), 1);
    assert_eq!(of_a.outputs[0].value, 10);
    assert_eq!(of_a.outputs[0].pub_key_hash, lock_a());
    let of_b = utxo.find_UTXO(&lock_b());
    assert_eq!(of_b.outputs.len(), 1);
    assert_eq!(of_b.outputs[0].value, 10);
    assert_eq!(utxo.count_transactions(), 2);
}

#[test]
fn reindexing_twice_gives_the_same_index() {
    let a = wallet_a().get_address();
    let bc = Blockchain::create_blockchain_at(a.clone(), 1, T0).unwrap();
    let mut utxo = UTXOSet::new(bc);
    utxo.reindex();
    let tx = Transaction::new_UTXO(&wallet_a(), &wallet_b().get_address(), 4, &utxo).unwrap();
    let reward = Transaction::new_coinbase(a, "r".to_string()).unwrap();
    utxo.blockchain.mine_block_at(vec![reward, tx], 1, T0 + 1).unwrap();
    let first = utxo.reindex();
    let once = shape(&utxo.entries);
    let locks: Vec<Vec<u8>> =
        utxo.entries.iter().flat_map(|e| e.outputs.iter().map(|o| o.output.pub_key_hash.clone())).collect();
    let second = utxo.reindex();
    assert_eq!(first, second);
    assert_eq!(first, 2);
    assert_eq!(utxo.count_transactions(), 2);
    assert_eq!(shape(&utxo.entries), once);
    let again: Vec<Vec<u8>> =
        utxo.entries.iter().flat_map(|e| e.outputs.iter().map(|o| o.output.pub_key_hash.clone())).collect();
    assert_eq!(again, locks);
}

#[test]
fn an_index_that_missed_a_block_is_stale_until_it_is_rebuilt() {
    let a = wallet_a().get_address();
    let bc = Blockchain::create_blockchain_at(a.clone(), 1, T0).unwrap();
    let mut utxo = UTXOSet::new(bc);
    utxo.reindex();
    let reward = Transaction::new_coinbase(a, "r".to_string()).unwrap();
    utxo.blockchain.mine_block_at(vec![reward], 1, T0 + 1).unwrap();
    assert_eq!(utxo.balance(&lock_a()), 10);
    utxo.reindex();
    assert_eq!(utxo.balance(&lock_a()), 20);
}

#[test]
fn update_and_rebuild_agree_after_a_transfer() {
    let a = wallet_a().get_address();
    let b = wallet_b().get_address();
    let bc = Blockchain::create_blockchain_at(a.clone(), 1, T0).unwrap();
    let mut utxo = UTXOSet::new(bc);
    utxo.reindex();
    let tx = Transaction::new_UTXO(&wallet_a(), &b, 4, &utxo).unwrap();
    let reward = Transaction::new_coinbase(a.clone(), "r1".to_string()).unwrap();
    let block = utxo.blockchain.mine_block_at(vec![reward, tx], 1, T0 + 1).unwrap();
    utxo.update(&block);
    let back = Transaction::new_UTXO(&wallet_b(), &a, 4, &utxo).unwrap();
    assert_eq!(back.vin.len(), 1);
    assert_eq!(back.vin[0].vout, 0);
    let reward = Transaction::new_coinbase(b, "r2".to_string()).unwrap();
    let block = utxo.blockchain.mine_block_at(vec![reward, back], 1, T0 + 2).unwrap();
    utxo.update(&block);
    let change = Transaction::new_UTXO(&wallet_a(), &wallet_b().get_address(), 20, &utxo).unwrap();
    assert!(change.vin.iter().any(|i| i.vout == 1));
    let updated = (utxo.balance(&lock_a()), utxo.balance(&lock_b()), utxo.count_transactions());
    assert_eq!(updated, (20, 10, 4));
    utxo.reindex();
    let rebuilt = (utxo.balance(&lock_a()), utxo.balance(&lock_b()), utxo.count_transactions());
    assert_eq!(rebuilt, updated);
}

#[test]
fn a_transfer_of_nothing_or_less_is_no_transaction() {
    let a = wallet_a().get_address();
    let bc = Blockchain::create_blockchain_at(a.clone(), 1, T0).unwrap();
    let mut utxo = UTXOSet::new(bc);
    utxo.reindex();
    for amount in [0, -1, i32::MIN] {
        match Transaction::new_UTXO(&wallet_a(), &wallet_b().get_address(), amount, &utxo) {
            Err(e) => assert_eq!(e, ChainError::InvalidTransaction),
            Ok(_) => panic!("built"),
        }
    }
}
