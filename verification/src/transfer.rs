use crate::address::{address_text, locking_hash_of};
use crate::blockchain::{chain_transactions, ledger_sign_outcome};
use crate::error::ChainError;
use crate::transaction::{
    content_hash, inputs_view, outputs_view, sign_outcome, TXInput, TXInputView, TXOutput,
    TXOutputView, Transaction, TransactionView,
};
use crate::utxoset::{
    entries_view, pick_in_entry, pick_spendable, spendable_outputs, spendable_view, total_picked,
    total_value, SpendableView, UTXOSet, UtxoEntryView,
};
use crate::wallets::{hash_pub_key, locking_hash, Wallet};
use vstd::prelude::*;

verus! {

/// The inputs of a transfer: one for each output picked, unsigned, with the
/// public key of the spender.
pub open spec fn transfer_inputs(picks: Seq<SpendableView>, public_key: Seq<u8>) -> Seq<
    TXInputView,
> {
    Seq::new(
        picks.len(),
        |i: int|
            TXInputView {
                txid: picks[i].txid,
                vout: picks[i].vout,
                signature: Seq::empty(),
                pub_key: public_key,
            },
    )
}

/// The outputs of a transfer: the amount to the receiver and, where change
/// remains, the change back to the spender.
pub open spec fn transfer_outputs(amount: int, to: Seq<u8>, change: int, own: Seq<u8>) -> Seq<
    TXOutputView,
> {
    if change > 0 {
        seq![
            TXOutputView { value: amount, pub_key_hash: to },
            TXOutputView { value: change, pub_key_hash: own },
        ]
    } else {
        seq![TXOutputView { value: amount, pub_key_hash: to }]
    }
}

/// The locking hash of the change of a transfer: what the spender's own
/// address text stands for. A transfer without change needs none.
pub open spec fn change_lock(lock: Seq<u8>, change: int) -> Option<Seq<u8>> {
    if change > 0 {
        locking_hash_of(address_text(lock))
    } else {
        Some(lock)
    }
}

/// What building a transfer gives: the signed transaction that spends the
/// outputs picked from the index, or why none was built.
pub open spec fn transfer_outcome(
    public_key: Seq<u8>,
    secret_key: Seq<u8>,
    to: Seq<char>,
    amount: int,
    index: Seq<UtxoEntryView>,
    all: Seq<TransactionView>,
) -> Result<TransactionView, ChainError> {
    let lock = locking_hash(public_key);
    let picks = spendable_outputs(index, lock, amount);
    let change = total_picked(picks) - amount;
    if amount <= 0 {
        Err(ChainError::InvalidTransaction)
    } else if change < 0 {
        Err(ChainError::InsufficientFunds)
    } else {
        match locking_hash_of(to) {
            None => Err(ChainError::InvalidAddress),
            Some(to_lock) => match change_lock(lock, change) {
                None => Err(ChainError::InvalidAddress),
                Some(own) => {
                    let body = TransactionView {
                        id: Seq::empty(),
                        vin: transfer_inputs(picks, public_key),
                        vout: transfer_outputs(amount, to_lock, change, own),
                    };
                    match content_hash(body) {
                        None => Err(ChainError::Storage),
                        Some(h) => ledger_sign_outcome(
                            TransactionView { id: h, ..body },
                            secret_key,
                            all,
                        ),
                    }
                },
            },
        }
    }
}

impl Transaction {
    /// Builds and signs a transfer of `amount` from a wallet to the address
    /// `to`: it spends the outputs that the index picks for the wallet, pays
    /// `amount` to `to` and returns what remains to the wallet. An amount that
    /// is not positive makes no transaction.
    pub fn new_UTXO(wallet: &Wallet, to: &str, amount: i32, utxo: &UTXOSet) -> (r: Result<
        Transaction,
        ChainError,
    >)
        ensures
            match r {
                Ok(tx) => transfer_outcome(
                    wallet.public_key@,
                    wallet.secret_key@,
                    to@,
                    amount as int,
                    entries_view(utxo.entries@),
                    chain_transactions(utxo.blockchain@),
                ) == Ok::<TransactionView, ChainError>(tx@),
                Err(e) => transfer_outcome(
                    wallet.public_key@,
                    wallet.secret_key@,
                    to@,
                    amount as int,
                    entries_view(utxo.entries@),
                    chain_transactions(utxo.blockchain@),
                ) == Err::<TransactionView, ChainError>(e),
            },
    {
        if amount <= 0 {
            return Err(ChainError::InvalidTransaction);
        }
        let mut pub_key_hash = crate::bytes::bytes_to_vec(wallet.public_key.as_slice());
        hash_pub_key(&mut pub_key_hash);
        let (accumulated, picks) = utxo.find_spendable_outputs(pub_key_hash.as_slice(), amount);
        if accumulated < amount as i64 {
            return Err(ChainError::InsufficientFunds);
        }
        let ghost chosen = spendable_view(picks@);
        let mut vin: Vec<TXInput> = Vec::new();
        let mut i: usize = 0;
        while i < picks.len()
            invariant
                i <= picks@.len(),
                chosen == spendable_view(picks@),
                vin@.len() == i,
                forall|j: int|
                    0 <= j < i ==> vin@[j]@ == transfer_inputs(chosen, wallet.public_key@)[j],
            decreases picks@.len() - i,
        {
            assert(chosen[i as int] == picks@[i as int]@);
            vin.push(
                TXInput {
                    txid: picks[i].txid.clone(),
                    vout: picks[i].vout,
                    signature: Vec::new(),
                    pub_key: crate::bytes::bytes_to_vec(wallet.public_key.as_slice()),
                },
            );
            i += 1;
        }
        assert(inputs_view(vin@) =~= transfer_inputs(chosen, wallet.public_key@));
        let mut vout: Vec<TXOutput> = Vec::new();
        match TXOutput::new(amount, to.to_owned()) {
            Ok(out) => {
                vout.push(out);
            },
            Err(e) => {
                return Err(e);
            },
        }
        let ghost to_lock = locking_hash_of(to@).unwrap();
        let ghost change = accumulated - amount;
        if accumulated > amount as i64 {
            let rest: i64 = accumulated - amount as i64;
            match TXOutput::new(rest as i32, wallet.get_address()) {
                Ok(out) => {
                    vout.push(out);
                },
                Err(e) => {
                    return Err(e);
                },
            }
        }
        assert(outputs_view(vout@) =~= transfer_outputs(
            amount as int,
            to_lock,
            change,
            change_lock(pub_key_hash@, change).unwrap(),
        ));
        let mut tx = Transaction { id: String::new(), vin, vout };
        match tx.hash() {
            Ok(h) => {
                tx.id = h;
            },
            Err(e) => {
                return Err(e);
            },
        }
        match utxo.blockchain.sign_transacton(&mut tx, wallet.secret_key.as_slice()) {
            Ok(()) => Ok(tx),
            Err(e) => Err(e),
        }
    }
}

/// Whether an output picked is an output of the index: the index holds it
/// under its transaction, at its place, with its value, locked to `lock`.
pub open spec fn is_indexed(index: Seq<UtxoEntryView>, pick: SpendableView, lock: Seq<u8>) -> bool {
    exists|n: int, m: int|
        {
            &&& 0 <= n < index.len()
            &&& 0 <= m < index[n].outputs.len()
            &&& index[n].txid == pick.txid
            &&& (#[trigger] index[n].outputs[m]).index == pick.vout
            &&& index[n].outputs[m].output.value == pick.value
            &&& index[n].outputs[m].output.pub_key_hash == lock
        }
}

/// Every output picked from an entry is an output of the index.
pub proof fn lemma_entry_picks_indexed(
    picks: Seq<SpendableView>,
    index: Seq<UtxoEntryView>,
    n: int,
    lock: Seq<u8>,
    amount: int,
    m: int,
)
    requires
        0 <= n < index.len(),
        0 <= m <= index[n].outputs.len(),
        forall|k: int| 0 <= k < picks.len() ==> is_indexed(index, #[trigger] picks[k], lock),
    ensures
        forall|k: int|
            0 <= k < pick_in_entry(picks, index[n], lock, amount, m).len() ==> is_indexed(
                index,
                #[trigger] pick_in_entry(picks, index[n], lock, amount, m)[k],
                lock,
            ),
    decreases m,
{
    if m > 0 {
        lemma_entry_picks_indexed(picks, index, n, lock, amount, m - 1);
        let before = pick_in_entry(picks, index[n], lock, amount, m - 1);
        let after = pick_in_entry(picks, index[n], lock, amount, m);
        let o = index[n].outputs[m - 1];
        assert forall|k: int| 0 <= k < after.len() implies is_indexed(
            index,
            #[trigger] after[k],
            lock,
        ) by {
            if k < before.len() {
                assert(after[k] == before[k]);
            } else {
                assert(index[n].outputs[m - 1].index == after[k].vout);
            }
        }
    }
}

/// Every output picked is an output of the index.
pub proof fn lemma_picks_indexed(index: Seq<UtxoEntryView>, lock: Seq<u8>, amount: int, n: int)
    requires
        0 <= n <= index.len(),
    ensures
        forall|k: int|
            0 <= k < pick_spendable(index, lock, amount, n).len() ==> is_indexed(
                index,
                #[trigger] pick_spendable(index, lock, amount, n)[k],
                lock,
            ),
    decreases n,
{
    if n > 0 {
        lemma_picks_indexed(index, lock, amount, n - 1);
        lemma_entry_picks_indexed(
            pick_spendable(index, lock, amount, n - 1),
            index,
            n - 1,
            lock,
            amount,
            index[n - 1].outputs.len() as int,
        );
    }
}

/// Conservation. A transfer spends exactly the outputs picked from the
/// index, each an unspent output locked to the spender, and its outputs sum
/// to the sum of what it spends: the amount to the receiver and, where the
/// outputs picked are worth more, the difference back to the spender.
pub proof fn lemma_transfer_conserves(
    public_key: Seq<u8>,
    secret_key: Seq<u8>,
    to: Seq<char>,
    amount: int,
    index: Seq<UtxoEntryView>,
    all: Seq<TransactionView>,
)
    requires
        transfer_outcome(public_key, secret_key, to, amount, index, all) is Ok,
    ensures
        ({
            let tx = transfer_outcome(public_key, secret_key, to, amount, index, all).unwrap();
            let lock = locking_hash(public_key);
            let picks = spendable_outputs(index, lock, amount);
            &&& tx.vin.len() == picks.len()
            &&& tx.vin.len() >= 1
            &&& forall|i: int|
                0 <= i < picks.len() ==> {
                    &&& (#[trigger] tx.vin[i]).txid == picks[i].txid
                    &&& tx.vin[i].vout == picks[i].vout
                    &&& is_indexed(index, picks[i], lock)
                }
            &&& total_value(tx.vout) == total_picked(picks)
            &&& total_value(tx.vout) <= total_picked(picks)
            &&& tx.vout[0].value == amount
            &&& tx.vout[0].pub_key_hash == locking_hash_of(to).unwrap()
            &&& total_picked(picks) > amount ==> tx.vout.len() == 2 && tx.vout[1].value
                == total_picked(picks) - amount
            &&& total_picked(picks) == amount ==> tx.vout.len() == 1
        }),
{
    let tx = transfer_outcome(public_key, secret_key, to, amount, index, all).unwrap();
    let lock = locking_hash(public_key);
    let picks = spendable_outputs(index, lock, amount);
    let change = total_picked(picks) - amount;
    let to_lock = locking_hash_of(to).unwrap();
    let own = change_lock(lock, change).unwrap();
    let body = TransactionView {
        id: Seq::empty(),
        vin: transfer_inputs(picks, public_key),
        vout: transfer_outputs(amount, to_lock, change, own),
    };
    let unsigned = TransactionView { id: content_hash(body).unwrap(), ..body };
    assert(sign_outcome(unsigned, secret_key, all) == Ok::<TransactionView, ChainError>(tx));
    lemma_picks_indexed(index, lock, amount, index.len() as int);
    let outs = transfer_outputs(amount, to_lock, change, own);
    assert(tx.vout == outs);
    assert(total_value(outs) == total_picked(picks)) by {
        let none = Seq::<TXOutputView>::empty();
        assert(total_value(none) == 0);
        if change > 0 {
            let one = outs.drop_last();
            assert(one.len() == 1);
            assert(one.drop_last() =~= none);
            assert(one.last().value == amount);
            assert(total_value(one) == total_value(one.drop_last()) + one.last().value);
            assert(outs.last().value == change);
            assert(total_value(outs) == total_value(one) + outs.last().value);
        } else {
            assert(outs.len() == 1);
            assert(outs.drop_last() =~= none);
            assert(outs.last().value == amount);
            assert(total_value(outs) == total_value(outs.drop_last()) + outs.last().value);
        }
    }
    assert(picks.len() > 0);
}

} // verus!
