use crate::block::Block;
use crate::blockchain::{chain_transactions, Blockchain, BlockchainView};
use crate::transaction::{
    is_coinbase, outputs_view, transactions_view, TXInputView, TXOutput, TXOutputView, TXOutputs,
    Transaction, TransactionView,
};
use vstd::prelude::*;

verus! {

/// An unspent output with its place among the outputs of its transaction.
#[derive(Debug)]
pub struct IndexedOutput {
    pub index: i32,
    pub output: TXOutput,
}

/// The unspent outputs of one transaction.
#[derive(Debug)]
pub struct UtxoEntry {
    pub txid: String,
    pub outputs: Vec<IndexedOutput>,
}

/// The index of unspent outputs of a ledger. It is derived from the ledger
/// and follows it only through `reindex` and `update`.
#[derive(Debug)]
pub struct UTXOSet {
    pub blockchain: Blockchain,
    pub entries: Vec<UtxoEntry>,
}

/// What an indexed output is: its place and the output.
pub struct IndexedOutputView {
    pub index: int,
    pub output: TXOutputView,
}

/// What an entry of the index is: a transaction's identity and its
/// unspent outputs.
pub struct UtxoEntryView {
    pub txid: Seq<char>,
    pub outputs: Seq<IndexedOutputView>,
}

impl View for IndexedOutput {
    type V = IndexedOutputView;

    open spec fn view(&self) -> IndexedOutputView {
        IndexedOutputView { index: self.index as int, output: self.output@ }
    }
}

/// What a list of indexed outputs is.
pub open spec fn indexed_view(v: Seq<IndexedOutput>) -> Seq<IndexedOutputView> {
    v.map_values(|o: IndexedOutput| o@)
}

impl View for UtxoEntry {
    type V = UtxoEntryView;

    open spec fn view(&self) -> UtxoEntryView {
        UtxoEntryView { txid: self.txid@, outputs: indexed_view(self.outputs@) }
    }
}

/// What a list of entries is.
pub open spec fn entries_view(v: Seq<UtxoEntry>) -> Seq<UtxoEntryView> {
    v.map_values(|e: UtxoEntry| e@)
}

/// What an index is: the ledger it belongs to and its entries.
pub struct UTXOSetView {
    pub blockchain: BlockchainView,
    pub entries: Seq<UtxoEntryView>,
}

impl View for UTXOSet {
    type V = UTXOSetView;

    open spec fn view(&self) -> UTXOSetView {
        UTXOSetView { blockchain: self.blockchain@, entries: entries_view(self.entries@) }
    }
}

/// Whether `after` is the index `before` rebuilt, with `count` entries: over
/// the same ledger, it holds what a full scan of that ledger gives.
pub open spec fn reindexed(before: UTXOSetView, after: UTXOSetView, count: usize) -> bool {
    &&& after.blockchain == before.blockchain
    &&& after.entries == unspent_outputs(chain_transactions(before.blockchain))
    &&& count == after.entries.len()
}

/// Whether no two entries of the index are of one transaction, and no entry
/// is without outputs.
pub open spec fn tidy(index: Seq<UtxoEntryView>) -> bool {
    &&& forall|i: int, j: int|
        0 <= i < j < index.len() ==> (#[trigger] index[i]).txid != (#[trigger] index[j]).txid
    &&& forall|i: int| 0 <= i < index.len() ==> (#[trigger] index[i]).outputs.len() > 0
}

impl Clone for IndexedOutput {
    fn clone(&self) -> (r: Self)
        ensures
            r@ == self@,
    {
        IndexedOutput { index: self.index, output: self.output.clone() }
    }
}

/// Whether `k` is the first place in the index that holds the entry of the
/// transaction `txid`.
pub open spec fn is_first_entry(index: Seq<UtxoEntryView>, txid: Seq<char>, k: int) -> bool {
    &&& 0 <= k < index.len()
    &&& index[k].txid == txid
    &&& forall|j: int| 0 <= j < k ==> (#[trigger] index[j]).txid != txid
}

/// Whether the index holds an entry for the transaction `txid`.
pub open spec fn has_entry(index: Seq<UtxoEntryView>, txid: Seq<char>) -> bool {
    exists|k: int| is_first_entry(index, txid, k)
}

/// The place of the entry of the transaction `txid`.
pub open spec fn entry_place(index: Seq<UtxoEntryView>, txid: Seq<char>) -> int {
    choose|k: int| is_first_entry(index, txid, k)
}

/// The index with one more unspent output of the transaction `txid`: behind
/// the others of its entry, or in a new entry behind the other entries.
pub open spec fn with_output(
    index: Seq<UtxoEntryView>,
    txid: Seq<char>,
    output: IndexedOutputView,
) -> Seq<UtxoEntryView> {
    if has_entry(index, txid) {
        let k = entry_place(index, txid);
        index.update(k, UtxoEntryView { txid, outputs: index[k].outputs.push(output) })
    } else {
        index.push(UtxoEntryView { txid, outputs: seq![output] })
    }
}

/// The outputs of a list but those at the place `vout` of their transaction.
pub open spec fn outputs_except(outputs: Seq<IndexedOutputView>, vout: int) -> Seq<
    IndexedOutputView,
>
    decreases outputs.len(),
{
    if outputs.len() == 0 {
        Seq::empty()
    } else {
        let rest = outputs_except(outputs.drop_last(), vout);
        if outputs.last().index == vout {
            rest
        } else {
            rest.push(outputs.last())
        }
    }
}

/// The index without the output at the place `vout` of the transaction
/// `txid`. An entry that is left without outputs leaves the index; an index
/// without an entry for `txid` stays as it is.
pub open spec fn without_output(index: Seq<UtxoEntryView>, txid: Seq<char>, vout: int) -> Seq<
    UtxoEntryView,
> {
    if has_entry(index, txid) {
        let k = entry_place(index, txid);
        let kept = outputs_except(index[k].outputs, vout);
        if kept.len() == 0 {
            index.remove(k)
        } else {
            index.update(k, UtxoEntryView { txid, outputs: kept })
        }
    } else {
        index
    }
}

/// The index after the first `n` inputs of a list have spent what they name.
pub open spec fn spend_inputs(index: Seq<UtxoEntryView>, inputs: Seq<TXInputView>, n: int) -> Seq<
    UtxoEntryView,
>
    decreases n,
{
    if n <= 0 {
        index
    } else {
        without_output(spend_inputs(index, inputs, n - 1), inputs[n - 1].txid, inputs[n - 1].vout)
    }
}

/// The index after the first `n` outputs of the transaction `txid` were
/// added as unspent. An output at a place that no input can name is left out.
pub open spec fn add_outputs(
    index: Seq<UtxoEntryView>,
    txid: Seq<char>,
    outputs: Seq<TXOutputView>,
    n: int,
) -> Seq<UtxoEntryView>
    decreases n,
{
    if n <= 0 {
        index
    } else if n - 1 > i32::MAX {
        add_outputs(index, txid, outputs, n - 1)
    } else {
        with_output(
            add_outputs(index, txid, outputs, n - 1),
            txid,
            IndexedOutputView { index: n - 1, output: outputs[n - 1] },
        )
    }
}

/// The index after one transaction: what its inputs name is spent, unless
/// it is a coinbase, and its outputs are unspent.
pub open spec fn apply_transaction(index: Seq<UtxoEntryView>, tx: TransactionView) -> Seq<
    UtxoEntryView,
> {
    let spent = if is_coinbase(tx) {
        index
    } else {
        spend_inputs(index, tx.vin, tx.vin.len() as int)
    };
    add_outputs(spent, tx.id, tx.vout, tx.vout.len() as int)
}

/// The index after the first `n` transactions of a list, in their order.
pub open spec fn apply_transactions(
    index: Seq<UtxoEntryView>,
    txs: Seq<TransactionView>,
    n: int,
) -> Seq<UtxoEntryView>
    decreases n,
{
    if n <= 0 {
        index
    } else {
        apply_transaction(apply_transactions(index, txs, n - 1), txs[n - 1])
    }
}

/// Whether an input names the output at the place `vout` of the transaction
/// `txid`.
pub open spec fn names(input: TXInputView, txid: Seq<char>, vout: int) -> bool {
    input.txid == txid && input.vout == vout
}

/// Whether one of the first `q` inputs of `tx` names the output.
pub open spec fn spends_upto(tx: TransactionView, q: int, txid: Seq<char>, vout: int) -> bool {
    exists|m: int| 0 <= m < q && m < tx.vin.len() && names(#[trigger] tx.vin[m], txid, vout)
}

/// Whether `tx` spends the output: it is no coinbase, and one of its inputs
/// names the output.
pub open spec fn spent_by(tx: TransactionView, txid: Seq<char>, vout: int) -> bool {
    !is_coinbase(tx) && spends_upto(tx, tx.vin.len() as int, txid, vout)
}

/// Whether one of the first `k` transactions of a list spends the output.
pub open spec fn spent_in(txs: Seq<TransactionView>, k: int, txid: Seq<char>, vout: int) -> bool {
    exists|j: int| 0 <= j < k && j < txs.len() && spent_by(#[trigger] txs[j], txid, vout)
}

/// The index after the first `m` outputs of the transaction at the place `k`
/// of a walk were looked at: an output is unspent if no transaction met
/// before on the walk spends it.
pub open spec fn collect_unspent(
    index: Seq<UtxoEntryView>,
    txs: Seq<TransactionView>,
    k: int,
    m: int,
) -> Seq<UtxoEntryView>
    decreases m,
{
    if m <= 0 {
        index
    } else {
        let before = collect_unspent(index, txs, k, m - 1);
        if m - 1 > i32::MAX || spent_in(txs, k, txs[k].id, m - 1) {
            before
        } else {
            with_output(
                before,
                txs[k].id,
                IndexedOutputView { index: m - 1, output: txs[k].vout[m - 1] },
            )
        }
    }
}

/// The index after the first `n` transactions of a walk were looked at.
pub open spec fn scan_upto(txs: Seq<TransactionView>, n: int) -> Seq<UtxoEntryView>
    decreases n,
{
    if n <= 0 {
        Seq::empty()
    } else {
        collect_unspent(scan_upto(txs, n - 1), txs, n - 1, txs[n - 1].vout.len() as int)
    }
}

/// The index that a full scan gives over the transactions of a chain, taken
/// newest first: every output that no transaction met before it spends.
pub open spec fn unspent_outputs(txs: Seq<TransactionView>) -> Seq<UtxoEntryView> {
    scan_upto(txs, txs.len() as int)
}

/// Whether a list of spent outputs holds the output.
pub open spec fn listed(spent: Seq<(String, i32)>, txid: Seq<char>, vout: int) -> bool {
    exists|p: int| 0 <= p < spent.len() && (#[trigger] spent[p]).0@ == txid && spent[p].1 == vout
}

/// The outputs among the first `m` of an entry that are locked to `lock`.
pub open spec fn locked_in_entry(outputs: Seq<IndexedOutputView>, lock: Seq<u8>, m: int) -> Seq<
    TXOutputView,
>
    decreases m,
{
    if m <= 0 {
        Seq::empty()
    } else {
        let before = locked_in_entry(outputs, lock, m - 1);
        if outputs[m - 1].output.pub_key_hash == lock {
            before.push(outputs[m - 1].output)
        } else {
            before
        }
    }
}

/// The outputs of the first `n` entries of the index that are locked to
/// `lock`, in the order of the index.
pub open spec fn locked_outputs(index: Seq<UtxoEntryView>, lock: Seq<u8>, n: int) -> Seq<
    TXOutputView,
>
    decreases n,
{
    if n <= 0 {
        Seq::empty()
    } else {
        locked_outputs(index, lock, n - 1) + locked_in_entry(
            index[n - 1].outputs,
            lock,
            index[n - 1].outputs.len() as int,
        )
    }
}

/// The sum of the values of a list of outputs.
pub open spec fn total_value(outputs: Seq<TXOutputView>) -> int
    decreases outputs.len(),
{
    if outputs.len() == 0 {
        0
    } else {
        total_value(outputs.drop_last()) + outputs.last().value
    }
}

/// Whether a list of spent outputs holds the output.
pub fn is_listed(spent: &Vec<(String, i32)>, txid: &String, vout: i32) -> (r: bool)
    ensures
        r == listed(spent@, txid@, vout as int),
{
    let mut p: usize = 0;
    while p < spent.len()
        invariant
            p <= spent@.len(),
            forall|j: int|
                0 <= j < p ==> !((#[trigger] spent@[j]).0@ == txid@ && spent@[j].1 == vout),
        decreases spent@.len() - p,
    {
        if spent[p].1 == vout && spent[p].0 == *txid {
            return true;
        }
        p += 1;
    }
    false
}

/// A list of spent outputs with one more holds what it held and the new one.
pub proof fn lemma_listed_push(
    spent: Seq<(String, i32)>,
    e: (String, i32),
    txid: Seq<char>,
    vout: int,
)
    ensures
        listed(spent.push(e), txid, vout) == (listed(spent, txid, vout) || (e.0@ == txid && e.1
            == vout)),
{
    let grown = spent.push(e);
    if listed(spent, txid, vout) {
        let p = choose|p: int|
            0 <= p < spent.len() && (#[trigger] spent[p]).0@ == txid && spent[p].1 == vout;
        assert(grown[p] == spent[p]);
    }
    if e.0@ == txid && e.1 == vout {
        assert(grown[spent.len() as int] == e);
    }
    if listed(grown, txid, vout) {
        let p = choose|p: int|
            0 <= p < grown.len() && (#[trigger] grown[p]).0@ == txid && grown[p].1 == vout;
        if p < spent.len() {
            assert(spent[p] == grown[p]);
        }
    }
}

/// One more input spends what the inputs before it spend and what it names.
pub proof fn lemma_spends_step(tx: TransactionView, q: int, txid: Seq<char>, vout: int)
    requires
        0 <= q < tx.vin.len(),
    ensures
        spends_upto(tx, q + 1, txid, vout) == (spends_upto(tx, q, txid, vout) || names(
            tx.vin[q],
            txid,
            vout,
        )),
{
    if spends_upto(tx, q, txid, vout) {
        let m = choose|m: int|
            0 <= m < q && m < tx.vin.len() && names(#[trigger] tx.vin[m], txid, vout);
        assert(0 <= m < q + 1 && names(tx.vin[m], txid, vout));
    }
    if names(tx.vin[q], txid, vout) {
        assert(0 <= q < q + 1 && names(tx.vin[q], txid, vout));
    }
}

/// One more transaction spends what those before it spend and what it spends.
pub proof fn lemma_spent_in_step(txs: Seq<TransactionView>, k: int, txid: Seq<char>, vout: int)
    requires
        0 <= k < txs.len(),
    ensures
        spent_in(txs, k + 1, txid, vout) == (spent_in(txs, k, txid, vout) || spent_by(
            txs[k],
            txid,
            vout,
        )),
{
    if spent_in(txs, k, txid, vout) {
        let j = choose|j: int|
            0 <= j < k && j < txs.len() && spent_by(#[trigger] txs[j], txid, vout);
        assert(0 <= j < k + 1 && spent_by(txs[j], txid, vout));
    }
    if spent_by(txs[k], txid, vout) {
        assert(0 <= k < k + 1 && spent_by(txs[k], txid, vout));
    }
}

/// The index of the outputs that no transaction met before on a walk spends.
pub fn scan_unspent(txs: &Vec<Transaction>) -> (r: Vec<UtxoEntry>)
    ensures
        entries_view(r@) == unspent_outputs(transactions_view(txs@)),
{
    let ghost walk = transactions_view(txs@);
    let mut entries: Vec<UtxoEntry> = Vec::new();
    let mut spent: Vec<(String, i32)> = Vec::new();
    let mut k: usize = 0;
    assert(entries_view(entries@) =~= scan_upto(walk, 0));
    while k < txs.len()
        invariant
            k <= txs@.len(),
            walk == transactions_view(txs@),
            entries_view(entries@) == scan_upto(walk, k as int),
            forall|id: Seq<char>, v: int|
                #[trigger] listed(spent@, id, v) == spent_in(walk, k as int, id, v),
        decreases txs@.len() - k,
    {
        let tx = &txs[k];
        assert(walk[k as int] == tx@);
        let ghost start = entries_view(entries@);
        let mut m: usize = 0;
        while m < tx.vout.len()
            invariant
                m <= tx.vout@.len(),
                k < txs@.len(),
                walk == transactions_view(txs@),
                walk[k as int] == tx@,
                entries_view(entries@) == collect_unspent(start, walk, k as int, m as int),
                forall|id: Seq<char>, v: int|
                    #[trigger] listed(spent@, id, v) == spent_in(walk, k as int, id, v),
            decreases tx.vout@.len() - m,
        {
            assert(tx@.vout[m as int] == tx.vout@[m as int]@);
            if m <= i32::MAX as usize {
                assert(listed(spent@, tx.id@, m as int) == spent_in(
                    walk,
                    k as int,
                    tx.id@,
                    m as int,
                ));
                if !is_listed(&spent, &tx.id, m as i32) {
                    insert_output(&mut entries, &tx.id, m as i32, tx.vout[m].clone());
                }
            }
            m += 1;
        }
        if !tx.is_coinbase() {
            let ghost held = spent@;
            let mut q: usize = 0;
            while q < tx.vin.len()
                invariant
                    q <= tx.vin@.len(),
                    k < txs@.len(),
                    walk[k as int] == tx@,
                    forall|id: Seq<char>, v: int|
                        #[trigger] listed(spent@, id, v) == (spent_in(walk, k as int, id, v)
                            || spends_upto(tx@, q as int, id, v)),
                decreases tx.vin@.len() - q,
            {
                let ghost before = spent@;
                let entry = (tx.vin[q].txid.clone(), tx.vin[q].vout);
                assert(tx@.vin[q as int] == tx.vin@[q as int]@);
                spent.push(entry);
                proof {
                    assert forall|id: Seq<char>, v: int|
                        #[trigger] listed(spent@, id, v) == (spent_in(walk, k as int, id, v)
                            || spends_upto(tx@, q + 1, id, v)) by {
                        lemma_listed_push(before, entry, id, v);
                        lemma_spends_step(tx@, q as int, id, v);
                        assert(listed(before, id, v) == (spent_in(walk, k as int, id, v)
                            || spends_upto(tx@, q as int, id, v)));
                    }
                }
                q += 1;
            }
        }
        proof {
            assert forall|id: Seq<char>, v: int|
                #[trigger] listed(spent@, id, v) == spent_in(walk, k + 1, id, v) by {
                lemma_spent_in_step(walk, k as int, id, v);
                if is_coinbase(tx@) {
                    assert(listed(spent@, id, v) == spent_in(walk, k as int, id, v));
                } else {
                    assert(listed(spent@, id, v) == (spent_in(walk, k as int, id, v)
                        || spends_upto(tx@, tx@.vin.len() as int, id, v)));
                }
            }
        }
        k += 1;
    }
    entries
}

impl Blockchain {
    /// The unspent outputs of the chain, by a full scan from the tip: an
    /// output is unspent if no transaction met before it on the walk, newest
    /// block first, spends it. A coinbase spends nothing.
    pub fn find_UTXO(&self) -> (r: Vec<UtxoEntry>)
        ensures
            entries_view(r@) == unspent_outputs(chain_transactions(self@)),
    {
        let txs = self.transactions();
        scan_unspent(&txs)
    }
}

/// An unspent output that was picked to be spent, with its value.
#[derive(Debug)]
pub struct SpendableOutput {
    pub txid: String,
    pub vout: i32,
    pub value: i32,
}

/// What an output picked is: the values it holds.
pub struct SpendableView {
    pub txid: Seq<char>,
    pub vout: int,
    pub value: int,
}

impl View for SpendableOutput {
    type V = SpendableView;

    open spec fn view(&self) -> SpendableView {
        SpendableView { txid: self.txid@, vout: self.vout as int, value: self.value as int }
    }
}

/// What a list of outputs picked is.
pub open spec fn spendable_view(v: Seq<SpendableOutput>) -> Seq<SpendableView> {
    v.map_values(|o: SpendableOutput| o@)
}

/// The sum of the values of the outputs picked.
pub open spec fn total_picked(picks: Seq<SpendableView>) -> int
    decreases picks.len(),
{
    if picks.len() == 0 {
        0
    } else {
        total_picked(picks.drop_last()) + picks.last().value
    }
}

/// Whether an output is picked when `accumulated` has been picked before
/// it: it is locked to `lock`, the amount is not covered yet, and its value
/// is not negative.
pub open spec fn picks_output(
    accumulated: int,
    output: TXOutputView,
    lock: Seq<u8>,
    amount: int,
) -> bool {
    output.pub_key_hash == lock && accumulated < amount && output.value >= 0
}

/// The outputs picked once the first `m` outputs of an entry were looked at.
pub open spec fn pick_in_entry(
    picks: Seq<SpendableView>,
    entry: UtxoEntryView,
    lock: Seq<u8>,
    amount: int,
    m: int,
) -> Seq<SpendableView>
    decreases m,
{
    if m <= 0 {
        picks
    } else {
        let before = pick_in_entry(picks, entry, lock, amount, m - 1);
        let o = entry.outputs[m - 1];
        if picks_output(total_picked(before), o.output, lock, amount) {
            before.push(SpendableView { txid: entry.txid, vout: o.index, value: o.output.value })
        } else {
            before
        }
    }
}

/// The outputs picked once the first `n` entries of the index were looked
/// at: in the order of the index, each output locked to `lock` is picked
/// until the sum of the values picked covers `amount`.
pub open spec fn pick_spendable(index: Seq<UtxoEntryView>, lock: Seq<u8>, amount: int, n: int) -> Seq<
    SpendableView,
>
    decreases n,
{
    if n <= 0 {
        Seq::empty()
    } else {
        pick_in_entry(
            pick_spendable(index, lock, amount, n - 1),
            index[n - 1],
            lock,
            amount,
            index[n - 1].outputs.len() as int,
        )
    }
}

/// The outputs that cover an amount from the index.
pub open spec fn spendable_outputs(index: Seq<UtxoEntryView>, lock: Seq<u8>, amount: int) -> Seq<
    SpendableView,
> {
    pick_spendable(index, lock, amount, index.len() as int)
}

/// The sum of the outputs picked grows by the value of one more.
pub proof fn lemma_total_picked_push(picks: Seq<SpendableView>, pick: SpendableView)
    ensures
        total_picked(picks.push(pick)) == total_picked(picks) + pick.value,
{
    assert(picks.push(pick).drop_last() =~= picks);
}

/// Once the amount is covered, no further output of an entry is picked.
pub proof fn lemma_entry_covered(
    picks: Seq<SpendableView>,
    entry: UtxoEntryView,
    lock: Seq<u8>,
    amount: int,
    m: int,
    more: int,
)
    requires
        0 <= m <= more,
        m < more ==> total_picked(pick_in_entry(picks, entry, lock, amount, m)) >= amount,
    ensures
        pick_in_entry(picks, entry, lock, amount, more) == pick_in_entry(
            picks,
            entry,
            lock,
            amount,
            m,
        ),
    decreases more - m,
{
    if m < more {
        lemma_entry_covered(picks, entry, lock, amount, m, more - 1);
    }
}

/// Once the amount is covered, no output of a further entry is picked.
pub proof fn lemma_index_covered(
    index: Seq<UtxoEntryView>,
    lock: Seq<u8>,
    amount: int,
    n: int,
    more: int,
)
    requires
        0 <= n <= more,
        n < more ==> total_picked(pick_spendable(index, lock, amount, n)) >= amount,
    ensures
        pick_spendable(index, lock, amount, more) == pick_spendable(index, lock, amount, n),
    decreases more - n,
{
    if n < more {
        lemma_index_covered(index, lock, amount, n, more - 1);
        lemma_entry_covered(
            pick_spendable(index, lock, amount, n),
            index[more - 1],
            lock,
            amount,
            0,
            index[more - 1].outputs.len() as int,
        );
    }
}

/// The first place in the index that holds the entry of a transaction.
pub fn find_entry(entries: &Vec<UtxoEntry>, txid: &String) -> (r: Option<usize>)
    ensures
        match r {
            Some(k) => is_first_entry(entries_view(entries@), txid@, k as int) && entry_place(
                entries_view(entries@),
                txid@,
            ) == k,
            None => !has_entry(entries_view(entries@), txid@),
        },
{
    let ghost view = entries_view(entries@);
    let mut i: usize = 0;
    while i < entries.len()
        invariant
            i <= entries@.len(),
            view == entries_view(entries@),
            forall|j: int| 0 <= j < i ==> (#[trigger] view[j]).txid != txid@,
        decreases entries@.len() - i,
    {
        assert(view[i as int] == entries@[i as int]@);
        if entries[i].txid == *txid {
            proof {
                assert(is_first_entry(view, txid@, i as int));
                let k = entry_place(view, txid@);
                assert(k == i) by {
                    if k < i {
                        assert(view[k].txid != txid@);
                    }
                    if i < k {
                        assert(view[i as int].txid != txid@);
                    }
                }
            }
            return Some(i);
        }
        i += 1;
    }
    proof {
        assert forall|k: int| !is_first_entry(view, txid@, k) by {
            if 0 <= k < view.len() {
                assert(view[k].txid != txid@);
            }
        }
    }
    None
}

/// Adds an unspent output of the transaction `txid` to the index.
pub fn insert_output(entries: &mut Vec<UtxoEntry>, txid: &String, index: i32, output: TXOutput)
    ensures
        entries_view(final(entries)@) == with_output(
            entries_view(old(entries)@),
            txid@,
            IndexedOutputView { index: index as int, output: output@ },
        ),
{
    let ghost before = entries_view(entries@);
    let ghost added = IndexedOutputView { index: index as int, output: output@ };
    match find_entry(entries, txid) {
        Some(k) => {
            entries[k].outputs.push(IndexedOutput { index, output });
            proof {
                let after = entries_view(entries@);
                assert(after[k as int].outputs =~= before[k as int].outputs.push(added));
                assert(after =~= before.update(
                    k as int,
                    UtxoEntryView { txid: txid@, outputs: before[k as int].outputs.push(added) },
                )) by {
                    assert forall|j: int| 0 <= j < after.len() && j != k implies after[j]
                        == before[j] by {
                        assert(entries@[j] == old(entries)@[j]);
                    }
                }
            }
        },
        None => {
            let mut outputs: Vec<IndexedOutput> = Vec::new();
            outputs.push(IndexedOutput { index, output });
            let entry = UtxoEntry { txid: txid.clone(), outputs };
            assert(entry@.outputs =~= seq![added]);
            entries.push(entry);
            assert(entries_view(entries@) =~= before.push(
                UtxoEntryView { txid: txid@, outputs: seq![added] },
            ));
        },
    }
}

/// The outputs of a list but those at the place `vout`.
pub fn keep_others(outputs: &Vec<IndexedOutput>, vout: i32) -> (r: Vec<IndexedOutput>)
    ensures
        indexed_view(r@) == outputs_except(indexed_view(outputs@), vout as int),
{
    let ghost all = indexed_view(outputs@);
    let mut kept: Vec<IndexedOutput> = Vec::new();
    let mut i: usize = 0;
    assert(all.subrange(0, 0) =~= Seq::<IndexedOutputView>::empty());
    assert(indexed_view(kept@) =~= Seq::<IndexedOutputView>::empty());
    while i < outputs.len()
        invariant
            i <= outputs@.len(),
            all == indexed_view(outputs@),
            indexed_view(kept@) == outputs_except(all.subrange(0, i as int), vout as int),
        decreases outputs@.len() - i,
    {
        let ghost prefix = all.subrange(0, i as int);
        let ghost grown = all.subrange(0, i + 1);
        assert(grown.drop_last() =~= prefix);
        assert(grown.last() == outputs@[i as int]@);
        if outputs[i].index != vout {
            let ghost old_kept = indexed_view(kept@);
            kept.push(outputs[i].clone());
            assert(indexed_view(kept@) =~= old_kept.push(outputs@[i as int]@));
        }
        i += 1;
    }
    assert(all.subrange(0, i as int) =~= all);
    kept
}

/// Takes the output at the place `vout` of the transaction `txid` out of the
/// index.
pub fn remove_output(entries: &mut Vec<UtxoEntry>, txid: &String, vout: i32)
    ensures
        entries_view(final(entries)@) == without_output(
            entries_view(old(entries)@),
            txid@,
            vout as int,
        ),
{
    let ghost before = entries_view(entries@);
    match find_entry(entries, txid) {
        Some(k) => {
            assert(before[k as int] == entries@[k as int]@);
            let kept = keep_others(&entries[k].outputs, vout);
            if kept.len() == 0 {
                entries.remove(k);
                assert(entries_view(entries@) =~= before.remove(k as int));
            } else {
                entries[k].outputs = kept;
                proof {
                    let after = entries_view(entries@);
                    assert(after =~= before.update(
                        k as int,
                        UtxoEntryView {
                            txid: txid@,
                            outputs: outputs_except(before[k as int].outputs, vout as int),
                        },
                    )) by {
                        assert forall|j: int| 0 <= j < after.len() && j != k implies after[j]
                            == before[j] by {
                            assert(entries@[j] == old(entries)@[j]);
                        }
                    }
                }
            }
        },
        None => {},
    }
}

/// Brings the index up to date with one transaction.
pub fn apply(entries: &mut Vec<UtxoEntry>, tx: &Transaction)
    ensures
        entries_view(final(entries)@) == apply_transaction(entries_view(old(entries)@), tx@),
{
    let ghost before = entries_view(entries@);
    if !tx.is_coinbase() {
        let mut i: usize = 0;
        while i < tx.vin.len()
            invariant
                i <= tx.vin@.len(),
                entries_view(entries@) == spend_inputs(before, tx@.vin, i as int),
            decreases tx.vin@.len() - i,
        {
            assert(tx@.vin[i as int] == tx.vin@[i as int]@);
            remove_output(entries, &tx.vin[i].txid, tx.vin[i].vout);
            i += 1;
        }
    }
    let ghost spent = entries_view(entries@);
    let mut m: usize = 0;
    while m < tx.vout.len()
        invariant
            m <= tx.vout@.len(),
            entries_view(entries@) == add_outputs(spent, tx@.id, tx@.vout, m as int),
        decreases tx.vout@.len() - m,
    {
        assert(tx@.vout[m as int] == tx.vout@[m as int]@);
        if m <= i32::MAX as usize {
            insert_output(entries, &tx.id, m as i32, tx.vout[m].clone());
        }
        m += 1;
    }
}

impl UTXOSet {
    /// The index over a ledger, empty until it is rebuilt.
    pub fn new(blockchain: Blockchain) -> (r: UTXOSet)
        ensures
            r.blockchain == blockchain,
            entries_view(r.entries@).len() == 0,
    {
        UTXOSet { blockchain, entries: Vec::new() }
    }

    /// Discards the index and rebuilds it by a full scan of the ledger. The
    /// result is the number of transactions now indexed.
    pub fn reindex(&mut self) -> (r: usize)
        ensures
            final(self).blockchain == old(self).blockchain,
            reindexed(old(self)@, final(self)@, r),
            tidy(final(self)@.entries),
    {
        self.entries = self.blockchain.find_UTXO();
        proof {
            let walk = chain_transactions(self.blockchain@);
            lemma_scan_tidy(walk, walk.len() as int);
        }
        self.entries.len()
    }

    /// The unspent outputs that are locked to a public-key hash, in the
    /// order of the index.
    pub fn find_UTXO(&self, pub_key_hash: &[u8]) -> (r: TXOutputs)
        ensures
            r@ == locked_outputs(
                entries_view(self.entries@),
                pub_key_hash@,
                self.entries@.len() as int,
            ),
    {
        let ghost index = entries_view(self.entries@);
        let mut found: Vec<TXOutput> = Vec::new();
        let mut n: usize = 0;
        assert(outputs_view(found@) =~= locked_outputs(index, pub_key_hash@, 0));
        while n < self.entries.len()
            invariant
                n <= self.entries@.len(),
                index == entries_view(self.entries@),
                outputs_view(found@) == locked_outputs(index, pub_key_hash@, n as int),
            decreases self.entries@.len() - n,
        {
            let entry = &self.entries[n];
            assert(index[n as int] == entry@);
            let ghost start = outputs_view(found@);
            let mut m: usize = 0;
            assert(start + locked_in_entry(entry@.outputs, pub_key_hash@, 0) =~= start);
            while m < entry.outputs.len()
                invariant
                    m <= entry.outputs@.len(),
                    outputs_view(found@) == start + locked_in_entry(
                        entry@.outputs,
                        pub_key_hash@,
                        m as int,
                    ),
                decreases entry.outputs@.len() - m,
            {
                assert(entry@.outputs[m as int] == entry.outputs@[m as int]@);
                if entry.outputs[m].output.is_locked_with_key(pub_key_hash) {
                    let ghost held = outputs_view(found@);
                    found.push(entry.outputs[m].output.clone());
                    assert(outputs_view(found@) =~= held.push(entry.outputs@[m as int]@.output));
                    assert(outputs_view(found@) =~= start + locked_in_entry(
                        entry@.outputs,
                        pub_key_hash@,
                        m + 1,
                    ));
                }
                m += 1;
            }
            n += 1;
        }
        TXOutputs { outputs: found }
    }

    /// The balance of a public-key hash: the sum of the values of the
    /// unspent outputs locked to it.
    pub fn balance(&self, pub_key_hash: &[u8]) -> (r: i128)
        ensures
            r == total_value(
                locked_outputs(
                    entries_view(self.entries@),
                    pub_key_hash@,
                    self.entries@.len() as int,
                ),
            ),
    {
        let found = self.find_UTXO(pub_key_hash);
        let ghost all = found@;
        let mut sum: i128 = 0;
        let mut i: usize = 0;
        assert(all.subrange(0, 0) =~= Seq::<TXOutputView>::empty());
        while i < found.outputs.len()
            invariant
                i <= found.outputs@.len(),
                all == found@,
                sum == total_value(all.subrange(0, i as int)),
                -(i as int) * 0x8000_0000 <= sum <= (i as int) * 0x8000_0000,
            decreases found.outputs@.len() - i,
        {
            let ghost grown = all.subrange(0, i + 1);
            assert(grown.drop_last() =~= all.subrange(0, i as int));
            assert(grown.last() == found.outputs@[i as int]@);
            assert(-(i as int) * 0x8000_0000 - 0x8000_0000 == -(i + 1) * 0x8000_0000)
                by (nonlinear_arith);
            assert((i as int) * 0x8000_0000 + 0x8000_0000 == (i + 1) * 0x8000_0000)
                by (nonlinear_arith);
            assert((i + 1) * 0x8000_0000 <= 0x1_0000_0000_0000_0000 * 0x8000_0000)
                by (nonlinear_arith)
                requires
                    i + 1 <= 0x1_0000_0000_0000_0000,
            ;
            sum = sum + found.outputs[i].value as i128;
            i += 1;
        }
        assert(all.subrange(0, i as int) =~= all);
        sum
    }

    /// Brings the index up to date with a block that was committed to the
    /// ledger: for each transaction in its order, what its inputs name is
    /// spent, unless it is a coinbase, and its outputs are unspent.
    pub fn update(&mut self, block: &Block)
        ensures
            final(self).blockchain == old(self).blockchain,
            final(self)@.entries == apply_transactions(
                old(self)@.entries,
                block@.transactions,
                block@.transactions.len() as int,
            ),
            tidy(old(self)@.entries) ==> tidy(final(self)@.entries),
    {
        let ghost before = entries_view(self.entries@);
        let ghost txs = block@.transactions;
        let mut i: usize = 0;
        while i < block.transactions.len()
            invariant
                i <= block.transactions@.len(),
                txs == block@.transactions,
                self.blockchain == old(self).blockchain,
                entries_view(self.entries@) == apply_transactions(before, txs, i as int),
            decreases block.transactions@.len() - i,
        {
            assert(txs[i as int] == block.transactions@[i as int]@);
            apply(&mut self.entries, &block.transactions[i]);
            i += 1;
        }
        proof {
            if tidy(before) {
                lemma_update_tidy(before, txs, txs.len() as int);
            }
        }
    }

    /// Picks unspent outputs locked to a public-key hash until their values
    /// cover `amount`, in the order of the index. The result is the sum of the
    /// values picked and the outputs picked; the sum is short of `amount`
    /// where the index holds too little.
    pub fn find_spendable_outputs(&self, pub_key_hash: &[u8], amount: i32) -> (r: (
        i64,
        Vec<SpendableOutput>,
    ))
        ensures
            spendable_view(r.1@) == spendable_outputs(
                entries_view(self.entries@),
                pub_key_hash@,
                amount as int,
            ),
            r.0 == total_picked(spendable_view(r.1@)),
            r.0 == 0 || (0 < r.0 < amount + i32::MAX),
    {
        let ghost index = entries_view(self.entries@);
        let mut accumulated: i64 = 0;
        let mut picks: Vec<SpendableOutput> = Vec::new();
        let mut n: usize = 0;
        assert(spendable_view(picks@) =~= pick_spendable(index, pub_key_hash@, amount as int, 0));
        while n < self.entries.len() && accumulated < amount as i64
            invariant
                n <= self.entries@.len(),
                index == entries_view(self.entries@),
                spendable_view(picks@) == pick_spendable(
                    index,
                    pub_key_hash@,
                    amount as int,
                    n as int,
                ),
                accumulated == total_picked(spendable_view(picks@)),
                accumulated == 0 || (0 < accumulated < amount + i32::MAX),
            decreases self.entries@.len() - n,
        {
            let entry = &self.entries[n];
            assert(index[n as int] == entry@);
            let ghost start = spendable_view(picks@);
            let mut m: usize = 0;
            while m < entry.outputs.len() && accumulated < amount as i64
                invariant
                    m <= entry.outputs@.len(),
                    spendable_view(picks@) == pick_in_entry(
                        start,
                        entry@,
                        pub_key_hash@,
                        amount as int,
                        m as int,
                    ),
                    accumulated == total_picked(spendable_view(picks@)),
                    accumulated == 0 || (0 < accumulated < amount + i32::MAX),
                decreases entry.outputs@.len() - m,
            {
                let o = &entry.outputs[m];
                assert(entry@.outputs[m as int] == o@);
                if o.output.value >= 0 && o.output.is_locked_with_key(pub_key_hash) {
                    let ghost held = spendable_view(picks@);
                    let pick = SpendableOutput {
                        txid: entry.txid.clone(),
                        vout: o.index,
                        value: o.output.value,
                    };
                    proof {
                        lemma_total_picked_push(held, pick@);
                    }
                    picks.push(pick);
                    assert(spendable_view(picks@) =~= held.push(pick@));
                    accumulated = accumulated + o.output.value as i64;
                }
                m += 1;
            }
            proof {
                lemma_entry_covered(
                    start,
                    entry@,
                    pub_key_hash@,
                    amount as int,
                    m as int,
                    entry@.outputs.len() as int,
                );
            }
            n += 1;
        }
        proof {
            lemma_index_covered(
                index,
                pub_key_hash@,
                amount as int,
                n as int,
                index.len() as int,
            );
        }
        (accumulated, picks)
    }

    /// The number of entries of the index. In a tidy index, as `reindex`
    /// gives and `update` keeps it, that is the number of transactions with
    /// unspent outputs.
    pub fn count_transactions(&self) -> (r: usize)
        ensures
            r == self@.entries.len(),
    {
        self.entries.len()
    }
}

/// Reindex idempotence. An index rebuilt twice in a row, with no change of
/// the ledger between, holds the same after the second time as after the
/// first, and both times give the same count.
pub proof fn lemma_reindex_idempotent(
    a: UTXOSetView,
    b: UTXOSetView,
    c: UTXOSetView,
    first: usize,
    second: usize,
)
    requires
        reindexed(a, b, first),
        reindexed(b, c, second),
    ensures
        c == b,
        first == second,
{
}

/// Where some entry of the index is of a transaction, one of them is the
/// first.
pub proof fn lemma_some_first_entry(index: Seq<UtxoEntryView>, txid: Seq<char>, m: int)
    requires
        0 <= m < index.len(),
        index[m].txid == txid,
    ensures
        has_entry(index, txid),
    decreases m,
{
    if exists|j: int| 0 <= j < m && (#[trigger] index[j]).txid == txid {
        let j = choose|j: int| 0 <= j < m && (#[trigger] index[j]).txid == txid;
        lemma_some_first_entry(index, txid, j);
    } else {
        assert(is_first_entry(index, txid, m));
    }
}

/// Adding an output keeps the index tidy.
pub proof fn lemma_with_output_tidy(
    index: Seq<UtxoEntryView>,
    txid: Seq<char>,
    output: IndexedOutputView,
)
    requires
        tidy(index),
    ensures
        tidy(with_output(index, txid, output)),
{
    let after = with_output(index, txid, output);
    if has_entry(index, txid) {
        let k = entry_place(index, txid);
        assert forall|i: int, j: int| 0 <= i < j < after.len() implies (#[trigger] after[i]).txid
            != (#[trigger] after[j]).txid by {
            assert(after[i].txid == index[i].txid);
            assert(after[j].txid == index[j].txid);
        }
        assert forall|i: int| 0 <= i < after.len() implies (#[trigger] after[i]).outputs.len()
            > 0 by {
            if i != k {
                assert(after[i] == index[i]);
            }
        }
    } else {
        assert forall|i: int, j: int| 0 <= i < j < after.len() implies (#[trigger] after[i]).txid
            != (#[trigger] after[j]).txid by {
            assert(after[i] == index[i]);
            if j < index.len() {
                assert(after[j] == index[j]);
            } else if index[i].txid == txid {
                lemma_some_first_entry(index, txid, i);
            }
        }
        assert forall|i: int| 0 <= i < after.len() implies (#[trigger] after[i]).outputs.len()
            > 0 by {
            if i < index.len() {
                assert(after[i] == index[i]);
            }
        }
    }
}

/// Taking an output out keeps the index tidy.
pub proof fn lemma_without_output_tidy(index: Seq<UtxoEntryView>, txid: Seq<char>, vout: int)
    requires
        tidy(index),
    ensures
        tidy(without_output(index, txid, vout)),
{
    let after = without_output(index, txid, vout);
    if has_entry(index, txid) {
        let k = entry_place(index, txid);
        let kept = outputs_except(index[k].outputs, vout);
        if kept.len() == 0 {
            assert forall|i: int, j: int| 0 <= i < j < after.len() implies (
            #[trigger] after[i]).txid != (#[trigger] after[j]).txid by {
                let a = if i < k { i } else { i + 1 };
                let b = if j < k { j } else { j + 1 };
                assert(after[i] == index[a]);
                assert(after[j] == index[b]);
            }
            assert forall|i: int| 0 <= i < after.len() implies (#[trigger] after[i]).outputs.len()
                > 0 by {
                let a = if i < k { i } else { i + 1 };
                assert(after[i] == index[a]);
            }
        } else {
            assert forall|i: int, j: int| 0 <= i < j < after.len() implies (
            #[trigger] after[i]).txid != (#[trigger] after[j]).txid by {
                assert(after[i].txid == index[i].txid);
                assert(after[j].txid == index[j].txid);
            }
            assert forall|i: int| 0 <= i < after.len() implies (#[trigger] after[i]).outputs.len()
                > 0 by {
                if i != k {
                    assert(after[i] == index[i]);
                }
            }
        }
    }
}

/// Spending the inputs of a transaction keeps the index tidy.
pub proof fn lemma_spend_inputs_tidy(index: Seq<UtxoEntryView>, inputs: Seq<TXInputView>, n: int)
    requires
        tidy(index),
    ensures
        tidy(spend_inputs(index, inputs, n)),
    decreases n,
{
    if n > 0 {
        lemma_spend_inputs_tidy(index, inputs, n - 1);
        lemma_without_output_tidy(
            spend_inputs(index, inputs, n - 1),
            inputs[n - 1].txid,
            inputs[n - 1].vout,
        );
    }
}

/// Adding the outputs of a transaction keeps the index tidy.
pub proof fn lemma_add_outputs_tidy(
    index: Seq<UtxoEntryView>,
    txid: Seq<char>,
    outputs: Seq<TXOutputView>,
    n: int,
)
    requires
        tidy(index),
    ensures
        tidy(add_outputs(index, txid, outputs, n)),
    decreases n,
{
    if n > 0 {
        lemma_add_outputs_tidy(index, txid, outputs, n - 1);
        if n - 1 <= i32::MAX {
            lemma_with_output_tidy(
                add_outputs(index, txid, outputs, n - 1),
                txid,
                IndexedOutputView { index: n - 1, output: outputs[n - 1] },
            );
        }
    }
}

/// An update keeps the index tidy: afterwards, as before, the number of its
/// entries is the number of transactions that have unspent outputs in it.
pub proof fn lemma_update_tidy(index: Seq<UtxoEntryView>, txs: Seq<TransactionView>, n: int)
    requires
        tidy(index),
    ensures
        tidy(apply_transactions(index, txs, n)),
    decreases n,
{
    if n > 0 {
        lemma_update_tidy(index, txs, n - 1);
        let before = apply_transactions(index, txs, n - 1);
        let tx = txs[n - 1];
        lemma_spend_inputs_tidy(before, tx.vin, tx.vin.len() as int);
        let spent = if is_coinbase(tx) {
            before
        } else {
            spend_inputs(before, tx.vin, tx.vin.len() as int)
        };
        lemma_add_outputs_tidy(spent, tx.id, tx.vout, tx.vout.len() as int);
    }
}

/// Looking at the outputs of a transaction keeps the index tidy.
pub proof fn lemma_collect_tidy(
    index: Seq<UtxoEntryView>,
    txs: Seq<TransactionView>,
    k: int,
    m: int,
)
    requires
        tidy(index),
    ensures
        tidy(collect_unspent(index, txs, k, m)),
    decreases m,
{
    if m > 0 {
        lemma_collect_tidy(index, txs, k, m - 1);
        if !(m - 1 > i32::MAX || spent_in(txs, k, txs[k].id, m - 1)) {
            lemma_with_output_tidy(
                collect_unspent(index, txs, k, m - 1),
                txs[k].id,
                IndexedOutputView { index: m - 1, output: txs[k].vout[m - 1] },
            );
        }
    }
}

/// A full scan gives a tidy index: the number of its entries is the number
/// of transactions that have unspent outputs.
pub proof fn lemma_scan_tidy(txs: Seq<TransactionView>, n: int)
    ensures
        tidy(scan_upto(txs, n)),
    decreases n,
{
    if n > 0 {
        lemma_scan_tidy(txs, n - 1);
        lemma_collect_tidy(scan_upto(txs, n - 1), txs, n - 1, txs[n - 1].vout.len() as int);
    }
}

/// The outputs found in an entry hold every output of the entry, among
/// those looked at, that is locked to the hash.
pub proof fn lemma_locked_in_entry_complete(
    outputs: Seq<IndexedOutputView>,
    lock: Seq<u8>,
    bound: int,
    m: int,
)
    requires
        0 <= m < bound <= outputs.len(),
        outputs[m].output.pub_key_hash == lock,
    ensures
        locked_in_entry(outputs, lock, bound).contains(outputs[m].output),
    decreases bound,
{
    let found = locked_in_entry(outputs, lock, bound);
    let before = locked_in_entry(outputs, lock, bound - 1);
    if m == bound - 1 {
        assert(found[before.len() as int] == outputs[m].output);
    } else {
        lemma_locked_in_entry_complete(outputs, lock, bound - 1, m);
        let i = choose|i: int| 0 <= i < before.len() && before[i] == outputs[m].output;
        assert(found[i] == outputs[m].output);
    }
}

/// What is found for a hash holds every output of the index that is locked
/// to it.
pub proof fn lemma_locked_complete(
    index: Seq<UtxoEntryView>,
    lock: Seq<u8>,
    bound: int,
    n: int,
    m: int,
)
    requires
        0 <= n < bound <= index.len(),
        0 <= m < index[n].outputs.len(),
        index[n].outputs[m].output.pub_key_hash == lock,
    ensures
        locked_outputs(index, lock, bound).contains(index[n].outputs[m].output),
    decreases bound,
{
    let wanted = index[n].outputs[m].output;
    let before = locked_outputs(index, lock, bound - 1);
    let last = locked_in_entry(
        index[bound - 1].outputs,
        lock,
        index[bound - 1].outputs.len() as int,
    );
    let found = locked_outputs(index, lock, bound);
    if n == bound - 1 {
        lemma_locked_in_entry_complete(
            index[n].outputs,
            lock,
            index[n].outputs.len() as int,
            m,
        );
        let i = choose|i: int| 0 <= i < last.len() && last[i] == wanted;
        assert(found[before.len() + i] == wanted);
    } else {
        lemma_locked_complete(index, lock, bound - 1, n, m);
        let i = choose|i: int| 0 <= i < before.len() && before[i] == wanted;
        assert(found[i] == wanted);
    }
}

/// Every output found in an entry is an output of the entry that is locked
/// to the hash.
pub proof fn lemma_locked_in_entry_sound(
    outputs: Seq<IndexedOutputView>,
    lock: Seq<u8>,
    bound: int,
    i: int,
)
    requires
        0 <= bound <= outputs.len(),
        0 <= i < locked_in_entry(outputs, lock, bound).len(),
    ensures
        locked_in_entry(outputs, lock, bound)[i].pub_key_hash == lock,
        exists|m: int|
            0 <= m < bound && (#[trigger] outputs[m]).output == locked_in_entry(
                outputs,
                lock,
                bound,
            )[i],
    decreases bound,
{
    let before = locked_in_entry(outputs, lock, bound - 1);
    if i < before.len() {
        lemma_locked_in_entry_sound(outputs, lock, bound - 1, i);
        let m = choose|m: int| 0 <= m < bound - 1 && (#[trigger] outputs[m]).output == before[i];
        assert(outputs[m].output == locked_in_entry(outputs, lock, bound)[i]);
    } else {
        assert(outputs[bound - 1].output == locked_in_entry(outputs, lock, bound)[i]);
    }
}

/// Every output found for a hash is an output of the index that is locked
/// to it.
pub proof fn lemma_locked_sound(index: Seq<UtxoEntryView>, lock: Seq<u8>, bound: int, i: int)
    requires
        0 <= bound <= index.len(),
        0 <= i < locked_outputs(index, lock, bound).len(),
    ensures
        locked_outputs(index, lock, bound)[i].pub_key_hash == lock,
        exists|n: int, m: int|
            0 <= n < bound && 0 <= m < index[n].outputs.len() && (
            #[trigger] index[n].outputs[m]).output == locked_outputs(index, lock, bound)[i],
    decreases bound,
{
    let before = locked_outputs(index, lock, bound - 1);
    let found = locked_outputs(index, lock, bound);
    if i < before.len() {
        lemma_locked_sound(index, lock, bound - 1, i);
        let (n, m) = choose|n: int, m: int|
            0 <= n < bound - 1 && 0 <= m < index[n].outputs.len() && (
            #[trigger] index[n].outputs[m]).output == before[i];
        assert(index[n].outputs[m].output == found[i]);
    } else {
        let outputs = index[bound - 1].outputs;
        lemma_locked_in_entry_sound(outputs, lock, outputs.len() as int, i - before.len());
        let m = choose|m: int|
            0 <= m < outputs.len() && (#[trigger] outputs[m]).output == locked_in_entry(
                outputs,
                lock,
                outputs.len() as int,
            )[i - before.len()];
        assert(index[bound - 1].outputs[m].output == found[i]);
    }
}

} // verus!
