use crate::address::locking_hash_of;
use crate::blockchain::{
    chain, chain_transactions, genesis_data, genesis_outcome, is_stored,
    lemma_transactions_of_concat, lemma_transactions_of_one, mine_outcome, BlockchainView,
};
use crate::linkage::{
    lemma_genesis_linked, lemma_mining_keeps_linked, lemma_seal_is_sealed, linked,
};
use crate::transaction::{
    coinbase_outcome, is_coinbase, TXOutputView, TransactionView, SUBSIDY,
};
use crate::utxoset::{
    add_outputs, apply_transaction, apply_transactions, collect_unspent, entry_place, has_entry,
    is_first_entry, lemma_scan_tidy, lemma_some_first_entry, lemma_spend_inputs_tidy,
    lemma_spends_step, lemma_spent_in_step, lemma_update_tidy, outputs_except, scan_upto,
    lemma_locked_complete, locked_outputs, spend_inputs, spends_upto, spent_by, spent_in, tidy,
    unspent_outputs, with_output, without_output, IndexedOutputView, UtxoEntryView,
};
use vstd::prelude::*;

verus! {

/// The unspent outputs that the index holds for a transaction; none where it
/// has no entry for it.
pub open spec fn outputs_of(index: Seq<UtxoEntryView>, txid: Seq<char>) -> Seq<IndexedOutputView> {
    if has_entry(index, txid) {
        index[entry_place(index, txid)].outputs
    } else {
        Seq::empty()
    }
}

/// The first place of an entry is the only first place of it.
pub proof fn lemma_entry_place(index: Seq<UtxoEntryView>, txid: Seq<char>, k: int)
    requires
        is_first_entry(index, txid, k),
    ensures
        has_entry(index, txid),
        entry_place(index, txid) == k,
{
    let c = entry_place(index, txid);
    if c < k {
        assert(index[c].txid != txid);
    }
    if k < c {
        assert(index[k].txid != txid);
    }
}

/// An index without an entry for a transaction holds no entry of it
/// anywhere; an index with one holds it at its place.
pub proof fn lemma_entry(index: Seq<UtxoEntryView>, txid: Seq<char>)
    ensures
        has_entry(index, txid) ==> is_first_entry(index, txid, entry_place(index, txid)),
        !has_entry(index, txid) ==> forall|j: int|
            0 <= j < index.len() ==> (#[trigger] index[j]).txid != txid,
{
    if !has_entry(index, txid) {
        assert forall|j: int| 0 <= j < index.len() implies (#[trigger] index[j]).txid != txid by {
            if index[j].txid == txid {
                lemma_some_first_entry(index, txid, j);
            }
        }
    }
}

/// What adding an output does to the list of each transaction: the output
/// comes last in the list of its own, the others stay.
pub proof fn lemma_with_output_of(
    index: Seq<UtxoEntryView>,
    txid: Seq<char>,
    output: IndexedOutputView,
    id: Seq<char>,
)
    ensures
        outputs_of(with_output(index, txid, output), id) == if id == txid {
            outputs_of(index, txid).push(output)
        } else {
            outputs_of(index, id)
        },
{
    let after = with_output(index, txid, output);
    lemma_entry(index, txid);
    lemma_entry(index, id);
    if has_entry(index, txid) {
        let k = entry_place(index, txid);
        if has_entry(index, id) {
            let p = entry_place(index, id);
            assert(is_first_entry(after, id, p)) by {
                assert forall|j: int| 0 <= j < p implies (#[trigger] after[j]).txid != id by {
                    assert(after[j].txid == index[j].txid);
                }
            }
            lemma_entry_place(after, id, p);
        } else {
            assert forall|c: int| !is_first_entry(after, id, c) by {
                if 0 <= c < after.len() {
                    assert(after[c].txid == index[c].txid);
                }
            }
        }
    } else {
        let n = index.len() as int;
        if id == txid {
            assert(is_first_entry(after, id, n)) by {
                assert forall|j: int| 0 <= j < n implies (#[trigger] after[j]).txid != id by {
                    assert(after[j] == index[j]);
                }
            }
            lemma_entry_place(after, id, n);
            assert(after[n].outputs =~= Seq::<IndexedOutputView>::empty().push(output));
        } else if has_entry(index, id) {
            let p = entry_place(index, id);
            assert(is_first_entry(after, id, p)) by {
                assert(after[p] == index[p]);
                assert forall|j: int| 0 <= j < p implies (#[trigger] after[j]).txid != id by {
                    assert(after[j] == index[j]);
                }
            }
            lemma_entry_place(after, id, p);
        } else {
            assert forall|c: int| !is_first_entry(after, id, c) by {
                if 0 <= c < n {
                    assert(after[c] == index[c]);
                }
            }
        }
    }
}

/// What taking an output out of a tidy index does to the list of each
/// transaction: the list of its own loses the outputs at that place, the
/// others stay.
pub proof fn lemma_without_output_of(
    index: Seq<UtxoEntryView>,
    txid: Seq<char>,
    vout: int,
    id: Seq<char>,
)
    requires
        tidy(index),
    ensures
        outputs_of(without_output(index, txid, vout), id) == if id == txid {
            outputs_except(outputs_of(index, txid), vout)
        } else {
            outputs_of(index, id)
        },
{
    let after = without_output(index, txid, vout);
    lemma_entry(index, txid);
    lemma_entry(index, id);
    if has_entry(index, txid) {
        let k = entry_place(index, txid);
        let kept = outputs_except(index[k].outputs, vout);
        if kept.len() == 0 {
            if id == txid {
                assert forall|c: int| !is_first_entry(after, id, c) by {
                    if 0 <= c < after.len() {
                        let a = if c < k { c } else { c + 1 };
                        assert(after[c] == index[a]);
                        assert(index[a].txid != index[k].txid);
                    }
                }
                assert(outputs_of(after, id) =~= kept);
            } else if has_entry(index, id) {
                let p = entry_place(index, id);
                let q = if p < k { p } else { p - 1 };
                assert(is_first_entry(after, id, q)) by {
                    assert(after[q] == index[p]);
                    assert forall|j: int| 0 <= j < q implies (#[trigger] after[j]).txid != id by {
                        let a = if j < k { j } else { j + 1 };
                        assert(after[j] == index[a]);
                    }
                }
                lemma_entry_place(after, id, q);
            } else {
                assert forall|c: int| !is_first_entry(after, id, c) by {
                    if 0 <= c < after.len() {
                        let a = if c < k { c } else { c + 1 };
                        assert(after[c] == index[a]);
                    }
                }
            }
        } else {
            if has_entry(index, id) {
                let p = entry_place(index, id);
                assert(is_first_entry(after, id, p)) by {
                    assert forall|j: int| 0 <= j < p implies (#[trigger] after[j]).txid != id by {
                        assert(after[j].txid == index[j].txid);
                    }
                }
                lemma_entry_place(after, id, p);
            } else {
                assert forall|c: int| !is_first_entry(after, id, c) by {
                    if 0 <= c < after.len() {
                        assert(after[c].txid == index[c].txid);
                    }
                }
            }
        }
    } else {
        if id == txid {
            assert(outputs_except(Seq::<IndexedOutputView>::empty(), vout)
                =~= Seq::<IndexedOutputView>::empty());
        }
    }
}

/// The first `m` outputs of a transaction, each with its place, but those at
/// a place in `dead` and those at a place that no input can name.
pub open spec fn live_outputs(outs: Seq<TXOutputView>, dead: Set<int>, m: int) -> Seq<
    IndexedOutputView,
>
    decreases m,
{
    if m <= 0 {
        Seq::empty()
    } else {
        let before = live_outputs(outs, dead, m - 1);
        if m - 1 > i32::MAX || dead.contains(m - 1) {
            before
        } else {
            before.push(IndexedOutputView { index: m - 1, output: outs[m - 1] })
        }
    }
}

/// The outputs of a list but those at a place in `dead`.
pub open spec fn without_places(list: Seq<IndexedOutputView>, dead: Set<int>) -> Seq<
    IndexedOutputView,
>
    decreases list.len(),
{
    if list.len() == 0 {
        Seq::empty()
    } else {
        let before = without_places(list.drop_last(), dead);
        if dead.contains(list.last().index) {
            before
        } else {
            before.push(list.last())
        }
    }
}

/// The places of the outputs of the transaction `id` that the first `k`
/// transactions of a walk spend.
pub open spec fn spent_places(txs: Seq<TransactionView>, k: int, id: Seq<char>) -> Set<int> {
    Set::new(|v: int| spent_in(txs, k, id, v))
}

/// The places of the outputs of the transaction `id` that `tx` spends.
pub open spec fn killed_by(tx: TransactionView, id: Seq<char>) -> Set<int> {
    Set::new(|v: int| spent_by(tx, id, v))
}

/// The unspent outputs of the transactions `id` among the first `n` of a
/// walk, as a scan gathers them, with the places in `dead` left out too.
pub open spec fn gathered(txs: Seq<TransactionView>, n: int, id: Seq<char>, dead: Set<int>) -> Seq<
    IndexedOutputView,
>
    decreases n,
{
    if n <= 0 {
        Seq::empty()
    } else if txs[n - 1].id == id {
        gathered(txs, n - 1, id, dead) + live_outputs(
            txs[n - 1].vout,
            spent_places(txs, n - 1, id) + dead,
            txs[n - 1].vout.len() as int,
        )
    } else {
        gathered(txs, n - 1, id, dead)
    }
}

/// Leaving out no place leaves the list as it is.
pub proof fn lemma_without_no_place(list: Seq<IndexedOutputView>)
    ensures
        without_places(list, Set::empty()) == list,
    decreases list.len(),
{
    if list.len() > 0 {
        lemma_without_no_place(list.drop_last());
        assert(list.drop_last().push(list.last()) =~= list);
    }
}

/// Leaving out places of a list with one more output.
pub proof fn lemma_without_push(list: Seq<IndexedOutputView>, o: IndexedOutputView, dead: Set<int>)
    ensures
        without_places(list.push(o), dead) == if dead.contains(o.index) {
            without_places(list, dead)
        } else {
            without_places(list, dead).push(o)
        },
{
    assert(list.push(o).drop_last() =~= list);
}

/// Leaving out places of two lists, one after the other.
pub proof fn lemma_without_concat(
    a: Seq<IndexedOutputView>,
    b: Seq<IndexedOutputView>,
    dead: Set<int>,
)
    ensures
        without_places(a + b, dead) == without_places(a, dead) + without_places(b, dead),
    decreases b.len(),
{
    if b.len() == 0 {
        assert(a + b =~= a);
        assert(without_places(a, dead) + without_places(b, dead) =~= without_places(a, dead));
    } else {
        lemma_without_concat(a, b.drop_last(), dead);
        assert((a + b).drop_last() =~= a + b.drop_last());
        assert((a + b).last() == b.last());
        if dead.contains(b.last().index) {
        } else {
            assert(without_places(a, dead) + without_places(b.drop_last(), dead).push(b.last())
                =~= (without_places(a, dead) + without_places(b.drop_last(), dead)).push(
                b.last(),
            ));
        }
    }
}

/// Leaving out places one set after another leaves out both sets.
pub proof fn lemma_without_twice(list: Seq<IndexedOutputView>, first: Set<int>, second: Set<int>)
    ensures
        without_places(without_places(list, first), second) == without_places(
            list,
            first + second,
        ),
    decreases list.len(),
{
    if list.len() > 0 {
        lemma_without_twice(list.drop_last(), first, second);
        if !first.contains(list.last().index) {
            lemma_without_push(without_places(list.drop_last(), first), list.last(), second);
        }
    }
}

/// Taking the outputs at one place out of a list leaves out that place.
pub proof fn lemma_except_is_without(list: Seq<IndexedOutputView>, vout: int)
    ensures
        outputs_except(list, vout) == without_places(list, set![vout]),
    decreases list.len(),
{
    if list.len() > 0 {
        lemma_except_is_without(list.drop_last(), vout);
    }
}

/// Leaving out places only matters by which places are left out.
pub proof fn lemma_without_same(list: Seq<IndexedOutputView>, a: Set<int>, b: Set<int>)
    requires
        forall|v: int| a.contains(v) == b.contains(v),
    ensures
        without_places(list, a) == without_places(list, b),
    decreases list.len(),
{
    if list.len() > 0 {
        lemma_without_same(list.drop_last(), a, b);
    }
}

/// The live outputs only depend on which places are dead.
pub proof fn lemma_live_same(outs: Seq<TXOutputView>, a: Set<int>, b: Set<int>, m: int)
    requires
        forall|v: int| a.contains(v) == b.contains(v),
    ensures
        live_outputs(outs, a, m) == live_outputs(outs, b, m),
    decreases m,
{
    if m > 0 {
        lemma_live_same(outs, a, b, m - 1);
    }
}

/// Leaving places out of the live outputs makes those places dead.
pub proof fn lemma_without_live(outs: Seq<TXOutputView>, dead: Set<int>, more: Set<int>, m: int)
    ensures
        without_places(live_outputs(outs, dead, m), more) == live_outputs(outs, dead + more, m),
    decreases m,
{
    if m > 0 {
        lemma_without_live(outs, dead, more, m - 1);
        if !(m - 1 > i32::MAX || dead.contains(m - 1)) {
            lemma_without_push(
                live_outputs(outs, dead, m - 1),
                IndexedOutputView { index: m - 1, output: outs[m - 1] },
                more,
            );
        }
    }
}

/// Leaving places out of what a scan gathers is gathering with those places
/// dead.
pub proof fn lemma_without_gathered(
    txs: Seq<TransactionView>,
    n: int,
    id: Seq<char>,
    dead: Set<int>,
)
    ensures
        without_places(gathered(txs, n, id, Set::empty()), dead) == gathered(txs, n, id, dead),
    decreases n,
{
    if n > 0 {
        lemma_without_gathered(txs, n - 1, id, dead);
        if txs[n - 1].id == id {
            let spent = spent_places(txs, n - 1, id);
            let len = txs[n - 1].vout.len() as int;
            lemma_without_concat(
                gathered(txs, n - 1, id, Set::empty()),
                live_outputs(txs[n - 1].vout, spent + Set::empty(), len),
                dead,
            );
            lemma_without_live(txs[n - 1].vout, spent + Set::empty(), dead, len);
            lemma_live_same(txs[n - 1].vout, spent + Set::empty() + dead, spent + dead, len);
        }
    }
}

/// A scan gathers nothing for a transaction that the walk does not hold.
pub proof fn lemma_gathered_absent(
    txs: Seq<TransactionView>,
    n: int,
    id: Seq<char>,
    dead: Set<int>,
)
    requires
        n <= txs.len(),
        forall|j: int| 0 <= j < txs.len() ==> (#[trigger] txs[j]).id != id,
    ensures
        gathered(txs, n, id, dead) == Seq::<IndexedOutputView>::empty(),
    decreases n,
{
    if n > 0 {
        lemma_gathered_absent(txs, n - 1, id, dead);
    }
}

/// What looking at the outputs of the transaction at place `k` of a walk
/// does to the list of each transaction.
pub proof fn lemma_collect_of(
    index: Seq<UtxoEntryView>,
    txs: Seq<TransactionView>,
    k: int,
    m: int,
    id: Seq<char>,
)
    ensures
        outputs_of(collect_unspent(index, txs, k, m), id) == if id == txs[k].id {
            outputs_of(index, id) + live_outputs(txs[k].vout, spent_places(txs, k, id), m)
        } else {
            outputs_of(index, id)
        },
    decreases m,
{
    if m > 0 {
        lemma_collect_of(index, txs, k, m - 1, id);
        let before = collect_unspent(index, txs, k, m - 1);
        if !(m - 1 > i32::MAX || spent_in(txs, k, txs[k].id, m - 1)) {
            let o = IndexedOutputView { index: m - 1, output: txs[k].vout[m - 1] };
            lemma_with_output_of(before, txs[k].id, o, id);
            if id == txs[k].id {
                let live = live_outputs(txs[k].vout, spent_places(txs, k, id), m - 1);
                assert((outputs_of(index, id) + live).push(o) =~= outputs_of(index, id)
                    + live.push(o));
            }
        }
    } else if id == txs[k].id {
        assert(outputs_of(index, id) + Seq::<IndexedOutputView>::empty() =~= outputs_of(
            index,
            id,
        ));
    }
}

/// What a scan holds for each transaction: what it gathers for it.
pub proof fn lemma_scan_of(txs: Seq<TransactionView>, n: int, id: Seq<char>)
    ensures
        outputs_of(scan_upto(txs, n), id) == gathered(txs, n, id, Set::empty()),
    decreases n,
{
    if n > 0 {
        lemma_scan_of(txs, n - 1, id);
        lemma_collect_of(scan_upto(txs, n - 1), txs, n - 1, txs[n - 1].vout.len() as int, id);
        if txs[n - 1].id == id {
            lemma_live_same(
                txs[n - 1].vout,
                spent_places(txs, n - 1, id),
                spent_places(txs, n - 1, id) + Set::empty(),
                txs[n - 1].vout.len() as int,
            );
        }
    } else {
        lemma_entry(Seq::<UtxoEntryView>::empty(), id);
    }
}

/// What adding the outputs of a transaction does to the list of each
/// transaction.
pub proof fn lemma_add_outputs_of(
    index: Seq<UtxoEntryView>,
    txid: Seq<char>,
    outs: Seq<TXOutputView>,
    n: int,
    id: Seq<char>,
)
    ensures
        outputs_of(add_outputs(index, txid, outs, n), id) == if id == txid {
            outputs_of(index, id) + live_outputs(outs, Set::empty(), n)
        } else {
            outputs_of(index, id)
        },
    decreases n,
{
    if n > 0 {
        lemma_add_outputs_of(index, txid, outs, n - 1, id);
        if n - 1 <= i32::MAX {
            let o = IndexedOutputView { index: n - 1, output: outs[n - 1] };
            lemma_with_output_of(add_outputs(index, txid, outs, n - 1), txid, o, id);
            if id == txid {
                let live = live_outputs(outs, Set::empty(), n - 1);
                assert((outputs_of(index, id) + live).push(o) =~= outputs_of(index, id)
                    + live.push(o));
            }
        }
    } else if id == txid {
        assert(outputs_of(index, id) + Seq::<IndexedOutputView>::empty() =~= outputs_of(
            index,
            id,
        ));
    }
}

/// The places of the outputs of the transaction `id` that the first `n`
/// inputs of `tx` name.
pub open spec fn named_places(tx: TransactionView, n: int, id: Seq<char>) -> Set<int> {
    Set::new(|v: int| spends_upto(tx, n, id, v))
}

/// Whether no two transactions of a block have one identity.
pub open spec fn ids_differ(block: Seq<TransactionView>) -> bool {
    forall|i: int, j: int|
        0 <= i < j < block.len() ==> (#[trigger] block[i]).id != (#[trigger] block[j]).id
}

/// Whether no transaction of a block has the identity of a transaction of
/// the walk.
pub open spec fn ids_new(block: Seq<TransactionView>, walk: Seq<TransactionView>) -> bool {
    forall|i: int, j: int|
        0 <= i < block.len() && 0 <= j < walk.len() ==> (#[trigger] block[i]).id != (
        #[trigger] walk[j]).id
}

/// Whether no transaction of a block spends an output of a transaction of
/// that block.
pub open spec fn spends_outside(block: Seq<TransactionView>) -> bool {
    forall|i: int, j: int, v: int|
        0 <= i < block.len() && 0 <= j < block.len() ==> !#[trigger] spent_by(
            block[i],
            block[j].id,
            v,
        )
}

/// Whether one of the first `n` transactions of a block has the identity.
pub open spec fn in_block(block: Seq<TransactionView>, n: int, id: Seq<char>) -> bool {
    exists|k: int| 0 <= k < n && k < block.len() && (#[trigger] block[k]).id == id
}

/// The place in a block of the transaction with the identity.
pub open spec fn block_place(block: Seq<TransactionView>, n: int, id: Seq<char>) -> int {
    choose|k: int| 0 <= k < n && k < block.len() && (#[trigger] block[k]).id == id
}

/// The outputs that a block gives to the index for one of its transactions:
/// all of them that an input can name.
pub open spec fn block_outputs(block: Seq<TransactionView>, n: int, id: Seq<char>) -> Seq<
    IndexedOutputView,
> {
    let tx = block[block_place(block, n, id)];
    live_outputs(tx.vout, Set::empty(), tx.vout.len() as int)
}

/// In a block of transactions with different identities, a transaction is
/// the only one with its identity.
pub proof fn lemma_block_place(block: Seq<TransactionView>, n: int, k: int)
    requires
        ids_differ(block),
        0 <= k < n,
        k < block.len(),
    ensures
        in_block(block, n, block[k].id),
        block_place(block, n, block[k].id) == k,
{
    let c = block_place(block, n, block[k].id);
    if c < k {
        assert(block[c].id != block[k].id);
    }
    if k < c {
        assert(block[k].id != block[c].id);
    }
}

/// What spending the first `n` inputs of a transaction does, in a tidy
/// index, to the list of each transaction: it loses the places named.
pub proof fn lemma_spend_inputs_of(
    index: Seq<UtxoEntryView>,
    tx: TransactionView,
    n: int,
    id: Seq<char>,
)
    requires
        tidy(index),
        0 <= n <= tx.vin.len(),
    ensures
        outputs_of(spend_inputs(index, tx.vin, n), id) == without_places(
            outputs_of(index, id),
            named_places(tx, n, id),
        ),
    decreases n,
{
    let base = outputs_of(index, id);
    if n == 0 {
        lemma_without_same(base, named_places(tx, 0, id), Set::empty());
        lemma_without_no_place(base);
    } else {
        lemma_spend_inputs_of(index, tx, n - 1, id);
        lemma_spend_inputs_tidy(index, tx.vin, n - 1);
        let before = spend_inputs(index, tx.vin, n - 1);
        let input = tx.vin[n - 1];
        lemma_without_output_of(before, input.txid, input.vout, id);
        let named = named_places(tx, n - 1, id);
        if id == input.txid {
            lemma_except_is_without(without_places(base, named), input.vout);
            lemma_without_twice(base, named, set![input.vout]);
            let grown = named + set![input.vout];
            assert forall|v: int| #[trigger] grown.contains(v) == named_places(tx, n, id).contains(
                v,
            ) by {
                lemma_spends_step(tx, n - 1, id, v);
            }
            lemma_without_same(base, named + set![input.vout], named_places(tx, n, id));
        } else {
            assert forall|v: int| #[trigger] named.contains(v) == named_places(tx, n, id).contains(
                v,
            ) by {
                lemma_spends_step(tx, n - 1, id, v);
            }
            lemma_without_same(base, named, named_places(tx, n, id));
        }
    }
}

/// What one transaction does, in a tidy index, to the list of each
/// transaction: the list loses the places that the transaction spends, and
/// the list of the transaction itself gains its outputs.
pub proof fn lemma_apply_of(index: Seq<UtxoEntryView>, tx: TransactionView, id: Seq<char>)
    requires
        tidy(index),
    ensures
        outputs_of(apply_transaction(index, tx), id) == if id == tx.id {
            without_places(outputs_of(index, id), killed_by(tx, id)) + live_outputs(
                tx.vout,
                Set::empty(),
                tx.vout.len() as int,
            )
        } else {
            without_places(outputs_of(index, id), killed_by(tx, id))
        },
{
    let base = outputs_of(index, id);
    let len = tx.vin.len() as int;
    if is_coinbase(tx) {
        lemma_without_same(base, killed_by(tx, id), Set::empty());
        lemma_without_no_place(base);
        lemma_add_outputs_of(index, tx.id, tx.vout, tx.vout.len() as int, id);
    } else {
        lemma_spend_inputs_of(index, tx, len, id);
        lemma_without_same(base, named_places(tx, len, id), killed_by(tx, id));
        lemma_add_outputs_of(
            spend_inputs(index, tx.vin, len),
            tx.id,
            tx.vout,
            tx.vout.len() as int,
            id,
        );
    }
}

/// What the first `n` transactions of a block do to the list of each
/// transaction, in a tidy index that holds nothing yet for the transactions
/// of the block: the list of a transaction of the block is its outputs, and
/// any other list loses the places that the block spends.
pub proof fn lemma_update_of(
    index: Seq<UtxoEntryView>,
    block: Seq<TransactionView>,
    n: int,
    id: Seq<char>,
)
    requires
        tidy(index),
        ids_differ(block),
        spends_outside(block),
        0 <= n <= block.len(),
        forall|k: int|
            0 <= k < block.len() ==> outputs_of(index, (#[trigger] block[k]).id) == Seq::<
                IndexedOutputView,
            >::empty(),
    ensures
        outputs_of(apply_transactions(index, block, n), id) == if in_block(block, n, id) {
            block_outputs(block, n, id)
        } else {
            without_places(outputs_of(index, id), spent_places(block, n, id))
        },
    decreases n,
{
    let base = outputs_of(index, id);
    if n == 0 {
        lemma_without_same(base, spent_places(block, 0, id), Set::empty());
        lemma_without_no_place(base);
    } else {
        lemma_update_of(index, block, n - 1, id);
        lemma_update_tidy(index, block, n - 1);
        let before = apply_transactions(index, block, n - 1);
        let tx = block[n - 1];
        lemma_apply_of(before, tx, id);
        let none = Seq::<IndexedOutputView>::empty();
        if id == tx.id {
            lemma_block_place(block, n, n - 1);
            assert(!in_block(block, n - 1, id)) by {
                if in_block(block, n - 1, id) {
                    let k = block_place(block, n - 1, id);
                    assert(block[k].id != block[n - 1].id);
                }
            }
            assert(base == none);
            assert(without_places(none, spent_places(block, n - 1, id)) == none);
            assert(without_places(none, killed_by(tx, id)) == none);
            assert(none + block_outputs(block, n, id) =~= block_outputs(block, n, id));
        } else if in_block(block, n - 1, id) {
            let k = block_place(block, n - 1, id);
            lemma_block_place(block, n - 1, k);
            lemma_block_place(block, n, k);
            let killed = killed_by(tx, id);
            assert forall|v: int| #[trigger] killed.contains(v) == Set::<int>::empty().contains(
                v,
            ) by {
                assert(!spent_by(block[n - 1], block[k].id, v));
            }
            lemma_without_same(block_outputs(block, n - 1, id), killed_by(tx, id), Set::empty());
            lemma_without_no_place(block_outputs(block, n - 1, id));
        } else {
            assert(!in_block(block, n, id)) by {
                if in_block(block, n, id) {
                    let k = block_place(block, n, id);
                    if k < n - 1 {
                        assert(0 <= k < n - 1 && block[k].id == id);
                    }
                }
            }
            lemma_without_twice(base, spent_places(block, n - 1, id), killed_by(tx, id));
            let both = spent_places(block, n - 1, id) + killed_by(tx, id);
            assert forall|v: int| #[trigger] both.contains(v) == spent_places(
                block,
                n,
                id,
            ).contains(v) by {
                lemma_spent_in_step(block, n - 1, id, v);
            }
            lemma_without_same(
                base,
                spent_places(block, n - 1, id) + killed_by(tx, id),
                spent_places(block, n, id),
            );
        }
    }
}

/// What the first transactions of a walk spend, where the walk begins with
/// a block.
pub proof fn lemma_spent_in_block(
    block: Seq<TransactionView>,
    walk: Seq<TransactionView>,
    k: int,
    id: Seq<char>,
    v: int,
)
    requires
        0 <= k <= block.len(),
    ensures
        spent_in(block + walk, k, id, v) == spent_in(block, k, id, v),
{
    let all = block + walk;
    if spent_in(all, k, id, v) {
        let j = choose|j: int| 0 <= j < k && j < all.len() && spent_by(#[trigger] all[j], id, v);
        assert(all[j] == block[j]);
        assert(spent_by(block[j], id, v));
    }
    if spent_in(block, k, id, v) {
        let j = choose|j: int|
            0 <= j < k && j < block.len() && spent_by(#[trigger] block[j], id, v);
        assert(all[j] == block[j]);
        assert(spent_by(all[j], id, v));
    }
}

/// What the transactions met before a place behind the block spend: what
/// the block spends, and what the walk spends before that place.
pub proof fn lemma_spent_in_concat(
    block: Seq<TransactionView>,
    walk: Seq<TransactionView>,
    k: int,
    id: Seq<char>,
    v: int,
)
    requires
        0 <= k <= walk.len(),
    ensures
        spent_in(block + walk, block.len() + k, id, v) == (spent_in(
            block,
            block.len() as int,
            id,
            v,
        ) || spent_in(walk, k, id, v)),
{
    let all = block + walk;
    let b = block.len() as int;
    if spent_in(all, b + k, id, v) {
        let j = choose|j: int|
            0 <= j < b + k && j < all.len() && spent_by(#[trigger] all[j], id, v);
        if j < b {
            assert(all[j] == block[j]);
            assert(spent_by(block[j], id, v));
        } else {
            assert(all[j] == walk[j - b]);
            assert(spent_by(walk[j - b], id, v));
        }
    }
    if spent_in(block, b, id, v) {
        let j = choose|j: int|
            0 <= j < b && j < block.len() && spent_by(#[trigger] block[j], id, v);
        assert(all[j] == block[j]);
        assert(spent_by(all[j], id, v));
    }
    if spent_in(walk, k, id, v) {
        let j = choose|j: int| 0 <= j < k && j < walk.len() && spent_by(#[trigger] walk[j], id, v);
        assert(all[b + j] == walk[j]);
        assert(spent_by(all[b + j], id, v));
    }
}

/// What a scan gathers from the block at the head of a walk: for a
/// transaction of the block, its outputs; for any other, nothing.
pub proof fn lemma_gathered_block(
    block: Seq<TransactionView>,
    walk: Seq<TransactionView>,
    n: int,
    id: Seq<char>,
)
    requires
        ids_differ(block),
        spends_outside(block),
        0 <= n <= block.len(),
    ensures
        gathered(block + walk, n, id, Set::empty()) == if in_block(block, n, id) {
            block_outputs(block, n, id)
        } else {
            Seq::<IndexedOutputView>::empty()
        },
    decreases n,
{
    let all = block + walk;
    if n > 0 {
        lemma_gathered_block(block, walk, n - 1, id);
        let tx = block[n - 1];
        assert(all[n - 1] == tx);
        if tx.id == id {
            lemma_block_place(block, n, n - 1);
            assert(!in_block(block, n - 1, id)) by {
                if in_block(block, n - 1, id) {
                    let k = block_place(block, n - 1, id);
                    assert(block[k].id != block[n - 1].id);
                }
            }
            let dead = spent_places(all, n - 1, id) + Set::<int>::empty();
            assert forall|v: int| #[trigger] dead.contains(v) == Set::<int>::empty().contains(
                v,
            ) by {
                lemma_spent_in_block(block, walk, n - 1, id, v);
                if spent_in(block, n - 1, id, v) {
                    let j = choose|j: int|
                        0 <= j < n - 1 && j < block.len() && spent_by(#[trigger] block[j], id, v);
                    assert(!spent_by(block[j], block[n - 1].id, v));
                }
            }
            lemma_live_same(
                tx.vout,
                spent_places(all, n - 1, id) + Set::<int>::empty(),
                Set::empty(),
                tx.vout.len() as int,
            );
            assert(Seq::<IndexedOutputView>::empty() + block_outputs(block, n, id)
                =~= block_outputs(block, n, id));
        } else if in_block(block, n - 1, id) {
            let k = block_place(block, n - 1, id);
            lemma_block_place(block, n - 1, k);
            lemma_block_place(block, n, k);
        } else {
            assert(!in_block(block, n, id)) by {
                if in_block(block, n, id) {
                    let k = block_place(block, n, id);
                    if k < n - 1 {
                        assert(0 <= k < n - 1 && block[k].id == id);
                    }
                }
            }
        }
    } else {
        assert(!in_block(block, 0, id));
    }
}

/// What a scan gathers behind the block at the head of a walk: what it
/// gathers from the walk alone, without the places that the block spends.
pub proof fn lemma_gathered_walk(
    block: Seq<TransactionView>,
    walk: Seq<TransactionView>,
    n: int,
    id: Seq<char>,
)
    requires
        0 <= n <= walk.len(),
    ensures
        gathered(block + walk, block.len() + n, id, Set::empty()) == gathered(
            block + walk,
            block.len() as int,
            id,
            Set::empty(),
        ) + gathered(walk, n, id, spent_places(block, block.len() as int, id)),
    decreases n,
{
    let all = block + walk;
    let b = block.len() as int;
    let head = gathered(all, b, id, Set::empty());
    let dead = spent_places(block, b, id);
    if n > 0 {
        lemma_gathered_walk(block, walk, n - 1, id);
        let tx = walk[n - 1];
        assert(all[b + n - 1] == tx);
        if tx.id == id {
            let here = spent_places(all, b + n - 1, id) + Set::<int>::empty();
            assert forall|v: int| #[trigger] here.contains(v) == (spent_places(walk, n - 1, id)
                + dead).contains(v) by {
                lemma_spent_in_concat(block, walk, n - 1, id, v);
            }
            lemma_live_same(
                tx.vout,
                spent_places(all, b + n - 1, id) + Set::<int>::empty(),
                spent_places(walk, n - 1, id) + dead,
                tx.vout.len() as int,
            );
            let live = live_outputs(
                tx.vout,
                spent_places(walk, n - 1, id) + dead,
                tx.vout.len() as int,
            );
            assert((head + gathered(walk, n - 1, id, dead)) + live =~= head + (gathered(
                walk,
                n - 1,
                id,
                dead,
            ) + live));
        }
    } else {
        assert(head + Seq::<IndexedOutputView>::empty() =~= head);
    }
}

/// The index follows the ledger. Where a block of transactions with new and
/// different identities, none of which spends an output of the block
/// itself, comes on top of a chain, the index of the chain brought up to
/// date with the block holds, for every transaction, the unspent outputs
/// that a full scan of the longer chain gives.
pub proof fn lemma_update_matches_rescan(
    walk: Seq<TransactionView>,
    block: Seq<TransactionView>,
    id: Seq<char>,
)
    requires
        ids_differ(block),
        ids_new(block, walk),
        spends_outside(block),
    ensures
        outputs_of(
            apply_transactions(unspent_outputs(walk), block, block.len() as int),
            id,
        ) == outputs_of(unspent_outputs(block + walk), id),
{
    let index = unspent_outputs(walk);
    let b = block.len() as int;
    let w = walk.len() as int;
    let none = Seq::<IndexedOutputView>::empty();
    lemma_scan_tidy(walk, w);
    assert forall|k: int| 0 <= k < block.len() implies outputs_of(index, (#[trigger] block[k]).id)
        == none by {
        lemma_scan_of(walk, w, block[k].id);
        assert forall|j: int| 0 <= j < walk.len() implies (#[trigger] walk[j]).id
            != block[k].id by {}
        lemma_gathered_absent(walk, w, block[k].id, Set::empty());
    }
    lemma_update_of(index, block, b, id);
    lemma_scan_of(block + walk, b + w, id);
    lemma_gathered_walk(block, walk, w, id);
    lemma_gathered_block(block, walk, b, id);
    let dead = spent_places(block, b, id);
    if in_block(block, b, id) {
        let k = block_place(block, b, id);
        assert forall|j: int| 0 <= j < walk.len() implies (#[trigger] walk[j]).id != id by {
            assert(block[k].id != walk[j].id);
        }
        lemma_gathered_absent(walk, w, id, dead);
        assert(block_outputs(block, b, id) + none =~= block_outputs(block, b, id));
    } else {
        lemma_scan_of(walk, w, id);
        lemma_without_gathered(walk, w, id, dead);
        assert(none + gathered(walk, w, id, dead) =~= gathered(walk, w, id, dead));
    }
}

/// The index follows mining. On a whole chain, a mined block whose hash is
/// new puts its transactions at the head of the chain's transactions; and
/// where those have new and different identities and spend nothing of the
/// block itself, an index of the old chain that is brought up to date with
/// the block holds, for every transaction, what a full scan of the new
/// chain gives.
pub proof fn lemma_index_follows_mining(
    bc: BlockchainView,
    txs: Seq<TransactionView>,
    difficulty: usize,
    timestamp: u128,
    id: Seq<char>,
)
    requires
        linked(bc),
        mine_outcome(bc, txs, difficulty, timestamp) is Ok,
        !is_stored(bc.blocks, mine_outcome(bc, txs, difficulty, timestamp).unwrap().1.hash),
        mine_outcome(bc, txs, difficulty, timestamp).unwrap().1.hash.len() > 0,
        ids_differ(txs),
        ids_new(txs, chain_transactions(bc)),
        spends_outside(txs),
    ensures
        ({
            let (ledger, block) = mine_outcome(bc, txs, difficulty, timestamp).unwrap();
            &&& block.transactions == txs
            &&& chain_transactions(ledger) == txs + chain_transactions(bc)
            &&& outputs_of(
                apply_transactions(
                    unspent_outputs(chain_transactions(bc)),
                    block.transactions,
                    block.transactions.len() as int,
                ),
                id,
            ) == outputs_of(unspent_outputs(chain_transactions(ledger)), id)
        }),
{
    let (ledger, block) = mine_outcome(bc, txs, difficulty, timestamp).unwrap();
    lemma_mining_keeps_linked(bc, txs, difficulty, timestamp);
    lemma_seal_is_sealed(txs, block.prev_block_hash, block.height, difficulty, timestamp);
    lemma_transactions_of_concat(seq![block], chain(bc));
    lemma_transactions_of_one(block);
    lemma_update_matches_rescan(chain_transactions(bc), txs, id);
}

/// A coinbase spends nothing.
pub proof fn lemma_coinbase_kills_nothing(
    list: Seq<IndexedOutputView>,
    tx: TransactionView,
    id: Seq<char>,
)
    requires
        is_coinbase(tx),
    ensures
        without_places(list, killed_by(tx, id)) == list,
{
    lemma_without_same(list, killed_by(tx, id), Set::empty());
    lemma_without_no_place(list);
}

/// An output in the list that the index holds for a transaction is found
/// for the hash it is locked to.
pub proof fn lemma_listed_is_found(index: Seq<UtxoEntryView>, id: Seq<char>, m: int)
    requires
        0 <= m < outputs_of(index, id).len(),
    ensures
        locked_outputs(
            index,
            outputs_of(index, id)[m].output.pub_key_hash,
            index.len() as int,
        ).contains(outputs_of(index, id)[m].output),
{
    lemma_entry(index, id);
    lemma_locked_complete(
        index,
        outputs_of(index, id)[m].output.pub_key_hash,
        index.len() as int,
        entry_place(index, id),
        m,
    );
}

/// Rewards are indexed. After a ledger is created for an address, at a
/// difficulty above zero, and a block with one coinbase transaction to a
/// second locking hash is mined on it, the index of the new ledger brought
/// up to date with that block still holds the genesis reward for the first
/// address, and holds the new reward for the second.
pub proof fn lemma_rewards_are_indexed(
    address: Seq<char>,
    lock: Seq<u8>,
    data: Seq<u8>,
    difficulty: usize,
    created: u128,
    mined: u128,
)
    requires
        difficulty > 0,
        genesis_outcome(address, difficulty, created) is Ok,
        coinbase_outcome(lock, data) is Ok,
        mine_outcome(
            genesis_outcome(address, difficulty, created).unwrap(),
            seq![coinbase_outcome(lock, data).unwrap()],
            difficulty,
            mined,
        ) is Ok,
    ensures
        ({
            let bc = genesis_outcome(address, difficulty, created).unwrap();
            let reward = coinbase_outcome(lock, data).unwrap();
            let block = mine_outcome(bc, seq![reward], difficulty, mined).unwrap().1;
            let index = apply_transactions(
                unspent_outputs(chain_transactions(bc)),
                block.transactions,
                block.transactions.len() as int,
            );
            let own = locking_hash_of(address).unwrap();
            &&& locked_outputs(index, own, index.len() as int).contains(
                TXOutputView { value: SUBSIDY as int, pub_key_hash: own },
            )
            &&& locked_outputs(index, lock, index.len() as int).contains(
                TXOutputView { value: SUBSIDY as int, pub_key_hash: lock },
            )
        }),
{
    let bc = genesis_outcome(address, difficulty, created).unwrap();
    let reward = coinbase_outcome(lock, data).unwrap();
    let block = mine_outcome(bc, seq![reward], difficulty, mined).unwrap().1;
    let own = locking_hash_of(address).unwrap();
    let first = coinbase_outcome(own, genesis_data()).unwrap();
    let genesis = bc.blocks[0];
    let none = Seq::<IndexedOutputView>::empty();
    lemma_seal_is_sealed(seq![first], Seq::empty(), 0, difficulty, created);
    lemma_genesis_linked(address, difficulty, created);
    assert(bc.tip.len() > 0);
    lemma_transactions_of_one(genesis);
    let walk = chain_transactions(bc);
    assert(walk == seq![first]);
    lemma_seal_is_sealed(seq![reward], block.prev_block_hash, block.height, difficulty, mined);
    assert(block.transactions == seq![reward]);
    let start = unspent_outputs(walk);
    let index = apply_transactions(start, block.transactions, 1);
    assert(apply_transactions(start, block.transactions, 0) == start);
    assert(block.transactions[0] == reward);
    assert(index == apply_transaction(start, reward));
    lemma_scan_tidy(walk, 1);
    let out_first = IndexedOutputView { index: 0, output: first.vout[0] };
    let out_reward = IndexedOutputView { index: 0, output: reward.vout[0] };
    assert(outputs_of(start, first.id) == none.push(out_first)) by {
        lemma_scan_of(walk, 1, first.id);
        let dead = spent_places(walk, 0, first.id) + Set::<int>::empty();
        assert(!dead.contains(0));
        assert(gathered(walk, 0, first.id, Set::empty()) == none);
        assert(live_outputs(first.vout, dead, 0) == none);
        assert(live_outputs(first.vout, dead, 1) == none.push(out_first));
        assert(none + none.push(out_first) =~= none.push(out_first));
    }
    assert(live_outputs(reward.vout, Set::empty(), 1) == none.push(out_reward)) by {
        assert(live_outputs(reward.vout, Set::empty(), 0) == none);
    }
    lemma_apply_of(start, reward, first.id);
    lemma_apply_of(start, reward, reward.id);
    lemma_coinbase_kills_nothing(outputs_of(start, first.id), reward, first.id);
    lemma_coinbase_kills_nothing(outputs_of(start, reward.id), reward, reward.id);
    assert(outputs_of(index, first.id)[0] == out_first);
    let held = outputs_of(index, reward.id);
    assert(held.len() > 0 && held[held.len() - 1] == out_reward);
    lemma_listed_is_found(index, first.id, 0);
    lemma_listed_is_found(index, reward.id, held.len() - 1);
}

} // verus!
