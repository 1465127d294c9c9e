use crate::address::{decode_address, locking_hash_of};
use crate::block::{
    blocks_view, is_sealed, seal_outcome, Block, BlockView, HASH_DIGITS, TARGET_HEXS,
};
use crate::clock::now_millis;
use crate::error::ChainError;
use crate::linkage::{
    all_sealed, lemma_adding_keeps_linked, lemma_genesis_linked, lemma_mining_keeps_linked, linked,
};
use crate::transaction::{
    coinbase_outcome, find_by_id, first_with_id, is_coinbase, is_first_with_id, payload_at,
    payloads_defined, referenced_lock, references_resolve, sign_outcome, transactions_view,
    verify_inputs_from, verify_outcome, with_signatures, Transaction, TransactionView,
    COINBASE_KEY_LEN,
};
use vstd::prelude::*;
use vstd::string::StringExecFns;
use vstd::utf8::encode_utf8;

verus! {

/// The memo of the coinbase transaction of a genesis block.
pub const GENESIS_COINBASE_DATA: &'static str =
    "The Times 03/Jan/2009 Chancellor on brink of second bailout for banks";

/// A ledger: the blocks that are stored, each found by its hash, and the hash
/// of the tip. An empty tip means that there is no tip yet.
#[derive(Debug)]
pub struct Blockchain {
    pub tip: String,
    pub blocks: Vec<Block>,
}

/// What a ledger is: the hash of its tip and the blocks it stores.
pub struct BlockchainView {
    pub tip: Seq<char>,
    pub blocks: Seq<BlockView>,
}

impl View for Blockchain {
    type V = BlockchainView;

    open spec fn view(&self) -> BlockchainView {
        BlockchainView { tip: self.tip@, blocks: blocks_view(self.blocks@) }
    }
}

/// A cursor over a ledger that walks from a block back to the genesis block.
/// It yields at most `remaining` blocks, so a walk over a store whose links
/// run in a circle ends too.
pub struct BlockchainIterator<'a> {
    pub current_hash: String,
    pub remaining: usize,
    pub bc: &'a Blockchain,
}

/// Whether `k` is the first place in the store that holds a block with the
/// hash `hash`.
pub open spec fn is_first_with_hash(blocks: Seq<BlockView>, hash: Seq<char>, k: int) -> bool {
    &&& 0 <= k < blocks.len()
    &&& blocks[k].hash == hash
    &&& forall|j: int| 0 <= j < k ==> (#[trigger] blocks[j]).hash != hash
}

/// Whether the store holds a block with the hash `hash`.
pub open spec fn is_stored(blocks: Seq<BlockView>, hash: Seq<char>) -> bool {
    exists|k: int| is_first_with_hash(blocks, hash, k)
}

/// The place of the block that the store gives for a hash.
pub open spec fn place_of(blocks: Seq<BlockView>, hash: Seq<char>) -> int {
    choose|k: int| is_first_with_hash(blocks, hash, k)
}

/// The block that the store gives for a hash.
pub open spec fn block_with_hash(blocks: Seq<BlockView>, hash: Seq<char>) -> Option<BlockView> {
    if is_stored(blocks, hash) {
        Some(blocks[place_of(blocks, hash)])
    } else {
        None
    }
}

/// The blocks met on the way from the block with the hash `hash` back along
/// the links to earlier blocks, at most `fuel` of them. The walk ends where
/// the store has no block for a hash.
pub open spec fn walk(blocks: Seq<BlockView>, hash: Seq<char>, fuel: nat) -> Seq<BlockView>
    decreases fuel,
{
    if fuel == 0 {
        Seq::empty()
    } else {
        match block_with_hash(blocks, hash) {
            Some(b) => seq![b] + walk(blocks, b.prev_block_hash, (fuel - 1) as nat),
            None => Seq::empty(),
        }
    }
}

/// The chain of a ledger: the walk from its tip, newest block first.
pub open spec fn chain(bc: BlockchainView) -> Seq<BlockView> {
    walk(bc.blocks, bc.tip, bc.blocks.len())
}

/// The transactions of a list of blocks, block by block, each block's in
/// their order.
pub open spec fn transactions_of(blocks: Seq<BlockView>) -> Seq<TransactionView>
    decreases blocks.len(),
{
    if blocks.len() == 0 {
        Seq::empty()
    } else {
        blocks[0].transactions + transactions_of(blocks.drop_first())
    }
}

/// The transactions of a ledger's chain, newest block first.
pub open spec fn chain_transactions(bc: BlockchainView) -> Seq<TransactionView> {
    transactions_of(chain(bc))
}

/// The height of the block at the tip: `-1` where there is no tip yet, none
/// where the store has no block for the tip.
pub open spec fn best_height(bc: BlockchainView) -> Option<int> {
    if bc.tip.len() == 0 {
        Some(-1)
    } else {
        match block_with_hash(bc.blocks, bc.tip) {
            Some(b) => Some(b.height as int),
            None => None,
        }
    }
}

/// The transactions of two lists of blocks, one after the other, are the
/// transactions of the first followed by those of the second.
pub proof fn lemma_transactions_of_concat(a: Seq<BlockView>, b: Seq<BlockView>)
    ensures
        transactions_of(a + b) == transactions_of(a) + transactions_of(b),
    decreases a.len(),
{
    if a.len() == 0 {
        assert(a + b =~= b);
        assert(transactions_of(a) + transactions_of(b) =~= transactions_of(b));
    } else {
        lemma_transactions_of_concat(a.drop_first(), b);
        assert((a + b).drop_first() =~= a.drop_first() + b);
        assert((a + b)[0] == a[0]);
        assert(transactions_of(a + b) =~= transactions_of(a) + transactions_of(b));
    }
}

/// The transactions of a single block.
pub proof fn lemma_transactions_of_one(b: BlockView)
    ensures
        transactions_of(seq![b]) == b.transactions,
{
    assert(seq![b].drop_first() =~= Seq::<BlockView>::empty());
    assert(transactions_of(Seq::<BlockView>::empty()) =~= Seq::<TransactionView>::empty());
    assert(transactions_of(seq![b]) =~= seq![b][0].transactions + transactions_of(
        seq![b].drop_first(),
    ));
    assert(transactions_of(seq![b]) =~= b.transactions);
}


/// Whether the chain holds, for every input of `tx`, a transaction with the
/// identity that the input names.
pub open spec fn inputs_found(tx: TransactionView, all: Seq<TransactionView>) -> bool {
    forall|i: int| 0 <= i < tx.vin.len() ==> first_with_id(all, (#[trigger] tx.vin[i]).txid) is Some
}

/// The transactions that the inputs of `tx` name, one for each input.
pub open spec fn found_transactions(tx: TransactionView, all: Seq<TransactionView>) -> Seq<
    TransactionView,
> {
    Seq::new(tx.vin.len(), |i: int| first_with_id(all, tx.vin[i].txid).unwrap())
}

/// What verifying a transaction against a chain gives: a coinbase is valid;
/// a transaction that spends from one that the chain does not hold is not
/// found; any other is verified against the chain's transactions.
pub open spec fn ledger_verify_outcome(tx: TransactionView, all: Seq<TransactionView>) -> Result<
    bool,
    ChainError,
> {
    if is_coinbase(tx) {
        Ok(true)
    } else if !inputs_found(tx, all) {
        Err(ChainError::NotFound)
    } else {
        verify_outcome(tx, all)
    }
}

/// What signing a transaction against a chain gives.
pub open spec fn ledger_sign_outcome(
    tx: TransactionView,
    key: Seq<u8>,
    all: Seq<TransactionView>,
) -> Result<TransactionView, ChainError> {
    if !inputs_found(tx, all) {
        Err(ChainError::NotFound)
    } else {
        sign_outcome(tx, key, all)
    }
}

/// What verifying a batch from place `i` on gives: the first transaction
/// that is not valid, or cannot be verified, decides.
pub open spec fn batch_verdict(txs: Seq<TransactionView>, all: Seq<TransactionView>, i: int) -> Result<
    (),
    ChainError,
>
    decreases txs.len() - i,
{
    if i < 0 || i >= txs.len() {
        Ok(())
    } else {
        match ledger_verify_outcome(txs[i], all) {
            Ok(valid) => if valid {
                batch_verdict(txs, all, i + 1)
            } else {
                Err(ChainError::InvalidTransaction)
            },
            Err(e) => Err(e),
        }
    }
}

/// The store after a block is written under its hash: it takes the place of
/// the block that had that hash, or comes last.
pub open spec fn put(blocks: Seq<BlockView>, b: BlockView) -> Seq<BlockView> {
    if is_stored(blocks, b.hash) {
        blocks.update(place_of(blocks, b.hash), b)
    } else {
        blocks.push(b)
    }
}

/// What mining a batch on a ledger gives: the ledger with the new block
/// stored and at the tip, and that block; or why nothing was committed.
pub open spec fn mine_outcome(
    bc: BlockchainView,
    txs: Seq<TransactionView>,
    difficulty: usize,
    timestamp: u128,
) -> Result<(BlockchainView, BlockView), ChainError> {
    match batch_verdict(txs, chain_transactions(bc), 0) {
        Err(e) => Err(e),
        Ok(_) => if bc.tip.len() == 0 {
            Err(ChainError::NotFound)
        } else {
            match best_height(bc) {
                None => Err(ChainError::NotFound),
                Some(h) => if h >= i32::MAX {
                    Err(ChainError::HeightOverflow)
                } else {
                    match seal_outcome(txs, bc.tip, (h + 1) as i32, difficulty, timestamp) {
                        Err(e) => Err(e),
                        Ok(b) => Ok(
                            (BlockchainView { tip: b.hash, blocks: put(bc.blocks, b) }, b),
                        ),
                    }
                },
            }
        },
    }
}

/// What taking in a block gives: nothing changes where its hash is stored
/// already; else it is stored, and it becomes the tip only if it is higher
/// than the block at the tip.
pub open spec fn add_outcome(bc: BlockchainView, b: BlockView) -> Result<
    BlockchainView,
    ChainError,
> {
    if is_stored(bc.blocks, b.hash) {
        Ok(bc)
    } else {
        let stored = bc.blocks.push(b);
        match best_height(BlockchainView { tip: bc.tip, blocks: stored }) {
            None => Err(ChainError::NotFound),
            Some(h) => if b.height > h {
                Ok(BlockchainView { tip: b.hash, blocks: stored })
            } else {
                Ok(BlockchainView { tip: bc.tip, blocks: stored })
            },
        }
    }
}

/// The bytes that the sentinel input of a genesis coinbase carries.
pub open spec fn genesis_data() -> Seq<u8> {
    encode_utf8(GENESIS_COINBASE_DATA@) + Seq::new(COINBASE_KEY_LEN as nat, |i: int| 0u8)
}

/// What creating a ledger for an address gives: a store with the genesis
/// block alone, at the tip.
pub open spec fn genesis_outcome(address: Seq<char>, difficulty: usize, timestamp: u128) -> Result<
    BlockchainView,
    ChainError,
> {
    match locking_hash_of(address) {
        None => Err(ChainError::InvalidAddress),
        Some(lock) => match coinbase_outcome(lock, genesis_data()) {
            Err(e) => Err(e),
            Ok(coinbase) => match seal_outcome(
                seq![coinbase],
                Seq::empty(),
                0,
                difficulty,
                timestamp,
            ) {
                Err(e) => Err(e),
                Ok(b) => Ok(BlockchainView { tip: b.hash, blocks: seq![b] }),
            },
        },
    }
}

/// What the first transaction with an identity is: it has that identity, and
/// where there is none, no transaction of the list has it.
pub proof fn lemma_first_with_id(txs: Seq<TransactionView>, id: Seq<char>)
    ensures
        match first_with_id(txs, id) {
            Some(t) => t.id == id && exists|k: int| is_first_with_id(txs, id, k) && txs[k] == t,
            None => forall|j: int| 0 <= j < txs.len() ==> (#[trigger] txs[j]).id != id,
        },
{
    if first_with_id(txs, id) is None {
        assert forall|j: int| 0 <= j < txs.len() implies (#[trigger] txs[j]).id != id by {
            if txs[j].id == id {
                lemma_some_first(txs, id, j);
            }
        }
    }
}

/// Each input refers to the same output among the transactions found for
/// the inputs as on the whole chain.
pub proof fn lemma_found_locks(tx: TransactionView, all: Seq<TransactionView>)
    requires
        inputs_found(tx, all),
    ensures
        forall|i: int|
            0 <= i < tx.vin.len() ==> referenced_lock(
                found_transactions(tx, all),
                #[trigger] tx.vin[i],
            ) == referenced_lock(all, tx.vin[i]),
{
    let prev = found_transactions(tx, all);
    assert forall|i: int| 0 <= i < tx.vin.len() implies referenced_lock(
        prev,
        #[trigger] tx.vin[i],
    ) == referenced_lock(all, tx.vin[i]) by {
        let t = tx.vin[i].txid;
        lemma_first_with_id(all, t);
        let a = first_with_id(all, t).unwrap();
        assert(prev[i] == a);
        lemma_some_first(prev, t, i);
        let k = choose|k: int| is_first_with_id(prev, t, k);
        assert(prev[k] == first_with_id(all, tx.vin[k].txid).unwrap());
        lemma_first_with_id(all, tx.vin[k].txid);
        assert(tx.vin[k].txid == t);
        assert(first_with_id(prev, t) == Some(a));
    }
}

/// Verifying the inputs gives the same against two lists of transactions in
/// which every input refers to the same output.
pub proof fn lemma_verify_inputs_agree(
    tx: TransactionView,
    p: Seq<TransactionView>,
    q: Seq<TransactionView>,
    index: int,
)
    requires
        forall|i: int|
            0 <= i < tx.vin.len() ==> referenced_lock(p, #[trigger] tx.vin[i]) == referenced_lock(
                q,
                tx.vin[i],
            ),
    ensures
        verify_inputs_from(tx, p, index) == verify_inputs_from(tx, q, index),
    decreases tx.vin.len() - index,
{
    if 0 <= index < tx.vin.len() {
        assert(referenced_lock(p, tx.vin[index]) == referenced_lock(q, tx.vin[index]));
        lemma_verify_inputs_agree(tx, p, q, index + 1);
    }
}

/// Verifying and signing give the same against two lists of transactions in
/// which every input refers to the same output.
pub proof fn lemma_outcomes_agree(
    tx: TransactionView,
    key: Seq<u8>,
    p: Seq<TransactionView>,
    q: Seq<TransactionView>,
)
    requires
        forall|i: int|
            0 <= i < tx.vin.len() ==> referenced_lock(p, #[trigger] tx.vin[i]) == referenced_lock(
                q,
                tx.vin[i],
            ),
    ensures
        verify_outcome(tx, p) == verify_outcome(tx, q),
        sign_outcome(tx, key, p) == sign_outcome(tx, key, q),
{
    lemma_verify_inputs_agree(tx, p, q, 0);
    assert(references_resolve(tx, p) == references_resolve(tx, q)) by {
        if references_resolve(tx, p) {
            assert forall|i: int| 0 <= i < tx.vin.len() implies referenced_lock(
                q,
                #[trigger] tx.vin[i],
            ) is Some by {
                assert(referenced_lock(p, tx.vin[i]) is Some);
            }
        }
        if references_resolve(tx, q) {
            assert forall|i: int| 0 <= i < tx.vin.len() implies referenced_lock(
                p,
                #[trigger] tx.vin[i],
            ) is Some by {
                assert(referenced_lock(q, tx.vin[i]) is Some);
            }
        }
    }
    assert forall|i: int| 0 <= i < tx.vin.len() implies #[trigger] payload_at(tx, p, i)
        == payload_at(tx, q, i) by {
        assert(referenced_lock(p, tx.vin[i]) == referenced_lock(q, tx.vin[i]));
    }
    assert(payloads_defined(tx, p) == payloads_defined(tx, q)) by {
        if payloads_defined(tx, p) {
            assert forall|i: int| 0 <= i < tx.vin.len() implies (#[trigger] payload_at(
                tx,
                q,
                i,
            )) is Some by {
                assert(payload_at(tx, p, i) is Some);
            }
        }
        if payloads_defined(tx, q) {
            assert forall|i: int| 0 <= i < tx.vin.len() implies (#[trigger] payload_at(
                tx,
                p,
                i,
            )) is Some by {
                assert(payload_at(tx, q, i) is Some);
            }
        }
    }
    assert(with_signatures(tx, key, p).vin =~= with_signatures(tx, key, q).vin);
}

/// The first place in the store that holds a block with the hash `hash`.
pub fn find_block(blocks: &Vec<Block>, hash: &String) -> (r: Option<usize>)
    ensures
        match r {
            Some(k) => {
                &&& is_first_with_hash(blocks_view(blocks@), hash@, k as int)
                &&& place_of(blocks_view(blocks@), hash@) == k
                &&& block_with_hash(blocks_view(blocks@), hash@) == Some(blocks@[k as int]@)
            },
            None => !is_stored(blocks_view(blocks@), hash@),
        },
{
    let ghost view = blocks_view(blocks@);
    let mut i: usize = 0;
    while i < blocks.len()
        invariant
            i <= blocks@.len(),
            view == blocks_view(blocks@),
            forall|j: int| 0 <= j < i ==> (#[trigger] view[j]).hash != hash@,
        decreases blocks@.len() - i,
    {
        assert(view[i as int] == blocks@[i as int]@);
        if blocks[i].hash == *hash {
            proof {
                assert(is_first_with_hash(view, hash@, i as int));
                let k = place_of(view, hash@);
                assert(k == i) by {
                    if k < i {
                        assert(view[k].hash != hash@);
                    }
                    if i < k {
                        assert(view[i as int].hash != hash@);
                    }
                }
            }
            return Some(i);
        }
        i += 1;
    }
    proof {
        assert forall|k: int| !is_first_with_hash(view, hash@, k) by {
            if 0 <= k < view.len() {
                assert(view[k].hash != hash@);
            }
        }
    }
    None
}

impl<'a> BlockchainIterator<'a> {
    /// The blocks that the cursor has yet to yield, in the order in which it
    /// yields them.
    pub open spec fn pending(&self) -> Seq<BlockView> {
        walk(self.bc@.blocks, self.current_hash@, self.remaining as nat)
    }

    /// The next block on the way back, and the cursor moved to the block
    /// before it; nothing once the walk has ended.
    pub fn next(&mut self) -> (r: Option<Block>)
        ensures
            final(self).bc == old(self).bc,
            match r {
                Some(b) => {
                    &&& old(self).pending().len() > 0
                    &&& b@ == old(self).pending()[0]
                    &&& final(self).pending() == old(self).pending().drop_first()
                    &&& final(self).remaining + 1 == old(self).remaining
                },
                None => old(self).pending().len() == 0 && *final(self) == *old(self),
            },
    {
        if self.remaining == 0 {
            return None;
        }
        match find_block(&self.bc.blocks, &self.current_hash) {
            Some(k) => {
                let block = self.bc.blocks[k].clone();
                proof {
                    let rest = walk(
                        self.bc@.blocks,
                        block@.prev_block_hash,
                        (self.remaining - 1) as nat,
                    );
                    assert(old(self).pending() == seq![block@] + rest);
                    assert(old(self).pending().drop_first() =~= rest);
                }
                self.current_hash = block.prev_block_hash.clone();
                self.remaining = self.remaining - 1;
                Some(block)
            },
            None => None,
        }
    }
}

impl Blockchain {
    /// A ledger with no block and no tip.
    pub fn empty() -> (r: Blockchain)
        ensures
            r@.tip.len() == 0,
            r@.blocks.len() == 0,
    {
        let r = Blockchain { tip: String::new(), blocks: Vec::new() };
        assert(r@.blocks =~= Seq::<BlockView>::empty());
        r
    }

    /// The ledger over a store that was filled before and the hash of its
    /// tip. A store without a tip pointer has to be created first.
    pub fn new(blocks: Vec<Block>, tip: String) -> (r: Result<Blockchain, ChainError>)
        ensures
            match r {
                Ok(bc) => tip@.len() > 0 && bc@.tip == tip@ && bc@.blocks == blocks_view(blocks@),
                Err(e) => e == ChainError::NotFound && tip@.len() == 0,
            },
    {
        if tip.as_str().is_empty() {
            return Err(ChainError::NotFound);
        }
        Ok(Blockchain { tip, blocks })
    }

    /// A cursor at the tip.
    pub fn iter(&self) -> (r: BlockchainIterator<'_>)
        ensures
            r.bc == self,
            r.pending() == chain(self@),
    {
        BlockchainIterator {
            current_hash: self.tip.clone(),
            remaining: self.blocks.len(),
            bc: self,
        }
    }

    /// The block that the store gives for a hash.
    pub fn get_block(&self, block_hash: &str) -> (r: Result<Block, ChainError>)
        ensures
            match r {
                Ok(b) => block_with_hash(self@.blocks, block_hash@) == Some(b@),
                Err(e) => e == ChainError::NotFound && block_with_hash(self@.blocks, block_hash@)
                    is None,
            },
    {
        let hash = block_hash.to_owned();
        match find_block(&self.blocks, &hash) {
            Some(k) => Ok(self.blocks[k].clone()),
            None => Err(ChainError::NotFound),
        }
    }

    /// The height of the block at the tip; `-1` where there is no tip yet.
    pub fn get_best_height(&self) -> (r: Result<i32, ChainError>)
        ensures
            match r {
                Ok(h) => best_height(self@) == Some(h as int),
                Err(e) => e == ChainError::NotFound && best_height(self@) is None,
            },
    {
        if self.tip.as_str().is_empty() {
            return Ok(-1);
        }
        match find_block(&self.blocks, &self.tip) {
            Some(k) => Ok(self.blocks[k].height),
            None => Err(ChainError::NotFound),
        }
    }

    /// The hashes of the blocks of the chain, newest first.
    pub fn get_block_hashs(&self) -> (r: Vec<String>)
        ensures
            r@.len() == chain(self@).len(),
            forall|i: int| 0 <= i < r@.len() ==> (#[trigger] r@[i])@ == chain(self@)[i].hash,
    {
        let mut list: Vec<String> = Vec::new();
        let mut it = self.iter();
        let ghost all = chain(self@);
        loop
            invariant
                it.bc == self,
                all == chain(self@),
                list@.len() + it.pending().len() == all.len(),
                it.pending() == all.subrange(list@.len() as int, all.len() as int),
                forall|i: int| 0 <= i < list@.len() ==> (#[trigger] list@[i])@ == all[i].hash,
            decreases it.remaining,
        {
            match it.next() {
                Some(b) => {
                    assert(b@ == all[list@.len() as int]);
                    assert(all.subrange(list@.len() as int, all.len() as int).drop_first()
                        =~= all.subrange(list@.len() as int + 1, all.len() as int));
                    list.push(b.get_hash());
                },
                None => {
                    return list;
                },
            }
        }
    }

    /// The first transaction with the identity `id` met on the walk from the
    /// tip, newest block first, each block's transactions in their order.
    pub fn find_transacton(&self, id: &str) -> (r: Result<Transaction, ChainError>)
        ensures
            match r {
                Ok(tx) => first_with_id(chain_transactions(self@), id@) == Some(tx@),
                Err(e) => e == ChainError::NotFound && first_with_id(
                    chain_transactions(self@),
                    id@,
                ) is None,
            },
    {
        let wanted = id.to_owned();
        let mut it = self.iter();
        let ghost all = chain(self@);
        let ghost seen: Seq<BlockView> = Seq::empty();
        proof {
            assert(seen + it.pending() =~= all);
        }
        loop
            invariant
                it.bc == self,
                wanted@ == id@,
                all == chain(self@),
                seen + it.pending() == all,
                forall|j: int|
                    0 <= j < transactions_of(seen).len() ==> (#[trigger] transactions_of(
                        seen,
                    )[j]).id != id@,
            decreases it.remaining,
        {
            let ghost before = it.pending();
            match it.next() {
                Some(b) => {
                    proof {
                        let rest = it.pending();
                        assert(before =~= seq![b@] + rest);
                        assert(all =~= seen + (seq![b@] + rest));
                        lemma_transactions_of_concat(seen, seq![b@] + rest);
                        lemma_transactions_of_concat(seq![b@], rest);
                        lemma_transactions_of_one(b@);
                        lemma_transactions_of_concat(seen, seq![b@]);
                        assert(seen.push(b@) =~= seen + seq![b@]);
                        assert(seen.push(b@) + rest =~= all);
                    }
                    match find_by_id(&b.transactions, &wanted) {
                        Some(k) => {
                            proof {
                                let txs = chain_transactions(self@);
                                let at = transactions_of(seen).len() + k;
                                assert(txs =~= transactions_of(seen) + (b@.transactions
                                    + transactions_of(it.pending())));
                                assert(is_first_with_id(txs, id@, at)) by {
                                    assert forall|j: int| 0 <= j < at implies (#[trigger] txs[j]).id
                                        != id@ by {
                                        if j < transactions_of(seen).len() {
                                            assert(txs[j] == transactions_of(seen)[j]);
                                        } else {
                                            assert(txs[j] == b@.transactions[j - transactions_of(
                                                seen,
                                            ).len()]);
                                        }
                                    }
                                }
                                let c = choose|c: int| is_first_with_id(txs, id@, c);
                                assert(c == at) by {
                                    if c < at {
                                        assert(txs[c].id != id@);
                                    }
                                    if at < c {
                                        assert(txs[at].id != id@);
                                    }
                                }
                                assert(txs[at] == b.transactions@[k as int]@);
                            }
                            return Ok(b.transactions[k].clone());
                        },
                        None => {
                            proof {
                                let grown = transactions_of(seen.push(b@));
                                assert(grown =~= transactions_of(seen) + b@.transactions);
                                assert forall|j: int| 0 <= j < grown.len() implies (
                                #[trigger] grown[j]).id != id@ by {
                                    if j < transactions_of(seen).len() {
                                        assert(grown[j] == transactions_of(seen)[j]);
                                    } else {
                                        let m = j - transactions_of(seen).len();
                                        assert(grown[j] == b@.transactions[m]);
                                        if b@.transactions[m].id == id@ {
                                            lemma_some_first(b@.transactions, id@, m);
                                        }
                                    }
                                }
                                seen = seen.push(b@);
                            }
                        },
                    }
                },
                None => {
                    proof {
                        assert(seen =~= all);
                        let txs = chain_transactions(self@);
                        assert forall|k: int| !is_first_with_id(txs, id@, k) by {
                            if 0 <= k < txs.len() {
                                assert(txs[k].id != id@);
                            }
                        }
                    }
                    return Err(ChainError::NotFound);
                },
            }
        }
    }
}

/// Where some transaction of a list has an identity, one of them is the
/// first to have it.
pub proof fn lemma_some_first(txs: Seq<TransactionView>, id: Seq<char>, m: int)
    requires
        0 <= m < txs.len(),
        txs[m].id == id,
    ensures
        exists|k: int| is_first_with_id(txs, id, k),
    decreases m,
{
    if exists|j: int| 0 <= j < m && (#[trigger] txs[j]).id == id {
        let j = choose|j: int| 0 <= j < m && (#[trigger] txs[j]).id == id;
        lemma_some_first(txs, id, j);
    } else {
        assert(is_first_with_id(txs, id, m));
    }
}

impl Blockchain {
    /// The transactions that the inputs of `tx` name, one for each input, as
    /// the chain holds them.
    pub fn get_prev_TXs(&self, tx: &Transaction) -> (r: Result<Vec<Transaction>, ChainError>)
        ensures
            match r {
                Ok(prev) => inputs_found(tx@, chain_transactions(self@)) && transactions_view(
                    prev@,
                ) == found_transactions(tx@, chain_transactions(self@)),
                Err(e) => e == ChainError::NotFound && !inputs_found(
                    tx@,
                    chain_transactions(self@),
                ),
            },
    {
        let ghost all = chain_transactions(self@);
        let mut prev: Vec<Transaction> = Vec::new();
        let mut i: usize = 0;
        while i < tx.vin.len()
            invariant
                i <= tx.vin@.len(),
                all == chain_transactions(self@),
                prev@.len() == i,
                forall|j: int|
                    0 <= j < i ==> first_with_id(all, tx@.vin[j].txid) == Some(
                        (#[trigger] prev@[j])@,
                    ),
            decreases tx.vin@.len() - i,
        {
            assert(tx@.vin[i as int] == tx.vin@[i as int]@);
            match self.find_transacton(tx.vin[i].txid.as_str()) {
                Ok(found) => {
                    prev.push(found);
                },
                Err(e) => {
                    assert(first_with_id(all, tx@.vin[i as int].txid) is None);
                    return Err(e);
                },
            }
            i += 1;
        }
        proof {
            assert forall|j: int| 0 <= j < tx@.vin.len() implies first_with_id(
                all,
                (#[trigger] tx@.vin[j]).txid,
            ) is Some by {
                assert(first_with_id(all, tx@.vin[j].txid) == Some(prev@[j]@));
            }
            assert(transactions_view(prev@) =~= found_transactions(tx@, all)) by {
                assert forall|j: int| 0 <= j < prev@.len() implies transactions_view(prev@)[j]
                    == found_transactions(tx@, all)[j] by {
                    assert(first_with_id(all, tx@.vin[j].txid) == Some(prev@[j]@));
                }
            }
        }
        Ok(prev)
    }

    /// Signs every input of `tx` under `private_key`, each for the output
    /// that it spends on this chain.
    pub fn sign_transacton(&self, tx: &mut Transaction, private_key: &[u8]) -> (r: Result<
        (),
        ChainError,
    >)
        ensures
            match ledger_sign_outcome(old(tx)@, private_key@, chain_transactions(self@)) {
                Ok(signed) => r is Ok && final(tx)@ == signed,
                Err(e) => r == Err::<(), ChainError>(e) && final(tx)@ == old(tx)@,
            },
    {
        let prev = match self.get_prev_TXs(tx) {
            Ok(prev) => prev,
            Err(e) => {
                return Err(e);
            },
        };
        proof {
            let all = chain_transactions(self@);
            lemma_found_locks(tx@, all);
            lemma_outcomes_agree(tx@, private_key@, transactions_view(prev@), all);
        }
        tx.sign(private_key, &prev)
    }

    /// Whether `tx` is authorised to spend what it spends on this chain. A
    /// coinbase is.
    pub fn verify_transacton(&self, tx: &Transaction) -> (r: Result<bool, ChainError>)
        ensures
            r == ledger_verify_outcome(tx@, chain_transactions(self@)),
    {
        if tx.is_coinbase() {
            return Ok(true);
        }
        let prev = match self.get_prev_TXs(tx) {
            Ok(prev) => prev,
            Err(e) => {
                return Err(e);
            },
        };
        proof {
            let all = chain_transactions(self@);
            lemma_found_locks(tx@, all);
            lemma_outcomes_agree(tx@, Seq::empty(), transactions_view(prev@), all);
        }
        tx.verify(&prev)
    }

    /// Whether every transaction of a batch is valid on this chain.
    pub fn verify_batch(&self, transactions: &Vec<Transaction>) -> (r: Result<(), ChainError>)
        ensures
            r == batch_verdict(transactions_view(transactions@), chain_transactions(self@), 0),
    {
        let ghost txs = transactions_view(transactions@);
        let ghost all = chain_transactions(self@);
        let mut i: usize = 0;
        while i < transactions.len()
            invariant
                i <= transactions@.len(),
                txs == transactions_view(transactions@),
                all == chain_transactions(self@),
                batch_verdict(txs, all, 0) == batch_verdict(txs, all, i as int),
            decreases transactions@.len() - i,
        {
            assert(txs[i as int] == transactions@[i as int]@);
            match self.verify_transacton(&transactions[i]) {
                Ok(valid) => {
                    if !valid {
                        return Err(ChainError::InvalidTransaction);
                    }
                },
                Err(e) => {
                    return Err(e);
                },
            }
            i += 1;
        }
        Ok(())
    }

    /// Writes a block under its hash: over the block that had that hash, or
    /// behind the others.
    pub fn put_block(&mut self, block: Block)
        ensures
            final(self)@.tip == old(self)@.tip,
            final(self)@.blocks == put(old(self)@.blocks, block@),
    {
        match find_block(&self.blocks, &block.hash) {
            Some(k) => {
                self.blocks[k] = block;
                assert(self@.blocks =~= old(self)@.blocks.update(k as int, block@));
            },
            None => {
                self.blocks.push(block);
                assert(self@.blocks =~= old(self)@.blocks.push(block@));
            },
        }
    }

    /// Mines a batch at a given moment and difficulty: verifies every
    /// transaction, seals a block on top of the tip, stores it and makes it
    /// the tip. Where anything fails, nothing is committed.
    pub fn mine_block_at(
        &mut self,
        transactions: Vec<Transaction>,
        difficulty: usize,
        timestamp: u128,
    ) -> (r: Result<Block, ChainError>)
        ensures
            match mine_outcome(
                old(self)@,
                transactions_view(transactions@),
                difficulty,
                timestamp,
            ) {
                Ok((ledger, block)) => {
                    &&& r matches Ok(b)
                    &&& b@ == block
                    &&& final(self)@ == ledger
                    &&& is_sealed(block, difficulty)
                    &&& block.hash.len() == HASH_DIGITS
                    &&& all_sealed(old(self)@.blocks, difficulty) ==> all_sealed(
                        ledger.blocks,
                        difficulty,
                    )
                    &&& linked(old(self)@) && !is_stored(old(self)@.blocks, block.hash) ==> linked(
                        ledger,
                    ) && chain(ledger) == seq![block] + chain(old(self)@)
                },
                Err(e) => r matches Err(f) && f == e && final(self)@ == old(self)@,
            },
    {
        proof {
            lemma_mining_keeps_linked(
                self@,
                transactions_view(transactions@),
                difficulty,
                timestamp,
            );
        }
        match self.verify_batch(&transactions) {
            Ok(()) => {},
            Err(e) => {
                return Err(e);
            },
        }
        if self.tip.as_str().is_empty() {
            return Err(ChainError::NotFound);
        }
        let best = match self.get_best_height() {
            Ok(h) => h,
            Err(e) => {
                return Err(e);
            },
        };
        if best == i32::MAX {
            return Err(ChainError::HeightOverflow);
        }
        let block = match Block::seal(
            transactions,
            self.tip.clone(),
            best + 1,
            difficulty,
            timestamp,
        ) {
            Ok(block) => block,
            Err(e) => {
                return Err(e);
            },
        };
        self.put_block(block.clone());
        self.tip = block.hash.clone();
        Ok(block)
    }

    /// Mines a batch now, at the difficulty of this ledger. The moment is
    /// read from the system clock; where the clock cannot be read nothing is
    /// committed and the failure is a storage failure.
    pub fn mine_block(&mut self, transactions: Vec<Transaction>) -> (r: Result<Block, ChainError>)
        ensures
            match r {
                Ok(b) => mine_outcome(
                    old(self)@,
                    transactions_view(transactions@),
                    TARGET_HEXS,
                    b.timestamp,
                ) == Ok::<(BlockchainView, BlockView), ChainError>((final(self)@, b@))
                    && is_sealed(b@, TARGET_HEXS) && b@.hash.len() == HASH_DIGITS && (all_sealed(
                    old(self)@.blocks,
                    TARGET_HEXS,
                ) ==> all_sealed(final(self)@.blocks, TARGET_HEXS)) && (linked(old(self)@)
                    && !is_stored(old(self)@.blocks, b@.hash) ==> linked(final(self)@)),
                Err(e) => final(self)@ == old(self)@ && (e == ChainError::Storage
                    || exists|timestamp: u128| #[trigger]
                        mine_outcome(
                            old(self)@,
                            transactions_view(transactions@),
                            TARGET_HEXS,
                            timestamp,
                        ) == Err::<(BlockchainView, BlockView), ChainError>(e)),
            },
    {
        let timestamp = match now_millis() {
            Ok(t) => t,
            Err(e) => {
                return Err(e);
            },
        };
        let ghost txs = transactions_view(transactions@);
        let r = self.mine_block_at(transactions, TARGET_HEXS, timestamp);
        proof {
            if let Err(e) = r {
                assert(mine_outcome(old(self)@, txs, TARGET_HEXS, timestamp) == Err::<
                    (BlockchainView, BlockView),
                    ChainError,
                >(e));
            }
        }
        r
    }

    /// Takes in a block that was sealed elsewhere. A block whose hash is
    /// stored already changes nothing; any other is stored, and becomes the
    /// tip only if it is higher than the block at the tip.
    pub fn add_block(&mut self, block: Block) -> (r: Result<(), ChainError>)
        ensures
            match add_outcome(old(self)@, block@) {
                Ok(ledger) => r is Ok && final(self)@ == ledger,
                Err(e) => r == Err::<(), ChainError>(e) && final(self)@ == old(self)@,
            },
            linked(old(self)@) && block@.hash.len() > 0 && final(self)@.tip == old(self)@.tip
                ==> linked(final(self)@) && chain(final(self)@) == chain(old(self)@),
    {
        proof {
            lemma_adding_keeps_linked(self@, block@, 0);
        }
        if find_block(&self.blocks, &block.hash).is_some() {
            return Ok(());
        }
        let hash = block.hash.clone();
        let height = block.height;
        self.blocks.push(block);
        assert(self@.blocks =~= old(self)@.blocks.push(block@));
        match self.get_best_height() {
            Ok(best) => {
                if height > best {
                    self.tip = hash;
                }
                Ok(())
            },
            Err(e) => {
                self.blocks.pop();
                assert(self@.blocks =~= old(self)@.blocks);
                Err(e)
            },
        }
    }

    /// Creates a ledger for an address at a given moment and difficulty: one
    /// coinbase transaction to the address, sealed into the genesis block.
    pub fn create_blockchain_at(address: String, difficulty: usize, timestamp: u128) -> (r: Result<
        Blockchain,
        ChainError,
    >)
        ensures
            match r {
                Ok(bc) => genesis_outcome(address@, difficulty, timestamp) == Ok::<
                    BlockchainView,
                    ChainError,
                >(bc@) && bc@.tip.len() == HASH_DIGITS && linked(bc@) && all_sealed(
                    bc@.blocks,
                    difficulty,
                ) && chain(bc@) == bc@.blocks,
                Err(e) => genesis_outcome(address@, difficulty, timestamp) == Err::<
                    BlockchainView,
                    ChainError,
                >(e),
            },
    {
        proof {
            reveal_strlit("The Times 03/Jan/2009 Chancellor on brink of second bailout for banks");
            lemma_genesis_linked(address@, difficulty, timestamp);
        }
        let memo = String::from_str(GENESIS_COINBASE_DATA);
        let coinbase = match Transaction::new_coinbase(address, memo) {
            Ok(coinbase) => coinbase,
            Err(e) => {
                return Err(e);
            },
        };
        let mut transactions: Vec<Transaction> = Vec::new();
        transactions.push(coinbase);
        assert(transactions_view(transactions@) =~= seq![coinbase@]);
        let genesis = match Block::seal(transactions, String::new(), 0, difficulty, timestamp) {
            Ok(genesis) => genesis,
            Err(e) => {
                return Err(e);
            },
        };
        let tip = genesis.hash.clone();
        let mut blocks: Vec<Block> = Vec::new();
        blocks.push(genesis);
        let bc = Blockchain { tip, blocks };
        assert(bc@.blocks =~= seq![genesis@]);
        Ok(bc)
    }

    /// Creates a ledger for an address now, at the difficulty of this ledger.
    pub fn create_blockchain(address: String) -> (r: Result<Blockchain, ChainError>)
        ensures
            locking_hash_of(address@) is None ==> r == Err::<Blockchain, ChainError>(
                ChainError::InvalidAddress,
            ),
            match r {
                Ok(bc) => linked(bc@) && all_sealed(bc@.blocks, TARGET_HEXS) && exists|
                    timestamp: u128,
                | #[trigger]
                    genesis_outcome(address@, TARGET_HEXS, timestamp) == Ok::<
                        BlockchainView,
                        ChainError,
                    >(bc@),
                Err(e) => e == ChainError::Storage || exists|timestamp: u128| #[trigger]
                    genesis_outcome(address@, TARGET_HEXS, timestamp) == Err::<
                        BlockchainView,
                        ChainError,
                    >(e),
            },
    {
        match decode_address(address.as_str()) {
            Ok(_) => {},
            Err(e) => {
                assert(genesis_outcome(address@, TARGET_HEXS, 0) == Err::<
                    BlockchainView,
                    ChainError,
                >(e));
                return Err(e);
            },
        }
        let timestamp = match now_millis() {
            Ok(t) => t,
            Err(e) => {
                return Err(e);
            },
        };
        let ghost text = address@;
        let r = Blockchain::create_blockchain_at(address, TARGET_HEXS, timestamp);
        proof {
            if r is Ok {
                assert(genesis_outcome(text, TARGET_HEXS, timestamp) == Ok::<
                    BlockchainView,
                    ChainError,
                >(r->Ok_0@));
            } else {
                assert(genesis_outcome(text, TARGET_HEXS, timestamp) == Err::<
                    BlockchainView,
                    ChainError,
                >(r->Err_0));
            }
        }
        r
    }
}

impl Blockchain {
    /// The transactions of the chain, newest block first, each block's in
    /// their order.
    pub fn transactions(&self) -> (r: Vec<Transaction>)
        ensures
            transactions_view(r@) == chain_transactions(self@),
    {
        let mut list: Vec<Transaction> = Vec::new();
        let mut it = self.iter();
        let ghost all = chain(self@);
        let ghost seen: Seq<BlockView> = Seq::empty();
        proof {
            assert(seen + it.pending() =~= all);
            assert(transactions_view(list@) =~= transactions_of(seen));
        }
        loop
            invariant
                it.bc == self,
                all == chain(self@),
                seen + it.pending() == all,
                transactions_view(list@) == transactions_of(seen),
            decreases it.remaining,
        {
            let ghost before = it.pending();
            match it.next() {
                Some(b) => {
                    proof {
                        let rest = it.pending();
                        assert(before =~= seq![b@] + rest);
                        lemma_transactions_of_one(b@);
                        lemma_transactions_of_concat(seen, seq![b@]);
                        assert(seen.push(b@) =~= seen + seq![b@]);
                        assert(seen.push(b@) + rest =~= all);
                    }
                    let ghost start = transactions_view(list@);
                    let mut i: usize = 0;
                    while i < b.transactions.len()
                        invariant
                            i <= b.transactions@.len(),
                            transactions_view(list@) == start + b@.transactions.subrange(
                                0,
                                i as int,
                            ),
                        decreases b.transactions@.len() - i,
                    {
                        let ghost held = transactions_view(list@);
                        list.push(b.transactions[i].clone());
                        assert(transactions_view(list@) =~= held.push(b.transactions@[i as int]@));
                        assert(b@.transactions.subrange(0, i + 1) =~= b@.transactions.subrange(
                            0,
                            i as int,
                        ).push(b@.transactions[i as int]));
                        assert(transactions_view(list@) =~= start + b@.transactions.subrange(
                            0,
                            i + 1,
                        ));
                        i += 1;
                    }
                    proof {
                        assert(b@.transactions.subrange(0, i as int) =~= b@.transactions);
                        seen = seen.push(b@);
                    }
                },
                None => {
                    proof {
                        assert(seen =~= all);
                    }
                    return list;
                },
            }
        }
    }
}

} // verus!
