use crate::block::{
    is_sealed, lemma_search_finds_least, seal_outcome, transactions_root, BlockView,
};
use crate::blockchain::{
    add_outcome, best_height, block_with_hash, chain, genesis_outcome, is_first_with_hash,
    is_stored, mine_outcome, place_of, walk, BlockchainView,
};
use crate::transaction::TransactionView;
use vstd::prelude::*;

verus! {

/// Whether the walk from `hash` ends at a genesis block: it reaches the empty
/// hash, for which the store has no block, before its fuel runs out.
pub open spec fn grounded(blocks: Seq<BlockView>, hash: Seq<char>, fuel: nat) -> bool
    decreases fuel,
{
    match block_with_hash(blocks, hash) {
        None => hash.len() == 0,
        Some(b) => fuel > 0 && grounded(blocks, b.prev_block_hash, (fuel - 1) as nat),
    }
}

/// Whether each block of a walk is one higher than the block after it.
pub open spec fn heights_follow(c: Seq<BlockView>) -> bool {
    forall|i: int| 0 <= i < c.len() - 1 ==> (#[trigger] c[i]).height == c[i + 1].height + 1
}

/// Whether the chain of a ledger is whole: it ends at a genesis block of
/// height zero, and each block is one higher than the block before it in
/// time.
pub open spec fn linked(bc: BlockchainView) -> bool {
    &&& grounded(bc.blocks, bc.tip, bc.blocks.len())
    &&& heights_follow(chain(bc))
    &&& chain(bc).len() > 0 ==> chain(bc).last().height == 0
}

/// Whether every stored block is sealed at a difficulty.
pub open spec fn all_sealed(blocks: Seq<BlockView>, difficulty: usize) -> bool {
    forall|k: int| 0 <= k < blocks.len() ==> is_sealed(#[trigger] blocks[k], difficulty)
}

/// Where some stored block has a hash, one of them is the first to have it.
pub proof fn lemma_some_first_block(blocks: Seq<BlockView>, hash: Seq<char>, m: int)
    requires
        0 <= m < blocks.len(),
        blocks[m].hash == hash,
    ensures
        is_stored(blocks, hash),
    decreases m,
{
    if exists|j: int| 0 <= j < m && (#[trigger] blocks[j]).hash == hash {
        let j = choose|j: int| 0 <= j < m && (#[trigger] blocks[j]).hash == hash;
        lemma_some_first_block(blocks, hash, j);
    } else {
        assert(is_first_with_hash(blocks, hash, m));
    }
}

/// The first place with a hash is the only first place with it.
pub proof fn lemma_first_place(blocks: Seq<BlockView>, hash: Seq<char>, k: int)
    requires
        is_first_with_hash(blocks, hash, k),
    ensures
        is_stored(blocks, hash),
        place_of(blocks, hash) == k,
        block_with_hash(blocks, hash) == Some(blocks[k]),
{
    let c = place_of(blocks, hash);
    if c < k {
        assert(blocks[c].hash != hash);
    }
    if k < c {
        assert(blocks[k].hash != hash);
    }
}

/// The block that the store gives for a hash has that hash and is stored.
pub proof fn lemma_block_with_hash(blocks: Seq<BlockView>, hash: Seq<char>)
    ensures
        match block_with_hash(blocks, hash) {
            Some(b) => b.hash == hash && 0 <= place_of(blocks, hash) < blocks.len() && blocks[place_of(
                blocks,
                hash,
            )] == b,
            None => forall|j: int| 0 <= j < blocks.len() ==> (#[trigger] blocks[j]).hash != hash,
        },
{
    if !is_stored(blocks, hash) {
        assert forall|j: int| 0 <= j < blocks.len() implies (#[trigger] blocks[j]).hash != hash by {
            if blocks[j].hash == hash {
                lemma_some_first_block(blocks, hash, j);
            }
        }
    }
}

/// What the store gives for a hash after a block with a new hash came last.
pub proof fn lemma_lookup_after_push(blocks: Seq<BlockView>, b: BlockView, hash: Seq<char>)
    requires
        !is_stored(blocks, b.hash),
    ensures
        block_with_hash(blocks.push(b), hash) == if hash == b.hash {
            Some(b)
        } else {
            block_with_hash(blocks, hash)
        },
{
    let grown = blocks.push(b);
    lemma_block_with_hash(blocks, hash);
    lemma_block_with_hash(blocks, b.hash);
    if hash == b.hash {
        assert(is_first_with_hash(grown, hash, blocks.len() as int)) by {
            assert forall|j: int| 0 <= j < blocks.len() implies (#[trigger] grown[j]).hash
                != hash by {
                assert(grown[j] == blocks[j]);
            }
        }
        lemma_first_place(grown, hash, blocks.len() as int);
    } else if is_stored(blocks, hash) {
        let k = place_of(blocks, hash);
        assert(is_first_with_hash(grown, hash, k)) by {
            assert(grown[k] == blocks[k]);
            assert forall|j: int| 0 <= j < k implies (#[trigger] grown[j]).hash != hash by {
                assert(grown[j] == blocks[j]);
            }
        }
        lemma_first_place(grown, hash, k);
    } else {
        assert forall|k: int| !is_first_with_hash(grown, hash, k) by {
            if 0 <= k < blocks.len() {
                assert(grown[k] == blocks[k]);
            }
        }
    }
}

/// A walk that ends at a genesis block is the same with more fuel.
pub proof fn lemma_grounded_fuel(blocks: Seq<BlockView>, hash: Seq<char>, fuel: nat, more: nat)
    requires
        grounded(blocks, hash, fuel),
        fuel <= more,
    ensures
        grounded(blocks, hash, more),
        walk(blocks, hash, more) == walk(blocks, hash, fuel),
    decreases fuel,
{
    match block_with_hash(blocks, hash) {
        None => {},
        Some(b) => {
            lemma_grounded_fuel(blocks, b.prev_block_hash, (fuel - 1) as nat, (more - 1) as nat);
        },
    }
}

/// A walk that ends at a genesis block is the same after a block with a new
/// hash, which is not empty, came last in the store.
pub proof fn lemma_walk_after_push(
    blocks: Seq<BlockView>,
    b: BlockView,
    hash: Seq<char>,
    fuel: nat,
)
    requires
        !is_stored(blocks, b.hash),
        b.hash.len() > 0,
        grounded(blocks, hash, fuel),
    ensures
        grounded(blocks.push(b), hash, fuel),
        walk(blocks.push(b), hash, fuel) == walk(blocks, hash, fuel),
    decreases fuel,
{
    lemma_lookup_after_push(blocks, b, hash);
    lemma_block_with_hash(blocks, hash);
    match block_with_hash(blocks, hash) {
        None => {},
        Some(x) => {
            lemma_walk_after_push(blocks, b, x.prev_block_hash, (fuel - 1) as nat);
        },
    }
}

/// The first block of a walk is the block that the store gives for the hash
/// at which the walk begins.
pub proof fn lemma_walk_first(blocks: Seq<BlockView>, hash: Seq<char>, fuel: nat)
    requires
        walk(blocks, hash, fuel).len() > 0,
    ensures
        fuel > 0,
        block_with_hash(blocks, hash) == Some(walk(blocks, hash, fuel)[0]),
        walk(blocks, hash, fuel)[0].hash == hash,
        walk(blocks, hash, fuel) == seq![walk(blocks, hash, fuel)[0]] + walk(
            blocks,
            walk(blocks, hash, fuel)[0].prev_block_hash,
            (fuel - 1) as nat,
        ),
{
    lemma_block_with_hash(blocks, hash);
}

/// On any walk, each block is followed by the block whose hash it carries as
/// the hash of the block before it.
pub proof fn lemma_walk_links(blocks: Seq<BlockView>, hash: Seq<char>, fuel: nat, i: int)
    requires
        0 <= i,
        i + 1 < walk(blocks, hash, fuel).len(),
    ensures
        walk(blocks, hash, fuel)[i + 1].hash == walk(blocks, hash, fuel)[i].prev_block_hash,
    decreases fuel,
{
    lemma_walk_first(blocks, hash, fuel);
    let b = walk(blocks, hash, fuel)[0];
    let rest = walk(blocks, b.prev_block_hash, (fuel - 1) as nat);
    assert(walk(blocks, hash, fuel)[i + 1] == rest[i]);
    if i == 0 {
        lemma_walk_first(blocks, b.prev_block_hash, (fuel - 1) as nat);
    } else {
        assert(walk(blocks, hash, fuel)[i] == rest[i - 1]);
        lemma_walk_links(blocks, b.prev_block_hash, (fuel - 1) as nat, i - 1);
    }
}

/// Chain linkage. On the chain of any ledger, the block that follows a block
/// on the walk from the tip has the hash that the block names as the hash of
/// the block before it. On a chain that is whole, the block is one higher
/// than the block that follows it, and the height of each block is the number
/// of blocks that follow it.
pub proof fn lemma_chain_linkage(bc: BlockchainView, i: int)
    requires
        0 <= i < chain(bc).len(),
    ensures
        i + 1 < chain(bc).len() ==> chain(bc)[i + 1].hash == chain(bc)[i].prev_block_hash,
        linked(bc) && i + 1 < chain(bc).len() ==> chain(bc)[i].height == chain(bc)[i + 1].height
            + 1,
        linked(bc) ==> chain(bc)[i].height == chain(bc).len() - 1 - i,
{
    if i + 1 < chain(bc).len() {
        lemma_walk_links(bc.blocks, bc.tip, bc.blocks.len(), i);
    }
    if linked(bc) {
        lemma_heights_count(chain(bc), i);
    }
}

/// Where heights follow down to zero, the height of each block is the number
/// of blocks behind it.
pub proof fn lemma_heights_count(c: Seq<BlockView>, i: int)
    requires
        heights_follow(c),
        0 <= i < c.len(),
        c.last().height == 0,
    ensures
        c[i].height == c.len() - 1 - i,
    decreases c.len() - i,
{
    if i + 1 < c.len() {
        lemma_heights_count(c, i + 1);
        assert(c[i].height == c[i + 1].height + 1);
    }
}

/// What sealing gives is sealed, with the fields that were handed in.
pub proof fn lemma_seal_is_sealed(
    transactions: Seq<TransactionView>,
    prev_block_hash: Seq<char>,
    height: i32,
    difficulty: usize,
    timestamp: u128,
)
    ensures
        match seal_outcome(transactions, prev_block_hash, height, difficulty, timestamp) {
            Ok(b) => {
                &&& is_sealed(b, difficulty)
                &&& b.transactions == transactions
                &&& b.prev_block_hash == prev_block_hash
                &&& b.height == height
                &&& b.timestamp == timestamp
            },
            Err(_) => true,
        },
{
    if let Ok(b) = seal_outcome(transactions, prev_block_hash, height, difficulty, timestamp) {
        let root = transactions_root(transactions).unwrap();
        lemma_search_finds_least(prev_block_hash, root, timestamp, difficulty, 0, b.nonce);
    }
}

/// A ledger that was just created is whole, its chain is the genesis block
/// alone, and that block is sealed.
pub proof fn lemma_genesis_linked(address: Seq<char>, difficulty: usize, timestamp: u128)
    ensures
        match genesis_outcome(address, difficulty, timestamp) {
            Ok(bc) => {
                &&& all_sealed(bc.blocks, difficulty)
                &&& bc.tip.len() > 0 ==> linked(bc) && chain(bc) == bc.blocks
            },
            Err(_) => true,
        },
{
    if let Ok(bc) = genesis_outcome(address, difficulty, timestamp) {
        let b = bc.blocks[0];
        lemma_seal_is_sealed(b.transactions, Seq::empty(), 0, difficulty, timestamp);
        if bc.tip.len() > 0 {
            assert(is_first_with_hash(bc.blocks, bc.tip, 0));
            lemma_first_place(bc.blocks, bc.tip, 0);
            lemma_block_with_hash(bc.blocks, Seq::<char>::empty());
            assert(block_with_hash(bc.blocks, Seq::<char>::empty()) is None);
            assert(walk(bc.blocks, Seq::<char>::empty(), 0) =~= Seq::<BlockView>::empty());
            assert(chain(bc) =~= bc.blocks);
            assert(grounded(bc.blocks, Seq::<char>::empty(), 0));
        }
    }
}

/// Mining keeps a whole chain whole and a sealed store sealed. Where the
/// hash of the new block was not stored before, the new chain is the new
/// block followed by the old chain.
pub proof fn lemma_mining_keeps_linked(
    bc: BlockchainView,
    txs: Seq<TransactionView>,
    difficulty: usize,
    timestamp: u128,
)
    ensures
        match mine_outcome(bc, txs, difficulty, timestamp) {
            Ok((ledger, b)) => {
                &&& is_sealed(b, difficulty)
                &&& all_sealed(bc.blocks, difficulty) ==> all_sealed(ledger.blocks, difficulty)
                &&& linked(bc) && !is_stored(bc.blocks, b.hash) && b.hash.len() > 0 ==> linked(
                    ledger,
                ) && chain(ledger) == seq![b] + chain(bc)
            },
            Err(_) => true,
        },
{
    if let Ok((ledger, b)) = mine_outcome(bc, txs, difficulty, timestamp) {
        let h = best_height(bc).unwrap();
        lemma_seal_is_sealed(txs, bc.tip, (h + 1) as i32, difficulty, timestamp);
        if all_sealed(bc.blocks, difficulty) {
            assert forall|k: int| 0 <= k < ledger.blocks.len() implies is_sealed(
                #[trigger] ledger.blocks[k],
                difficulty,
            ) by {
                if is_stored(bc.blocks, b.hash) {
                    if k != place_of(bc.blocks, b.hash) {
                        assert(ledger.blocks[k] == bc.blocks[k]);
                    }
                } else if k < bc.blocks.len() {
                    assert(ledger.blocks[k] == bc.blocks[k]);
                }
            }
        }
        if linked(bc) && !is_stored(bc.blocks, b.hash) && b.hash.len() > 0 {
            lemma_extends_chain(bc, b);
        }
    }
}

/// A block with a new hash, on top of the tip and one higher than it, keeps
/// a whole chain whole once it is stored and made the tip.
pub proof fn lemma_extends_chain(bc: BlockchainView, b: BlockView)
    requires
        linked(bc),
        !is_stored(bc.blocks, b.hash),
        b.hash.len() > 0,
        bc.tip.len() > 0,
        b.prev_block_hash == bc.tip,
        best_height(bc) == Some(b.height - 1),
    ensures
        linked(BlockchainView { tip: b.hash, blocks: bc.blocks.push(b) }),
        chain(BlockchainView { tip: b.hash, blocks: bc.blocks.push(b) }) == seq![b] + chain(bc),
{
    let grown = bc.blocks.push(b);
    let ledger = BlockchainView { tip: b.hash, blocks: grown };
    let n: nat = bc.blocks.len();
    lemma_lookup_after_push(bc.blocks, b, b.hash);
    lemma_walk_after_push(bc.blocks, b, bc.tip, n);
    assert(chain(ledger) == seq![b] + walk(grown, bc.tip, n));
    let c = chain(bc);
    let d = chain(ledger);
    assert(d =~= seq![b] + c);
    lemma_block_with_hash(bc.blocks, bc.tip);
    assert(c.len() > 0);
    lemma_walk_first(bc.blocks, bc.tip, n);
    assert(c[0].height == b.height - 1);
    assert(heights_follow(d)) by {
        assert forall|i: int| 0 <= i < d.len() - 1 implies (#[trigger] d[i]).height == d[i
            + 1].height + 1 by {
            if i > 0 {
                assert(d[i] == c[i - 1]);
                assert(d[i + 1] == c[i]);
            } else {
                assert(d[1] == c[0]);
            }
        }
    }
    assert(d.last() == c.last());
}

/// Taking in a block keeps a sealed store sealed where the block is sealed,
/// and keeps a whole chain whole where the block has a hash and either does
/// not become the tip, or stands on top of the tip, one higher than it.
pub proof fn lemma_adding_keeps_linked(bc: BlockchainView, b: BlockView, difficulty: usize)
    ensures
        match add_outcome(bc, b) {
            Ok(ledger) => {
                &&& all_sealed(bc.blocks, difficulty) && is_sealed(b, difficulty) ==> all_sealed(
                    ledger.blocks,
                    difficulty,
                )
                &&& linked(bc) && b.hash.len() > 0 && ledger.tip == bc.tip ==> linked(ledger)
                    && chain(ledger) == chain(bc)
                &&& linked(bc) && b.hash.len() > 0 && !is_stored(bc.blocks, b.hash) && bc.tip.len()
                    > 0 && b.prev_block_hash == bc.tip && best_height(bc) == Some(b.height - 1)
                    ==> linked(ledger) && chain(ledger) == seq![b] + chain(bc)
            },
            Err(_) => true,
        },
{
    if let Ok(ledger) = add_outcome(bc, b) {
        if !is_stored(bc.blocks, b.hash) {
            let grown = bc.blocks.push(b);
            if all_sealed(bc.blocks, difficulty) && is_sealed(b, difficulty) {
                assert forall|k: int| 0 <= k < grown.len() implies is_sealed(
                    #[trigger] grown[k],
                    difficulty,
                ) by {
                    if k < bc.blocks.len() {
                        assert(grown[k] == bc.blocks[k]);
                    }
                }
            }
            if linked(bc) && b.hash.len() > 0 {
                lemma_lookup_after_push(bc.blocks, b, bc.tip);
                if bc.tip.len() > 0 && b.prev_block_hash == bc.tip && best_height(bc) == Some(
                    b.height - 1,
                ) {
                    lemma_extends_chain(bc, b);
                    lemma_block_with_hash(bc.blocks, bc.tip);
                }
                if ledger.tip == bc.tip {
                    let n: nat = bc.blocks.len();
                    lemma_walk_after_push(bc.blocks, b, bc.tip, n);
                    lemma_grounded_fuel(grown, bc.tip, n, n + 1);
                }
            }
        }
    }
}

} // verus!
