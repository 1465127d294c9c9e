use crate::clock::now_millis;
use crate::digest::{hex_text, sha256, sha256_hex};
use crate::encoding::{encode_header, header_encoding};
use crate::error::ChainError;
use crate::merkle::{build_root, commitment_root, leaves_view};
use crate::transaction::{content_hash, transactions_view, Transaction, TransactionView};
use vstd::prelude::*;
use vstd::string::StrSliceExecFns;
use vstd::utf8::encode_utf8;

verus! {

/// The number of leading zero digits that the hash of a sealed block has.
pub const TARGET_HEXS: usize = 5;

/// The number of digits in a block hash.
pub const HASH_DIGITS: usize = 64;

/// A sealed batch of transactions, linked to the block before it.
#[derive(Debug)]
pub struct Block {
    pub timestamp: u128,
    pub transactions: Vec<Transaction>,
    pub prev_block_hash: String,
    pub hash: String,
    pub nonce: i32,
    pub height: i32,
}

/// What a block is: the values it holds.
pub struct BlockView {
    pub timestamp: u128,
    pub transactions: Seq<TransactionView>,
    pub prev_block_hash: Seq<char>,
    pub hash: Seq<char>,
    pub nonce: i32,
    pub height: i32,
}

impl View for Block {
    type V = BlockView;

    open spec fn view(&self) -> BlockView {
        BlockView {
            timestamp: self.timestamp,
            transactions: transactions_view(self.transactions@),
            prev_block_hash: self.prev_block_hash@,
            hash: self.hash@,
            nonce: self.nonce,
            height: self.height,
        }
    }
}

/// What a list of blocks is.
pub open spec fn blocks_view(v: Seq<Block>) -> Seq<BlockView> {
    v.map_values(|b: Block| b@)
}

/// A copy of a list of transactions.
pub fn clone_transactions(v: &Vec<Transaction>) -> (r: Vec<Transaction>)
    ensures
        transactions_view(r@) == transactions_view(v@),
{
    let mut out: Vec<Transaction> = Vec::new();
    let mut i: usize = 0;
    while i < v.len()
        invariant
            i <= v@.len(),
            out@.len() == i,
            forall|j: int| 0 <= j < i ==> out@[j]@ == v@[j]@,
        decreases v@.len() - i,
    {
        out.push(v[i].clone());
        i += 1;
    }
    assert(transactions_view(out@) =~= transactions_view(v@));
    out
}

impl Clone for Block {
    fn clone(&self) -> (r: Self)
        ensures
            r@ == self@,
    {
        Block {
            timestamp: self.timestamp,
            transactions: clone_transactions(&self.transactions),
            prev_block_hash: self.prev_block_hash.clone(),
            hash: self.hash.clone(),
            nonce: self.nonce,
            height: self.height,
        }
    }
}

/// The leaf that a transaction gives to the commitment tree: the bytes of
/// its content hash.
pub open spec fn leaf_of(tx: TransactionView) -> Option<Seq<u8>> {
    match content_hash(tx) {
        Some(h) => Some(encode_utf8(h)),
        None => None,
    }
}

/// Whether every transaction of the list can be hashed.
pub open spec fn leaves_defined(txs: Seq<TransactionView>) -> bool {
    forall|i: int| 0 <= i < txs.len() ==> leaf_of(#[trigger] txs[i]) is Some
}

/// The commitment root over the transactions in their order.
pub open spec fn transactions_root(txs: Seq<TransactionView>) -> Option<Seq<u8>> {
    if leaves_defined(txs) {
        Some(commitment_root(Seq::new(txs.len(), |i: int| leaf_of(txs[i]).unwrap())))
    } else {
        None
    }
}

/// The hash of the sealed values: the SHA-256 digest of their encoding, as
/// hexadecimal text.
pub open spec fn header_hash(
    prev_block_hash: Seq<char>,
    root: Seq<u8>,
    timestamp: u128,
    difficulty: usize,
    nonce: i32,
) -> Option<Seq<char>> {
    match header_encoding(prev_block_hash, root, timestamp, difficulty, nonce) {
        Some(bytes) => Some(hex_text(sha256(bytes))),
        None => None,
    }
}

/// Whether the first `difficulty` digits of a hash are all zero.
pub open spec fn meets_difficulty(hash: Seq<char>, difficulty: usize) -> bool {
    &&& difficulty <= hash.len()
    &&& forall|i: int| 0 <= i < difficulty ==> hash[i] == '0'
}

/// The hash that a block's fields give at a difficulty.
pub open spec fn candidate_hash(b: BlockView, difficulty: usize) -> Option<Seq<char>> {
    match transactions_root(b.transactions) {
        Some(root) => header_hash(b.prev_block_hash, root, b.timestamp, difficulty, b.nonce),
        None => None,
    }
}

/// Whether a block is sealed at a difficulty: the hash it carries is the one
/// that its fields give, and that hash meets the difficulty.
pub open spec fn is_sealed(b: BlockView, difficulty: usize) -> bool {
    &&& candidate_hash(b, difficulty) == Some(b.hash)
    &&& meets_difficulty(b.hash, difficulty)
}

/// What the search for a nonce gives from `nonce` on: the first nonce whose
/// hash meets the difficulty, a storage failure at the first nonce whose
/// values cannot be encoded, or no proof of work once the last nonce failed.
pub open spec fn search_from(
    prev_block_hash: Seq<char>,
    root: Seq<u8>,
    timestamp: u128,
    difficulty: usize,
    nonce: i32,
) -> Result<i32, ChainError>
    decreases i32::MAX - nonce,
{
    match header_hash(prev_block_hash, root, timestamp, difficulty, nonce) {
        None => Err(ChainError::Storage),
        Some(h) => if meets_difficulty(h, difficulty) {
            Ok(nonce)
        } else if nonce == i32::MAX {
            Err(ChainError::NoProofOfWork)
        } else {
            search_from(prev_block_hash, root, timestamp, difficulty, (nonce + 1) as i32)
        },
    }
}

/// What sealing gives: the block with the first nonce, from zero, whose hash
/// meets the difficulty; a storage failure where a transaction or the sealed
/// values cannot be encoded; no proof of work where the difficulty asks for
/// more digits than a hash has, or where no nonce is left.
pub open spec fn seal_outcome(
    transactions: Seq<TransactionView>,
    prev_block_hash: Seq<char>,
    height: i32,
    difficulty: usize,
    timestamp: u128,
) -> Result<BlockView, ChainError> {
    match transactions_root(transactions) {
        None => Err(ChainError::Storage),
        Some(root) => if difficulty > HASH_DIGITS {
            Err(ChainError::NoProofOfWork)
        } else {
            match search_from(prev_block_hash, root, timestamp, difficulty, 0) {
                Ok(nonce) => Ok(
                    BlockView {
                        timestamp,
                        transactions,
                        prev_block_hash,
                        hash: header_hash(
                            prev_block_hash,
                            root,
                            timestamp,
                            difficulty,
                            nonce,
                        ).unwrap(),
                        nonce,
                        height,
                    },
                ),
                Err(e) => Err(e),
            }
        },
    }
}

/// Whether the first `difficulty` digits of a hash are all zero.
pub fn has_leading_zeros(hash: &str, difficulty: usize) -> (r: bool)
    ensures
        r == meets_difficulty(hash@, difficulty),
{
    if difficulty > hash.unicode_len() {
        return false;
    }
    let mut i: usize = 0;
    while i < difficulty
        invariant
            i <= difficulty <= hash@.len(),
            forall|j: int| 0 <= j < i ==> hash@[j] == '0',
        decreases difficulty - i,
    {
        if hash.get_char(i) != '0' {
            return false;
        }
        i += 1;
    }
    true
}

/// The commitment root over a list of transactions in their order.
pub fn hash_transactions(transactions: &Vec<Transaction>) -> (r: Result<Vec<u8>, ChainError>)
    ensures
        match r {
            Ok(root) => transactions_root(transactions_view(transactions@)) == Some(root@),
            Err(e) => e == ChainError::Storage && transactions_root(
                transactions_view(transactions@),
            ) is None,
        },
{
    let ghost txs = transactions_view(transactions@);
    let mut leaves: Vec<Vec<u8>> = Vec::new();
    let mut i: usize = 0;
    while i < transactions.len()
        invariant
            i <= transactions@.len(),
            txs == transactions_view(transactions@),
            leaves@.len() == i,
            forall|j: int| 0 <= j < i ==> leaf_of(txs[j]) == Some((#[trigger] leaves@[j])@),
        decreases transactions@.len() - i,
    {
        assert(txs[i as int] == transactions@[i as int]@);
        match transactions[i].hash() {
            Ok(h) => {
                leaves.push(h.as_str().as_bytes_vec());
            },
            Err(e) => {
                assert(leaf_of(txs[i as int]) is None);
                return Err(e);
            },
        }
        i += 1;
    }
    proof {
        assert forall|j: int| 0 <= j < txs.len() implies leaf_of(#[trigger] txs[j]) is Some by {
            assert(leaf_of(txs[j]) == Some(leaves@[j]@));
        }
        assert(leaves_view(leaves@) =~= Seq::new(txs.len(), |i: int| leaf_of(txs[i]).unwrap()));
    }
    Ok(build_root(leaves))
}

impl Block {
    /// The hash that the block carries.
    pub fn get_hash(&self) -> (r: String)
        ensures
            r@ == self@.hash,
    {
        self.hash.clone()
    }

    /// The hash of the block before this one; empty for a genesis block.
    pub fn get_prev_hash(&self) -> (r: String)
        ensures
            r@ == self@.prev_block_hash,
    {
        self.prev_block_hash.clone()
    }

    /// The transactions of the block, in their order.
    pub fn get_transaction(&self) -> (r: &Vec<Transaction>)
        ensures
            r == &self.transactions,
    {
        &self.transactions
    }

    /// The height of the block: zero for a genesis block.
    pub fn get_height(&self) -> (r: i32)
        ensures
            r == self@.height,
    {
        self.height
    }

    /// Seals a batch of transactions at a given moment: commits to the
    /// transactions in their order and searches, from zero upwards, for the
    /// first nonce whose hash has `difficulty` leading zero digits.
    pub fn seal(
        transactions: Vec<Transaction>,
        prev_block_hash: String,
        height: i32,
        difficulty: usize,
        timestamp: u128,
    ) -> (r: Result<Block, ChainError>)
        ensures
            match r {
                Ok(b) => seal_outcome(
                    transactions_view(transactions@),
                    prev_block_hash@,
                    height,
                    difficulty,
                    timestamp,
                ) == Ok::<BlockView, ChainError>(b@) && is_sealed(b@, difficulty) && b@.hash.len()
                    == HASH_DIGITS,
                Err(e) => seal_outcome(
                    transactions_view(transactions@),
                    prev_block_hash@,
                    height,
                    difficulty,
                    timestamp,
                ) == Err::<BlockView, ChainError>(e),
            },
    {
        let root = match hash_transactions(&transactions) {
            Ok(root) => root,
            Err(e) => {
                return Err(e);
            },
        };
        if difficulty > HASH_DIGITS {
            return Err(ChainError::NoProofOfWork);
        }
        let mut nonce: i32 = 0;
        loop
            invariant
                0 <= nonce,
                search_from(prev_block_hash@, root@, timestamp, difficulty, 0) == search_from(
                    prev_block_hash@,
                    root@,
                    timestamp,
                    difficulty,
                    nonce,
                ),
                transactions_root(transactions_view(transactions@)) == Some(root@),
                difficulty <= HASH_DIGITS,
            decreases i32::MAX - nonce,
        {
            let data = match encode_header(
                prev_block_hash.as_str(),
                root.as_slice(),
                timestamp,
                difficulty,
                nonce,
            ) {
                Ok(data) => data,
                Err(_) => {
                    return Err(ChainError::Storage);
                },
            };
            let hash = sha256_hex(data.as_slice());
            if has_leading_zeros(hash.as_str(), difficulty) {
                return Ok(Block { timestamp, transactions, prev_block_hash, hash, nonce, height });
            }
            if nonce == i32::MAX {
                return Err(ChainError::NoProofOfWork);
            }
            nonce += 1;
        }
    }

    /// Whether the hash that the block's fields give has `difficulty` leading
    /// zero digits.
    pub fn validate_at(&self, difficulty: usize) -> (r: Result<bool, ChainError>)
        ensures
            match r {
                Ok(valid) => match candidate_hash(self@, difficulty) {
                    Some(h) => valid == meets_difficulty(h, difficulty),
                    None => false,
                },
                Err(e) => e == ChainError::Storage && candidate_hash(self@, difficulty) is None,
            },
    {
        let root = match hash_transactions(&self.transactions) {
            Ok(root) => root,
            Err(e) => {
                return Err(e);
            },
        };
        let data = match encode_header(
            self.prev_block_hash.as_str(),
            root.as_slice(),
            self.timestamp,
            difficulty,
            self.nonce,
        ) {
            Ok(data) => data,
            Err(_) => {
                return Err(ChainError::Storage);
            },
        };
        let hash = sha256_hex(data.as_slice());
        Ok(has_leading_zeros(hash.as_str(), difficulty))
    }

    /// Whether the hash that the block's fields give meets the difficulty of
    /// this ledger.
    pub fn validate(&self) -> (r: Result<bool, ChainError>)
        ensures
            match r {
                Ok(valid) => match candidate_hash(self@, TARGET_HEXS) {
                    Some(h) => valid == meets_difficulty(h, TARGET_HEXS),
                    None => false,
                },
                Err(e) => e == ChainError::Storage && candidate_hash(self@, TARGET_HEXS) is None,
            },
    {
        self.validate_at(TARGET_HEXS)
    }

    /// Seals a batch of transactions now, at the difficulty of this ledger.
    /// The moment is read from the system clock; the block is what sealing at
    /// that moment gives.
    pub fn new_block(transactions: Vec<Transaction>, prev_block_hash: String, height: i32) -> (r:
        Result<Block, ChainError>)
        ensures
            match r {
                Ok(b) => seal_outcome(
                    transactions_view(transactions@),
                    prev_block_hash@,
                    height,
                    TARGET_HEXS,
                    b.timestamp,
                ) == Ok::<BlockView, ChainError>(b@) && is_sealed(b@, TARGET_HEXS),
                Err(e) => e == ChainError::Storage || e == ChainError::NoProofOfWork,
            },
    {
        let timestamp = match now_millis() {
            Ok(t) => t,
            Err(e) => {
                return Err(e);
            },
        };
        match Block::seal(transactions, prev_block_hash, height, TARGET_HEXS, timestamp) {
            Ok(b) => Ok(b),
            Err(e) => {
                proof {
                    lemma_seal_errors(
                        transactions_view(transactions@),
                        prev_block_hash@,
                        height,
                        TARGET_HEXS,
                        timestamp,
                    );
                }
                Err(e)
            },
        }
    }

    /// The genesis block over a coinbase transaction: no block before it,
    /// height zero.
    pub fn new_genesis_block(coinbase: Transaction) -> (r: Result<Block, ChainError>)
        ensures
            match r {
                Ok(b) => seal_outcome(
                    seq![coinbase@],
                    Seq::empty(),
                    0,
                    TARGET_HEXS,
                    b.timestamp,
                ) == Ok::<BlockView, ChainError>(b@) && is_sealed(b@, TARGET_HEXS),
                Err(e) => e == ChainError::Storage || e == ChainError::NoProofOfWork,
            },
    {
        let mut transactions: Vec<Transaction> = Vec::new();
        transactions.push(coinbase);
        assert(transactions_view(transactions@) =~= seq![coinbase@]);
        Block::new_block(transactions, String::new(), 0)
    }
}

/// The search for a nonce fails only for want of an encoding or of a nonce.
pub proof fn lemma_search_errors(
    prev_block_hash: Seq<char>,
    root: Seq<u8>,
    timestamp: u128,
    difficulty: usize,
    nonce: i32,
)
    ensures
        search_from(prev_block_hash, root, timestamp, difficulty, nonce) matches Err(e) ==> e
            == ChainError::Storage || e == ChainError::NoProofOfWork,
    decreases i32::MAX - nonce,
{
    if nonce < i32::MAX {
        lemma_search_errors(prev_block_hash, root, timestamp, difficulty, (nonce + 1) as i32);
    }
}

/// Sealing fails only with a storage failure or for want of a proof of work.
pub proof fn lemma_seal_errors(
    transactions: Seq<TransactionView>,
    prev_block_hash: Seq<char>,
    height: i32,
    difficulty: usize,
    timestamp: u128,
)
    ensures
        seal_outcome(transactions, prev_block_hash, height, difficulty, timestamp) matches Err(e)
            ==> e == ChainError::Storage || e == ChainError::NoProofOfWork,
{
    if let Some(root) = transactions_root(transactions) {
        lemma_search_errors(prev_block_hash, root, timestamp, difficulty, 0);
    }
}

/// The nonce that the search finds is the least that works: its hash meets
/// the difficulty, and every nonce before it, from where the search began,
/// has a hash that does not.
pub proof fn lemma_search_finds_least(
    prev_block_hash: Seq<char>,
    root: Seq<u8>,
    timestamp: u128,
    difficulty: usize,
    start: i32,
    found: i32,
)
    requires
        search_from(prev_block_hash, root, timestamp, difficulty, start) == Ok::<i32, ChainError>(
            found,
        ),
    ensures
        start <= found,
        match header_hash(prev_block_hash, root, timestamp, difficulty, found) {
            Some(h) => meets_difficulty(h, difficulty),
            None => false,
        },
        forall|n: i32|
            start <= n < found ==> match #[trigger] header_hash(
                prev_block_hash,
                root,
                timestamp,
                difficulty,
                n,
            ) {
                Some(h) => !meets_difficulty(h, difficulty),
                None => false,
            },
    decreases i32::MAX - start,
{
    let h = header_hash(prev_block_hash, root, timestamp, difficulty, start).unwrap();
    if !meets_difficulty(h, difficulty) {
        lemma_search_finds_least(
            prev_block_hash,
            root,
            timestamp,
            difficulty,
            (start + 1) as i32,
            found,
        );
    }
}

} // verus!
