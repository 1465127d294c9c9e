use crate::address::{decode_address, locking_hash_of};
use crate::bytes::{bytes_equal, bytes_to_vec, zero_bytes};
use crate::digest::{hex_text, sha256, sha256_hex};
use crate::encoding::{encode_transaction, transaction_encoding};
use crate::error::ChainError;
use crate::signing::{
    ed25519_sign, ed25519_signature, random_bytes, signature_valid, verify_signature,
    SECRET_KEY_LEN,
};
use vstd::prelude::*;
use vstd::string::{StrSliceExecFns, StringExecFns};
use vstd::utf8::encode_utf8;

verus! {

/// The amount that a coinbase transaction mints.
pub const SUBSIDY: i32 = 10;

/// A reference to an output of an earlier transaction, with the signature
/// and the public key of whoever spends it.
#[derive(Debug)]
pub struct TXInput {
    pub txid: String,
    pub vout: i32,
    pub signature: Vec<u8>,
    pub pub_key: Vec<u8>,
}

/// An amount locked to the hash of a public key.
#[derive(Debug)]
pub struct TXOutput {
    pub value: i32,
    pub pub_key_hash: Vec<u8>,
}

/// A list of outputs.
#[derive(Debug)]
pub struct TXOutputs {
    pub outputs: Vec<TXOutput>,
}

/// A transfer of value: inputs that spend earlier outputs, and new outputs.
#[derive(Debug)]
pub struct Transaction {
    pub id: String,
    pub vin: Vec<TXInput>,
    pub vout: Vec<TXOutput>,
}

/// What an input is: the values it holds.
pub struct TXInputView {
    pub txid: Seq<char>,
    pub vout: int,
    pub signature: Seq<u8>,
    pub pub_key: Seq<u8>,
}

/// What an output is: the values it holds.
pub struct TXOutputView {
    pub value: int,
    pub pub_key_hash: Seq<u8>,
}

/// What a transaction is: its identity, its inputs and its outputs.
pub struct TransactionView {
    pub id: Seq<char>,
    pub vin: Seq<TXInputView>,
    pub vout: Seq<TXOutputView>,
}

/// What a list of inputs is.
pub open spec fn inputs_view(v: Seq<TXInput>) -> Seq<TXInputView> {
    v.map_values(|i: TXInput| i@)
}

/// What a list of outputs is.
pub open spec fn outputs_view(v: Seq<TXOutput>) -> Seq<TXOutputView> {
    v.map_values(|o: TXOutput| o@)
}

/// What a list of transactions is.
pub open spec fn transactions_view(v: Seq<Transaction>) -> Seq<TransactionView> {
    v.map_values(|t: Transaction| t@)
}

impl View for TXInput {
    type V = TXInputView;

    open spec fn view(&self) -> TXInputView {
        TXInputView {
            txid: self.txid@,
            vout: self.vout as int,
            signature: self.signature@,
            pub_key: self.pub_key@,
        }
    }
}

impl View for TXOutput {
    type V = TXOutputView;

    open spec fn view(&self) -> TXOutputView {
        TXOutputView { value: self.value as int, pub_key_hash: self.pub_key_hash@ }
    }
}

impl View for TXOutputs {
    type V = Seq<TXOutputView>;

    open spec fn view(&self) -> Seq<TXOutputView> {
        outputs_view(self.outputs@)
    }
}

impl View for Transaction {
    type V = TransactionView;

    open spec fn view(&self) -> TransactionView {
        TransactionView {
            id: self.id@,
            vin: inputs_view(self.vin@),
            vout: outputs_view(self.vout@),
        }
    }
}

impl Clone for TXInput {
    fn clone(&self) -> (r: Self)
        ensures
            r@ == self@,
    {
        TXInput {
            txid: self.txid.clone(),
            vout: self.vout,
            signature: bytes_to_vec(self.signature.as_slice()),
            pub_key: bytes_to_vec(self.pub_key.as_slice()),
        }
    }
}

impl Clone for TXOutput {
    fn clone(&self) -> (r: Self)
        ensures
            r@ == self@,
    {
        TXOutput { value: self.value, pub_key_hash: bytes_to_vec(self.pub_key_hash.as_slice()) }
    }
}

/// A copy of a list of inputs.
pub fn clone_inputs(v: &Vec<TXInput>) -> (r: Vec<TXInput>)
    ensures
        inputs_view(r@) == inputs_view(v@),
{
    let mut out: Vec<TXInput> = Vec::new();
    let mut i: usize = 0;
    while i < v.len()
        invariant
            i <= v@.len(),
            out@.len() == i,
            forall|j: int| 0 <= j < i ==> out@[j]@ == v@[j]@,
        decreases v@.len() - i,
    {
        out.push(v[i].clone());
        i += 1;
    }
    assert(inputs_view(out@) =~= inputs_view(v@));
    out
}

/// A copy of a list of outputs.
pub fn clone_outputs(v: &Vec<TXOutput>) -> (r: Vec<TXOutput>)
    ensures
        outputs_view(r@) == outputs_view(v@),
{
    let mut out: Vec<TXOutput> = Vec::new();
    let mut i: usize = 0;
    while i < v.len()
        invariant
            i <= v@.len(),
            out@.len() == i,
            forall|j: int| 0 <= j < i ==> out@[j]@ == v@[j]@,
        decreases v@.len() - i,
    {
        out.push(v[i].clone());
        i += 1;
    }
    assert(outputs_view(out@) =~= outputs_view(v@));
    out
}

impl Clone for TXOutputs {
    fn clone(&self) -> (r: Self)
        ensures
            r@ == self@,
    {
        TXOutputs { outputs: clone_outputs(&self.outputs) }
    }
}

impl Clone for Transaction {
    fn clone(&self) -> (r: Self)
        ensures
            r@ == self@,
    {
        Transaction {
            id: self.id.clone(),
            vin: clone_inputs(&self.vin),
            vout: clone_outputs(&self.vout),
        }
    }
}

/// Whether an input is the sentinel of a coinbase transaction: it names no
/// transaction, and output `-1`.
pub open spec fn is_sentinel(input: TXInputView) -> bool {
    input.txid.len() == 0 && input.vout == -1
}

/// Whether a transaction mints value: it has exactly one input, the sentinel.
pub open spec fn is_coinbase(tx: TransactionView) -> bool {
    tx.vin.len() == 1 && is_sentinel(tx.vin[0])
}

/// The transaction with its identity cleared: what is hashed.
pub open spec fn without_id(tx: TransactionView) -> TransactionView {
    TransactionView { id: Seq::empty(), ..tx }
}

/// The identity that a transaction's contents give: the SHA-256 digest, as
/// hexadecimal text, of the encoding of the transaction with its identity
/// cleared. There is none where the encoding fails.
pub open spec fn content_hash(tx: TransactionView) -> Option<Seq<char>> {
    match transaction_encoding(without_id(tx)) {
        Some(bytes) => Some(hex_text(sha256(bytes))),
        None => None,
    }
}

/// An input with its signature and public key blanked.
pub open spec fn blank_input(input: TXInputView) -> TXInputView {
    TXInputView { signature: Seq::empty(), pub_key: Seq::empty(), ..input }
}

/// The trimmed copy of a transaction: every input blanked, identity and
/// outputs untouched.
pub open spec fn trimmed(tx: TransactionView) -> TransactionView {
    TransactionView { vin: tx.vin.map_values(|i: TXInputView| blank_input(i)), ..tx }
}


/// Whether `k` is the first place in `txs` that holds a transaction with
/// the identity `id`.
pub open spec fn is_first_with_id(txs: Seq<TransactionView>, id: Seq<char>, k: int) -> bool {
    &&& 0 <= k < txs.len()
    &&& txs[k].id == id
    &&& forall|j: int| 0 <= j < k ==> (#[trigger] txs[j]).id != id
}

/// The first transaction of `txs` with the identity `id`.
pub open spec fn first_with_id(txs: Seq<TransactionView>, id: Seq<char>) -> Option<
    TransactionView,
> {
    if exists|k: int| is_first_with_id(txs, id, k) {
        Some(txs[choose|k: int| is_first_with_id(txs, id, k)])
    } else {
        None
    }
}

/// The locking hash of the output that an input refers to, among the
/// transactions `prev`. There is none where no transaction has the identity
/// that the input names, where that identity is empty, or where the
/// transaction has no output at the input's index.
pub open spec fn referenced_lock(prev: Seq<TransactionView>, input: TXInputView) -> Option<
    Seq<u8>,
> {
    match first_with_id(prev, input.txid) {
        Some(p) => if p.id.len() > 0 && 0 <= input.vout < p.vout.len() {
            Some(p.vout[input.vout].pub_key_hash)
        } else {
            None
        },
        None => None,
    }
}

/// Whether every input of `tx` refers to an output among `prev`.
pub open spec fn references_resolve(tx: TransactionView, prev: Seq<TransactionView>) -> bool {
    forall|i: int| 0 <= i < tx.vin.len() ==> referenced_lock(prev, #[trigger] tx.vin[i]) is Some
}

/// The copy of `tx` that is hashed to sign or verify input `index`: every
/// input blanked, but for the public key of input `index`, which holds the
/// locking hash of the output it spends.
pub open spec fn signing_copy(tx: TransactionView, index: int, lock: Seq<u8>) -> TransactionView {
    TransactionView {
        vin: Seq::new(
            tx.vin.len(),
            |j: int|
                if j == index {
                    TXInputView { pub_key: lock, ..blank_input(tx.vin[j]) }
                } else {
                    blank_input(tx.vin[j])
                },
        ),
        ..tx
    }
}

/// The message that is signed for input `index`: the bytes of the content
/// hash of the signing copy.
pub open spec fn signing_payload(tx: TransactionView, index: int, lock: Seq<u8>) -> Option<
    Seq<u8>,
> {
    match content_hash(signing_copy(tx, index, lock)) {
        Some(h) => Some(encode_utf8(h)),
        None => None,
    }
}

/// The message that is signed for input `index` of `tx`, whose references
/// resolve among `prev`.
pub open spec fn payload_at(tx: TransactionView, prev: Seq<TransactionView>, index: int) -> Option<
    Seq<u8>,
> {
    signing_payload(tx, index, referenced_lock(prev, tx.vin[index]).unwrap())
}

/// What verifying the inputs from `index` on gives: the first input whose
/// message cannot be built is a storage failure, the first whose signature
/// is not valid makes the transaction invalid.
pub open spec fn verify_inputs_from(
    tx: TransactionView,
    prev: Seq<TransactionView>,
    index: int,
) -> Result<bool, ChainError>
    decreases tx.vin.len() - index,
{
    if index < 0 || index >= tx.vin.len() {
        Ok(true)
    } else {
        match payload_at(tx, prev, index) {
            None => Err(ChainError::Storage),
            Some(m) => if signature_valid(m, tx.vin[index].pub_key, tx.vin[index].signature) {
                verify_inputs_from(tx, prev, index + 1)
            } else {
                Ok(false)
            },
        }
    }
}

/// What verifying a transaction against the transactions `prev` gives.
pub open spec fn verify_outcome(tx: TransactionView, prev: Seq<TransactionView>) -> Result<
    bool,
    ChainError,
> {
    if is_coinbase(tx) {
        Ok(true)
    } else if !references_resolve(tx, prev) {
        Err(ChainError::InvalidTransaction)
    } else {
        verify_inputs_from(tx, prev, 0)
    }
}

/// Whether the message of every input of `tx` can be built.
pub open spec fn payloads_defined(tx: TransactionView, prev: Seq<TransactionView>) -> bool {
    forall|i: int| 0 <= i < tx.vin.len() ==> (#[trigger] payload_at(tx, prev, i)) is Some
}

/// The transaction `tx` with every input signed under `key`.
pub open spec fn with_signatures(
    tx: TransactionView,
    key: Seq<u8>,
    prev: Seq<TransactionView>,
) -> TransactionView {
    TransactionView {
        vin: Seq::new(
            tx.vin.len(),
            |i: int|
                TXInputView {
                    signature: ed25519_signature(payload_at(tx, prev, i).unwrap(), key),
                    ..tx.vin[i]
                },
        ),
        ..tx
    }
}

/// What signing a transaction under `key` gives: the signed transaction, or
/// why it was not signed.
pub open spec fn sign_outcome(
    tx: TransactionView,
    key: Seq<u8>,
    prev: Seq<TransactionView>,
) -> Result<TransactionView, ChainError> {
    if is_coinbase(tx) {
        Ok(tx)
    } else if !references_resolve(tx, prev) {
        Err(ChainError::InvalidTransaction)
    } else if key.len() < SECRET_KEY_LEN {
        Err(ChainError::InvalidKey)
    } else if !payloads_defined(tx, prev) {
        Err(ChainError::Storage)
    } else {
        Ok(with_signatures(tx, key, prev))
    }
}

/// A coinbase transaction before its identity is fixed: one sentinel input
/// that carries `data` where a public key would stand, and one output of the
/// subsidy locked to `lock`.
pub open spec fn coinbase_body(lock: Seq<u8>, data: Seq<u8>) -> TransactionView {
    TransactionView {
        id: Seq::empty(),
        vin: seq![
            TXInputView { txid: Seq::empty(), vout: -1, signature: Seq::empty(), pub_key: data },
        ],
        vout: seq![TXOutputView { value: SUBSIDY as int, pub_key_hash: lock }],
    }
}

/// The coinbase transaction that pays the subsidy to `lock` and carries
/// `data`, or the storage failure where it cannot be hashed.
pub open spec fn coinbase_outcome(lock: Seq<u8>, data: Seq<u8>) -> Result<
    TransactionView,
    ChainError,
> {
    match content_hash(coinbase_body(lock, data)) {
        Some(h) => Ok(TransactionView { id: h, ..coinbase_body(lock, data) }),
        None => Err(ChainError::Storage),
    }
}

/// The memo of a coinbase transaction that was given none.
pub open spec fn reward_memo(to: Seq<char>) -> Seq<char> {
    "Reward to '"@ + to + "'"@
}

/// Number of bytes that follow the memo in a coinbase input.
pub const COINBASE_KEY_LEN: usize = 32;

/// The first place in `txs` that holds a transaction with the identity `id`.
pub fn find_by_id(txs: &Vec<Transaction>, id: &String) -> (r: Option<usize>)
    ensures
        match r {
            Some(k) => is_first_with_id(transactions_view(txs@), id@, k as int) && first_with_id(
                transactions_view(txs@),
                id@,
            ) == Some(txs@[k as int]@),
            None => first_with_id(transactions_view(txs@), id@) is None,
        },
{
    let ghost view = transactions_view(txs@);
    let mut i: usize = 0;
    while i < txs.len()
        invariant
            i <= txs@.len(),
            view == transactions_view(txs@),
            forall|j: int| 0 <= j < i ==> (#[trigger] view[j]).id != id@,
        decreases txs@.len() - i,
    {
        if txs[i].id == *id {
            proof {
                assert(view[i as int] == txs@[i as int]@);
                assert(is_first_with_id(view, id@, i as int));
                let k = choose|k: int| is_first_with_id(view, id@, k);
                assert(k == i) by {
                    if k < i {
                        assert(view[k].id != id@);
                    }
                    if i < k {
                        assert(view[i as int].id != id@);
                    }
                }
            }
            return Some(i);
        }
        assert(view[i as int] == txs@[i as int]@);
        i += 1;
    }
    proof {
        assert forall|k: int| !is_first_with_id(view, id@, k) by {
            if 0 <= k < view.len() {
                assert(view[k].id != id@);
            }
        }
    }
    None
}

impl TXOutput {
    /// Whether the output is locked to the given public-key hash.
    pub fn is_locked_with_key(&self, pub_key_hash: &[u8]) -> (r: bool)
        ensures
            r == (self.pub_key_hash@ == pub_key_hash@),
    {
        bytes_equal(self.pub_key_hash.as_slice(), pub_key_hash)
    }

    /// Locks the output to the locking hash that an address stands for. An
    /// output is left as it was where the text is no address.
    pub fn lock(&mut self, address: &str) -> (r: Result<(), ChainError>)
        ensures
            final(self).value == old(self).value,
            match locking_hash_of(address@) {
                Some(hash) => r is Ok && final(self).pub_key_hash@ == hash,
                None => {
                    &&& r == Err::<(), ChainError>(ChainError::InvalidAddress)
                    &&& final(self).pub_key_hash@ == old(self).pub_key_hash@
                },
            },
    {
        match decode_address(address) {
            Ok(hash) => {
                self.pub_key_hash = hash;
                Ok(())
            },
            Err(e) => Err(e),
        }
    }

    /// An output of `value` locked to the locking hash that `address` stands
    /// for.
    pub fn new(value: i32, address: String) -> (r: Result<TXOutput, ChainError>)
        ensures
            match r {
                Ok(out) => out.value == value && locking_hash_of(address@) == Some(
                    out.pub_key_hash@,
                ),
                Err(e) => e == ChainError::InvalidAddress && locking_hash_of(address@) is None,
            },
    {
        let mut txo = TXOutput { value, pub_key_hash: Vec::new() };
        match txo.lock(address.as_str()) {
            Ok(()) => Ok(txo),
            Err(e) => Err(e),
        }
    }
}

impl Transaction {
    /// Whether the transaction is a coinbase.
    pub fn is_coinbase(&self) -> (r: bool)
        ensures
            r == is_coinbase(self@),
    {
        self.vin.len() == 1 && self.vin[0].txid.as_str().is_empty() && self.vin[0].vout == -1
    }

    /// The content hash of the transaction, which does not depend on the
    /// identity it carries.
    pub fn hash(&self) -> (r: Result<String, ChainError>)
        ensures
            match r {
                Ok(h) => content_hash(self@) == Some(h@),
                Err(e) => e == ChainError::Storage && content_hash(self@) is None,
            },
    {
        let copy = Transaction {
            id: String::new(),
            vin: clone_inputs(&self.vin),
            vout: clone_outputs(&self.vout),
        };
        assert(copy@ == without_id(self@));
        match encode_transaction(&copy) {
            Ok(data) => Ok(sha256_hex(data.as_slice())),
            Err(_) => Err(ChainError::Storage),
        }
    }

    /// The trimmed copy used for signing and verifying: signatures and public
    /// keys blanked.
    pub fn trim_copy(&self) -> (r: Transaction)
        ensures
            r@ == trimmed(self@),
    {
        let mut vin: Vec<TXInput> = Vec::new();
        let mut i: usize = 0;
        while i < self.vin.len()
            invariant
                i <= self.vin@.len(),
                vin@.len() == i,
                forall|j: int| 0 <= j < i ==> vin@[j]@ == blank_input(self.vin@[j]@),
            decreases self.vin@.len() - i,
        {
            vin.push(
                TXInput {
                    txid: self.vin[i].txid.clone(),
                    vout: self.vin[i].vout,
                    signature: Vec::new(),
                    pub_key: Vec::new(),
                },
            );
            i += 1;
        }
        assert(inputs_view(vin@) =~= trimmed(self@).vin);
        Transaction { id: self.id.clone(), vin, vout: clone_outputs(&self.vout) }
    }

    /// The message that is signed, and verified, for input `index`, given the
    /// locking hash of the output that the input spends.
    pub fn signing_payload(&self, index: usize, lock: &[u8]) -> (r: Result<Vec<u8>, ChainError>)
        ensures
            match r {
                Ok(m) => signing_payload(self@, index as int, lock@) == Some(m@),
                Err(e) => e == ChainError::Storage && signing_payload(self@, index as int, lock@)
                    is None,
            },
    {
        let mut vin: Vec<TXInput> = Vec::new();
        let mut j: usize = 0;
        while j < self.vin.len()
            invariant
                j <= self.vin@.len(),
                vin@.len() == j,
                forall|k: int|
                    0 <= k < j ==> vin@[k]@ == signing_copy(self@, index as int, lock@).vin[k],
            decreases self.vin@.len() - j,
        {
            let pub_key = if j == index {
                bytes_to_vec(lock)
            } else {
                Vec::new()
            };
            vin.push(
                TXInput {
                    txid: self.vin[j].txid.clone(),
                    vout: self.vin[j].vout,
                    signature: Vec::new(),
                    pub_key,
                },
            );
            j += 1;
        }
        assert(inputs_view(vin@) =~= signing_copy(self@, index as int, lock@).vin);
        let copy = Transaction { id: self.id.clone(), vin, vout: clone_outputs(&self.vout) };
        assert(copy@ == signing_copy(self@, index as int, lock@));
        match copy.hash() {
            Ok(h) => Ok(h.as_str().as_bytes_vec()),
            Err(e) => Err(e),
        }
    }

    /// The locking hash of the output that each input spends, where every
    /// input refers to an output among `prev_TXs`.
    pub fn referenced_locks(&self, prev_TXs: &Vec<Transaction>) -> (r: Option<Vec<Vec<u8>>>)
        ensures
            match r {
                Some(locks) => {
                    &&& references_resolve(self@, transactions_view(prev_TXs@))
                    &&& locks@.len() == self@.vin.len()
                    &&& forall|i: int|
                        0 <= i < locks@.len() ==> referenced_lock(
                            transactions_view(prev_TXs@),
                            self@.vin[i],
                        ) == Some((#[trigger] locks@[i])@)
                },
                None => !references_resolve(self@, transactions_view(prev_TXs@)),
            },
    {
        let ghost prev = transactions_view(prev_TXs@);
        let mut locks: Vec<Vec<u8>> = Vec::new();
        let mut i: usize = 0;
        while i < self.vin.len()
            invariant
                i <= self.vin@.len(),
                prev == transactions_view(prev_TXs@),
                locks@.len() == i,
                forall|j: int|
                    0 <= j < i ==> referenced_lock(prev, self@.vin[j]) == Some(
                        (#[trigger] locks@[j])@,
                    ),
            decreases self.vin@.len() - i,
        {
            let input = &self.vin[i];
            assert(self@.vin[i as int] == input@);
            let k = match find_by_id(prev_TXs, &input.txid) {
                Some(k) => k,
                None => {
                    assert(referenced_lock(prev, self@.vin[i as int]) is None);
                    return None;
                },
            };
            let p = &prev_TXs[k];
            assert(prev[k as int] == p@);
            if p.id.as_str().is_empty() || input.vout < 0 || input.vout as usize >= p.vout.len() {
                assert(referenced_lock(prev, self@.vin[i as int]) is None);
                return None;
            }
            let out = &p.vout[input.vout as usize];
            assert(p@.vout[input.vout as int] == out@);
            locks.push(bytes_to_vec(out.pub_key_hash.as_slice()));
            i += 1;
        }
        assert forall|i: int| 0 <= i < self@.vin.len() implies referenced_lock(
            prev,
            #[trigger] self@.vin[i],
        ) is Some by {
            assert(referenced_lock(prev, self@.vin[i]) == Some(locks@[i]@));
        }
        Some(locks)
    }

    /// Whether every input is authorised: its signature is valid, under the
    /// public key it carries, for the message built from the output it spends.
    /// A coinbase needs no authorisation.
    pub fn verify(&self, prev_TXs: &Vec<Transaction>) -> (r: Result<bool, ChainError>)
        ensures
            r == verify_outcome(self@, transactions_view(prev_TXs@)),
    {
        if self.is_coinbase() {
            return Ok(true);
        }
        let ghost prev = transactions_view(prev_TXs@);
        let locks = match self.referenced_locks(prev_TXs) {
            Some(locks) => locks,
            None => {
                return Err(ChainError::InvalidTransaction);
            },
        };
        let mut i: usize = 0;
        while i < self.vin.len()
            invariant
                i <= self.vin@.len(),
                prev == transactions_view(prev_TXs@),
                locks@.len() == self@.vin.len(),
                forall|j: int|
                    0 <= j < locks@.len() ==> referenced_lock(prev, self@.vin[j]) == Some(
                        (#[trigger] locks@[j])@,
                    ),
                !is_coinbase(self@),
                references_resolve(self@, prev),
                verify_inputs_from(self@, prev, 0) == verify_inputs_from(self@, prev, i as int),
            decreases self.vin@.len() - i,
        {
            let input = &self.vin[i];
            assert(self@.vin[i as int] == input@);
            assert(referenced_lock(prev, self@.vin[i as int]) == Some(locks@[i as int]@));
            match self.signing_payload(i, locks[i].as_slice()) {
                Ok(m) => {
                    if !verify_signature(
                        m.as_slice(),
                        input.pub_key.as_slice(),
                        input.signature.as_slice(),
                    ) {
                        return Ok(false);
                    }
                },
                Err(e) => {
                    return Err(e);
                },
            }
            i += 1;
        }
        Ok(true)
    }

    /// Signs every input under `private_key`, each for the message built from
    /// the output it spends. A coinbase is left unsigned. Where signing fails
    /// the transaction is left as it was.
    pub fn sign(&mut self, private_key: &[u8], prev_TXs: &Vec<Transaction>) -> (r: Result<
        (),
        ChainError,
    >)
        ensures
            match sign_outcome(old(self)@, private_key@, transactions_view(prev_TXs@)) {
                Ok(signed) => r is Ok && final(self)@ == signed,
                Err(e) => r == Err::<(), ChainError>(e) && final(self)@ == old(self)@,
            },
    {
        if self.is_coinbase() {
            return Ok(());
        }
        let ghost prev = transactions_view(prev_TXs@);
        let ghost tx = self@;
        let locks = match self.referenced_locks(prev_TXs) {
            Some(locks) => locks,
            None => {
                return Err(ChainError::InvalidTransaction);
            },
        };
        if private_key.len() < SECRET_KEY_LEN {
            return Err(ChainError::InvalidKey);
        }
        let mut vin: Vec<TXInput> = Vec::new();
        let mut i: usize = 0;
        while i < self.vin.len()
            invariant
                i <= self.vin@.len(),
                self@ == tx,
                prev == transactions_view(prev_TXs@),
                !is_coinbase(tx),
                references_resolve(tx, prev),
                private_key@.len() >= SECRET_KEY_LEN,
                locks@.len() == tx.vin.len(),
                forall|j: int|
                    0 <= j < locks@.len() ==> referenced_lock(prev, tx.vin[j]) == Some(
                        (#[trigger] locks@[j])@,
                    ),
                vin@.len() == i,
                forall|j: int| 0 <= j < i ==> (#[trigger] payload_at(tx, prev, j)) is Some,
                forall|j: int|
                    0 <= j < i ==> vin@[j]@ == with_signatures(tx, private_key@, prev).vin[j],
            decreases self.vin@.len() - i,
        {
            let input = &self.vin[i];
            assert(tx.vin[i as int] == input@);
            assert(referenced_lock(prev, tx.vin[i as int]) == Some(locks@[i as int]@));
            let m = match self.signing_payload(i, locks[i].as_slice()) {
                Ok(m) => m,
                Err(e) => {
                    assert(payload_at(tx, prev, i as int) is None);
                    return Err(e);
                },
            };
            let signature = ed25519_sign(m.as_slice(), private_key);
            vin.push(
                TXInput {
                    txid: input.txid.clone(),
                    vout: input.vout,
                    signature,
                    pub_key: bytes_to_vec(input.pub_key.as_slice()),
                },
            );
            i += 1;
        }
        assert(inputs_view(vin@) =~= with_signatures(tx, private_key@, prev).vin);
        self.vin = vin;
        Ok(())
    }

    /// The coinbase transaction that pays the subsidy to the locking hash
    /// `lock`, with a sentinel input that carries `data`.
    pub fn coinbase_with_data(lock: Vec<u8>, data: Vec<u8>) -> (r: Result<Transaction, ChainError>)
        ensures
            match r {
                Ok(tx) => coinbase_outcome(lock@, data@) == Ok::<TransactionView, ChainError>(tx@),
                Err(e) => coinbase_outcome(lock@, data@) == Err::<TransactionView, ChainError>(e),
            },
    {
        let mut vin: Vec<TXInput> = Vec::new();
        vin.push(TXInput { txid: String::new(), vout: -1, signature: Vec::new(), pub_key: data });
        let mut vout: Vec<TXOutput> = Vec::new();
        vout.push(TXOutput { value: SUBSIDY, pub_key_hash: lock });
        let mut tx = Transaction { id: String::new(), vin, vout };
        assert(tx@.vin =~= coinbase_body(lock@, data@).vin);
        assert(tx@.vout =~= coinbase_body(lock@, data@).vout);
        assert(tx@ == coinbase_body(lock@, data@));
        match tx.hash() {
            Ok(h) => {
                tx.id = h;
                Ok(tx)
            },
            Err(e) => Err(e),
        }
    }

    /// A coinbase transaction that pays the subsidy to the address `to`. Its
    /// sentinel input carries the memo `data` followed by 32 zero bytes; where
    /// `data` is empty, a memo that names `to` followed by 32 random bytes.
    pub fn new_coinbase(to: String, data: String) -> (r: Result<Transaction, ChainError>)
        ensures
            locking_hash_of(to@) is None ==> r == Err::<Transaction, ChainError>(
                ChainError::InvalidAddress,
            ),
            r matches Err(e) ==> e == ChainError::Storage || (e == ChainError::InvalidAddress
                && locking_hash_of(to@) is None),
            data@.len() > 0 && locking_hash_of(to@) is Some ==> match r {
                Ok(tx) => coinbase_outcome(
                    locking_hash_of(to@).unwrap(),
                    encode_utf8(data@) + Seq::new(COINBASE_KEY_LEN as nat, |i: int| 0u8),
                ) == Ok::<TransactionView, ChainError>(tx@),
                Err(e) => coinbase_outcome(
                    locking_hash_of(to@).unwrap(),
                    encode_utf8(data@) + Seq::new(COINBASE_KEY_LEN as nat, |i: int| 0u8),
                ) == Err::<TransactionView, ChainError>(e),
            },
            data@.len() == 0 ==> (r matches Ok(tx) ==> exists|key: Seq<u8>|
                key.len() == COINBASE_KEY_LEN && #[trigger] coinbase_outcome(
                    locking_hash_of(to@).unwrap(),
                    encode_utf8(reward_memo(to@)) + key,
                ) == Ok::<TransactionView, ChainError>(tx@)),
    {
        let lock = match decode_address(to.as_str()) {
            Ok(lock) => lock,
            Err(e) => {
                return Err(e);
            },
        };
        if data.as_str().is_empty() {
            let mut key = match random_bytes(COINBASE_KEY_LEN) {
                Some(key) => key,
                None => {
                    return Err(ChainError::Storage);
                },
            };
            let mut memo = String::from_str("Reward to '");
            memo.append(to.as_str());
            memo.append("'");
            assert(memo@ == reward_memo(to@));
            let ghost key_bytes = key@;
            let mut pub_key = memo.as_str().as_bytes_vec();
            pub_key.append(&mut key);
            let r = Transaction::coinbase_with_data(lock, pub_key);
            proof {
                if r is Ok {
                    assert(coinbase_outcome(
                        locking_hash_of(to@).unwrap(),
                        encode_utf8(reward_memo(to@)) + key_bytes,
                    ) == Ok::<TransactionView, ChainError>(r->Ok_0@));
                }
            }
            r
        } else {
            let mut key = zero_bytes(COINBASE_KEY_LEN);
            let mut pub_key = data.as_str().as_bytes_vec();
            pub_key.append(&mut key);
            Transaction::coinbase_with_data(lock, pub_key)
        }
    }
}

/// Signing changes the signatures alone: the signed transaction carries, for
/// each input, the signature of the very message that verifying builds for
/// that input.
pub proof fn lemma_verify_reads_what_sign_wrote(
    tx: TransactionView,
    key: Seq<u8>,
    prev: Seq<TransactionView>,
    i: int,
)
    requires
        sign_outcome(tx, key, prev) is Ok,
        !is_coinbase(tx),
        0 <= i < tx.vin.len(),
    ensures
        ({
            let signed = sign_outcome(tx, key, prev).unwrap();
            &&& signed.id == tx.id
            &&& signed.vout == tx.vout
            &&& signed.vin.len() == tx.vin.len()
            &&& signed.vin[i].txid == tx.vin[i].txid
            &&& signed.vin[i].vout == tx.vin[i].vout
            &&& signed.vin[i].pub_key == tx.vin[i].pub_key
            &&& payload_at(tx, prev, i) is Some
            &&& payload_at(signed, prev, i) == payload_at(tx, prev, i)
            &&& signed.vin[i].signature == ed25519_signature(payload_at(tx, prev, i).unwrap(), key)
        }),
{
    let signed = sign_outcome(tx, key, prev).unwrap();
    let lock = referenced_lock(prev, tx.vin[i]).unwrap();
    assert(payload_at(tx, prev, i) is Some);
    assert(signing_copy(signed, i, lock).vin =~= signing_copy(tx, i, lock).vin);
}

/// Sign and verify round trip. Where the signature scheme accepts, under the
/// public key that each input carries, the signature made under the secret
/// key for that input's message, a transaction that was signed verifies.
pub proof fn lemma_signed_transaction_verifies(
    tx: TransactionView,
    key: Seq<u8>,
    prev: Seq<TransactionView>,
)
    requires
        sign_outcome(tx, key, prev) is Ok,
        forall|i: int|
            0 <= i < tx.vin.len() ==> signature_valid(
                (#[trigger] payload_at(tx, prev, i)).unwrap(),
                tx.vin[i].pub_key,
                ed25519_signature(payload_at(tx, prev, i).unwrap(), key),
            ),
    ensures
        verify_outcome(sign_outcome(tx, key, prev).unwrap(), prev) == Ok::<bool, ChainError>(true),
{
    let signed = sign_outcome(tx, key, prev).unwrap();
    if !is_coinbase(tx) {
        assert(!is_coinbase(signed));
        assert forall|i: int| 0 <= i < signed.vin.len() implies referenced_lock(
            prev,
            #[trigger] signed.vin[i],
        ) is Some by {
            assert(referenced_lock(prev, tx.vin[i]) is Some);
        }
        lemma_signed_inputs_verify(tx, key, prev, 0);
    }
}

/// The inputs of a signed transaction verify from any place on.
pub proof fn lemma_signed_inputs_verify(
    tx: TransactionView,
    key: Seq<u8>,
    prev: Seq<TransactionView>,
    index: int,
)
    requires
        sign_outcome(tx, key, prev) is Ok,
        !is_coinbase(tx),
        0 <= index,
        forall|i: int|
            0 <= i < tx.vin.len() ==> signature_valid(
                (#[trigger] payload_at(tx, prev, i)).unwrap(),
                tx.vin[i].pub_key,
                ed25519_signature(payload_at(tx, prev, i).unwrap(), key),
            ),
    ensures
        verify_inputs_from(sign_outcome(tx, key, prev).unwrap(), prev, index) == Ok::<
            bool,
            ChainError,
        >(true),
    decreases tx.vin.len() - index,
{
    if index < tx.vin.len() {
        lemma_verify_reads_what_sign_wrote(tx, key, prev, index);
        assert(signature_valid(
            payload_at(tx, prev, index).unwrap(),
            tx.vin[index].pub_key,
            ed25519_signature(payload_at(tx, prev, index).unwrap(), key),
        ));
        lemma_signed_inputs_verify(tx, key, prev, index + 1);
    }
}

} // verus!
