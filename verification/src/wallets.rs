use crate::address::{address_text, encode_address};
use crate::digest::{ripemd160, ripemd160_bytes, sha256, sha256_bytes};
use crate::error::ChainError;
use crate::signing::{
    ed25519_generate, ed25519_keypair, random_bytes, PUBLIC_KEY_LEN, SECRET_KEY_LEN,
};
use vstd::prelude::*;

verus! {

/// Number of bytes in the seed of a key pair.
pub const SEED_LEN: usize = 32;

/// A key pair.
#[derive(Debug)]
pub struct Wallet {
    pub public_key: Vec<u8>,
    pub secret_key: Vec<u8>,
}

/// A wallet under the address that stands for its public key.
#[derive(Debug)]
pub struct WalletEntry {
    pub address: String,
    pub wallet: Wallet,
}

/// The wallets of a user, each under its address, in the order in which
/// their addresses first came.
#[derive(Debug)]
pub struct Wallets {
    pub wallets: Vec<WalletEntry>,
}

/// The locking hash of a public key: the RIPEMD-160 digest of its SHA-256
/// digest.
pub open spec fn locking_hash(public_key: Seq<u8>) -> Seq<u8> {
    ripemd160(sha256(public_key))
}

/// Whether `k` is the first place that holds a wallet under `address`.
pub open spec fn is_first_wallet(wallets: Seq<WalletEntry>, address: Seq<char>, k: int) -> bool {
    &&& 0 <= k < wallets.len()
    &&& wallets[k].address@ == address
    &&& forall|j: int| 0 <= j < k ==> (#[trigger] wallets[j]).address@ != address
}

/// Whether a wallet is held under `address`.
pub open spec fn has_wallet(wallets: Seq<WalletEntry>, address: Seq<char>) -> bool {
    exists|k: int| is_first_wallet(wallets, address, k)
}

/// The place of the wallet held under `address`.
pub open spec fn wallet_place(wallets: Seq<WalletEntry>, address: Seq<char>) -> int {
    choose|k: int| is_first_wallet(wallets, address, k)
}

/// Replaces a public key by its locking hash.
pub fn hash_pub_key(pubKey: &mut Vec<u8>)
    ensures
        final(pubKey)@ == locking_hash(old(pubKey)@),
{
    let digest = sha256_bytes(pubKey.as_slice());
    *pubKey = ripemd160_bytes(digest.as_slice());
}

impl Clone for Wallet {
    fn clone(&self) -> (r: Self)
        ensures
            r.public_key@ == self.public_key@,
            r.secret_key@ == self.secret_key@,
    {
        Wallet {
            public_key: crate::bytes::bytes_to_vec(self.public_key.as_slice()),
            secret_key: crate::bytes::bytes_to_vec(self.secret_key.as_slice()),
        }
    }
}

impl Wallet {
    /// The wallet of a seed.
    pub fn from_seed(seed: &[u8]) -> (r: Wallet)
        ensures
            (r.secret_key@, r.public_key@) == ed25519_keypair(seed@),
            r.secret_key@.len() == SECRET_KEY_LEN,
            r.public_key@.len() == PUBLIC_KEY_LEN,
    {
        let (secret_key, public_key) = ed25519_generate(seed);
        Wallet { public_key, secret_key }
    }

    /// A wallet of a random seed, or a storage failure where the system
    /// gives no random bytes.
    pub fn new() -> (r: Result<Wallet, ChainError>)
        ensures
            match r {
                Ok(w) => {
                    &&& exists|seed: Seq<u8>|
                        seed.len() == SEED_LEN && (w.secret_key@, w.public_key@)
                            == #[trigger] ed25519_keypair(seed)
                    &&& w.secret_key@.len() == SECRET_KEY_LEN
                    &&& w.public_key@.len() == PUBLIC_KEY_LEN
                },
                Err(e) => e == ChainError::Storage,
            },
    {
        match random_bytes(SEED_LEN) {
            Some(seed) => {
                let w = Wallet::from_seed(seed.as_slice());
                assert((w.secret_key@, w.public_key@) == ed25519_keypair(seed@));
                Ok(w)
            },
            None => Err(ChainError::Storage),
        }
    }

    /// The address of the wallet: the text that stands for the locking hash
    /// of its public key.
    pub fn get_address(&self) -> (r: String)
        ensures
            r@ == address_text(locking_hash(self.public_key@)),
    {
        let mut pub_hash = crate::bytes::bytes_to_vec(self.public_key.as_slice());
        hash_pub_key(&mut pub_hash);
        encode_address(pub_hash.as_slice())
    }
}

impl Wallets {
    /// The wallets that were stored before.
    pub fn new(wallets: Vec<WalletEntry>) -> (r: Wallets)
        ensures
            r.wallets == wallets,
    {
        Wallets { wallets }
    }

    /// The first place that holds a wallet under `address`.
    pub fn find_wallet(&self, address: &String) -> (r: Option<usize>)
        ensures
            match r {
                Some(k) => is_first_wallet(self.wallets@, address@, k as int) && wallet_place(
                    self.wallets@,
                    address@,
                ) == k,
                None => !has_wallet(self.wallets@, address@),
            },
    {
        let mut i: usize = 0;
        while i < self.wallets.len()
            invariant
                i <= self.wallets@.len(),
                forall|j: int| 0 <= j < i ==> (#[trigger] self.wallets@[j]).address@ != address@,
            decreases self.wallets@.len() - i,
        {
            if self.wallets[i].address == *address {
                proof {
                    assert(is_first_wallet(self.wallets@, address@, i as int));
                    let k = wallet_place(self.wallets@, address@);
                    assert(k == i) by {
                        if k < i {
                            assert(self.wallets@[k].address@ != address@);
                        }
                        if i < k {
                            assert(self.wallets@[i as int].address@ != address@);
                        }
                    }
                }
                return Some(i);
            }
            i += 1;
        }
        proof {
            assert forall|k: int| !is_first_wallet(self.wallets@, address@, k) by {
                if 0 <= k < self.wallets@.len() {
                    assert(self.wallets@[k].address@ != address@);
                }
            }
        }
        None
    }

    /// Holds a wallet under its address, in place of the wallet that was held
    /// under that address, or behind the others.
    pub fn insert(&mut self, wallet: Wallet) -> (r: String)
        ensures
            r@ == address_text(locking_hash(wallet.public_key@)),
            has_wallet(final(self).wallets@, r@),
            final(self).wallets@[wallet_place(final(self).wallets@, r@)].wallet == wallet,
            if has_wallet(old(self).wallets@, r@) {
                &&& final(self).wallets@.len() == old(self).wallets@.len()
                &&& wallet_place(final(self).wallets@, r@) == wallet_place(old(self).wallets@, r@)
            } else {
                &&& final(self).wallets@.len() == old(self).wallets@.len() + 1
                &&& wallet_place(final(self).wallets@, r@) == old(self).wallets@.len()
            },
            forall|j: int|
                0 <= j < old(self).wallets@.len() && old(self).wallets@[j].address@ != r@
                    ==> final(self).wallets@[j] == old(self).wallets@[j],
    {
        let address = wallet.get_address();
        match self.find_wallet(&address) {
            Some(k) => {
                self.wallets[k].wallet = wallet;
                proof {
                    assert(is_first_wallet(self.wallets@, address@, k as int)) by {
                        assert forall|j: int| 0 <= j < k implies (#[trigger] self.wallets@[j]).address@
                            != address@ by {
                            assert(self.wallets@[j] == old(self).wallets@[j]);
                        }
                    }
                    let c = wallet_place(self.wallets@, address@);
                    assert(c == k) by {
                        if c < k {
                            assert(self.wallets@[c].address@ != address@);
                        }
                        if k < c {
                            assert(self.wallets@[k as int].address@ != address@);
                        }
                    }
                }
            },
            None => {
                let ghost n = self.wallets@.len() as int;
                self.wallets.push(WalletEntry { address: address.clone(), wallet });
                proof {
                    assert(is_first_wallet(self.wallets@, address@, n)) by {
                        assert forall|j: int| 0 <= j < n implies (#[trigger] self.wallets@[j]).address@
                            != address@ by {
                            assert(self.wallets@[j] == old(self).wallets@[j]);
                            if old(self).wallets@[j].address@ == address@ {
                                lemma_some_first_wallet(old(self).wallets@, address@, j);
                            }
                        }
                    }
                    let c = wallet_place(self.wallets@, address@);
                    assert(c == n) by {
                        if c < n {
                            assert(self.wallets@[c].address@ != address@);
                        }
                        if n < c {
                            assert(self.wallets@[n].address@ != address@);
                        }
                    }
                }
            },
        }
        address
    }

    /// Makes a wallet of a random seed, holds it, and gives its address.
    pub fn create_wallet(&mut self) -> (r: Result<String, ChainError>)
        ensures
            match r {
                Ok(address) => has_wallet(final(self).wallets@, address@) && address@
                    == address_text(
                    locking_hash(
                        final(self).wallets@[wallet_place(
                            final(self).wallets@,
                            address@,
                        )].wallet.public_key@,
                    ),
                ),
                Err(e) => e == ChainError::Storage && final(self).wallets == old(self).wallets,
            },
    {
        match Wallet::new() {
            Ok(wallet) => Ok(self.insert(wallet)),
            Err(e) => Err(e),
        }
    }

    /// The addresses under which wallets are held, in their order.
    pub fn get_all_addresses(&self) -> (r: Vec<String>)
        ensures
            r@.len() == self.wallets@.len(),
            forall|i: int| 0 <= i < r@.len() ==> (#[trigger] r@[i])@ == self.wallets@[i].address@,
    {
        let mut addresses: Vec<String> = Vec::new();
        let mut i: usize = 0;
        while i < self.wallets.len()
            invariant
                i <= self.wallets@.len(),
                addresses@.len() == i,
                forall|j: int|
                    0 <= j < i ==> (#[trigger] addresses@[j])@ == self.wallets@[j].address@,
            decreases self.wallets@.len() - i,
        {
            addresses.push(self.wallets[i].address.clone());
            i += 1;
        }
        addresses
    }

    /// The wallet held under an address.
    pub fn get_wallet(&self, address: &str) -> (r: Option<&Wallet>)
        ensures
            match r {
                Some(w) => has_wallet(self.wallets@, address@) && *w == self.wallets@[wallet_place(
                    self.wallets@,
                    address@,
                )].wallet,
                None => !has_wallet(self.wallets@, address@),
            },
    {
        let wanted = address.to_owned();
        match self.find_wallet(&wanted) {
            Some(k) => Some(&self.wallets[k].wallet),
            None => None,
        }
    }
}

/// Where a wallet is held under an address, one of them is the first.
pub proof fn lemma_some_first_wallet(wallets: Seq<WalletEntry>, address: Seq<char>, m: int)
    requires
        0 <= m < wallets.len(),
        wallets[m].address@ == address,
    ensures
        has_wallet(wallets, address),
    decreases m,
{
    if exists|j: int| 0 <= j < m && (#[trigger] wallets[j]).address@ == address {
        let j = choose|j: int| 0 <= j < m && (#[trigger] wallets[j]).address@ == address;
        lemma_some_first_wallet(wallets, address, j);
    } else {
        assert(is_first_wallet(wallets, address, m));
    }
}

} // verus!
