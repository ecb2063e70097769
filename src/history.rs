use vstd::prelude::*;
use crate::headers::hash_lt;
use crate::kv::{ascending, first_match, insert_block, lemma_ascending_last, lemma_first_match, lemma_first_match_frame};
use crate::word::{Word, H256};

verus! {

/// A 20-byte account address, held as its high 4 and low 16 bytes.
#[derive(Clone, Copy, Debug, PartialEq, Eq, Structural)]
pub struct Address {
    pub hi: u32,
    pub lo: u128,
}

/// An account as the state holds it.
#[derive(Clone, Copy, Debug, PartialEq, Eq, Structural)]
pub struct Account {
    pub nonce: u64,
    pub balance: Word,
    pub incarnation: u64,
    pub code_hash: H256,
}

/// High half of the hash of empty code.
pub const EMPTY_HASH_HI: u128 = 0xc5d2460186f7233c927e7db2dcc703c0;

/// Low half of the hash of empty code.
pub const EMPTY_HASH_LO: u128 = 0xe500b653ca82273b7bfad8045d85a470;

/// The hash of empty code.
pub open spec fn empty_hash() -> H256 {
    H256 { hi: EMPTY_HASH_HI, lo: EMPTY_HASH_LO }
}

/// The key of one storage slot: `address ‖ incarnation ‖ slot`.
#[derive(Clone, Copy, Debug, PartialEq, Eq, Structural)]
pub struct StorageKey {
    pub address: Address,
    pub incarnation: u64,
    pub slot: H256,
}

/// One chunk of an account's history index: the blocks, ascending, in which
/// the account changed, up to `upper_bound`.
#[derive(Debug)]
pub struct AccountChunk {
    pub address: Address,
    pub upper_bound: u64,
    pub blocks: Vec<u64>,
}

/// One chunk of a storage slot's history index; the incarnation is not part
/// of its key.
#[derive(Debug)]
pub struct StorageChunk {
    pub address: Address,
    pub slot: H256,
    pub upper_bound: u64,
    pub blocks: Vec<u64>,
}

/// An account change-set entry: the account's value before `block`.
#[derive(Clone, Copy, Debug, PartialEq, Eq, Structural)]
pub struct AccountChange {
    pub block: u64,
    pub address: Address,
    pub prev: Option<Account>,
}

/// A storage change-set entry: the slot's value before `block`.
#[derive(Clone, Copy, Debug, PartialEq, Eq, Structural)]
pub struct StorageChange {
    pub block: u64,
    pub key: StorageKey,
    pub prev: Option<Word>,
}

pub open spec fn addr_lt(a: Address, b: Address) -> bool {
    a.hi < b.hi || (a.hi == b.hi && a.lo < b.lo)
}

/// The key `address ‖ n` is at least the key `a ‖ b`.
pub open spec fn account_key_ge(address: Address, n: u64, a: Address, b: u64) -> bool {
    addr_lt(a, address) || (address == a && n >= b)
}

/// The key `address ‖ slot ‖ n` is at least the key `a ‖ s ‖ b`.
pub open spec fn storage_key_ge(address: Address, slot: H256, n: u64, a: Address, s: H256, b: u64) -> bool {
    addr_lt(a, address) || (address == a && (hash_lt(s, slot) || (slot == s && n >= b)))
}

pub open spec fn seek_account_pred(a: Address, b: u64) -> spec_fn(AccountChunk) -> bool {
    |c: AccountChunk| account_key_ge(c.address, c.upper_bound, a, b)
}

pub open spec fn seek_storage_pred(a: Address, s: H256, b: u64) -> spec_fn(StorageChunk) -> bool {
    |c: StorageChunk| storage_key_ge(c.address, c.slot, c.upper_bound, a, s, b)
}

pub open spec fn at_least_pred(b: u64) -> spec_fn(u64) -> bool {
    |n: u64| n >= b
}

pub open spec fn account_change_pred(n: u64, a: Address) -> spec_fn(AccountChange) -> bool {
    |c: AccountChange| c.block == n && c.address == a
}

pub open spec fn storage_change_pred(n: u64, k: StorageKey) -> spec_fn(StorageChange) -> bool {
    |c: StorageChange| c.block == n && c.key == k
}

pub open spec fn account_entry_pred(a: Address) -> spec_fn((Address, Option<Account>)) -> bool {
    |e: (Address, Option<Account>)| e.0 == a
}

pub open spec fn storage_entry_pred(k: StorageKey) -> spec_fn((StorageKey, Option<Word>)) -> bool {
    |e: (StorageKey, Option<Word>)| e.0 == k
}

pub open spec fn code_hash_pred(a: Address, inc: u64) -> spec_fn((Address, u64, H256)) -> bool {
    |e: (Address, u64, H256)| e.0 == a && e.1 == inc
}

/// The first chunk whose key is at least `a ‖ b`: where a seek lands.
pub open spec fn account_seek(t: Seq<AccountChunk>, a: Address, b: u64) -> Option<int> {
    first_match(t, seek_account_pred(a, b), 0)
}

/// The first chunk whose key is at least `a ‖ s ‖ b`: where a seek lands.
pub open spec fn storage_seek(t: Seq<StorageChunk>, a: Address, s: H256, b: u64) -> Option<int> {
    first_match(t, seek_storage_pred(a, s, b), 0)
}

/// The first block in `blocks` that is at least `b`.
pub open spec fn first_at_least(blocks: Seq<u64>, b: u64) -> Option<u64> {
    match first_match(blocks, at_least_pred(b), 0) {
        Some(k) => Some(blocks[k]),
        None => None,
    }
}

/// The account change-set entry for `a` at block `n`.
pub open spec fn account_change(cs: Seq<AccountChange>, n: u64, a: Address) -> Option<Option<Account>> {
    match first_match(cs, account_change_pred(n, a), 0) {
        Some(k) => Some(cs[k].prev),
        None => None,
    }
}

/// The storage change-set entry for `k` at block `n`.
pub open spec fn storage_change(cs: Seq<StorageChange>, n: u64, k: StorageKey) -> Option<Option<Word>> {
    match first_match(cs, storage_change_pred(n, k), 0) {
        Some(i) => Some(cs[i].prev),
        None => None,
    }
}

/// The current value of account `a`.
pub open spec fn plain_account(t: Seq<(Address, Option<Account>)>, a: Address) -> Option<Account> {
    match first_match(t, account_entry_pred(a), 0) {
        Some(k) => t[k].1,
        None => None,
    }
}

/// The current value of storage slot `k`.
pub open spec fn plain_storage(t: Seq<(StorageKey, Option<Word>)>, k: StorageKey) -> Option<Word> {
    match first_match(t, storage_entry_pred(k), 0) {
        Some(i) => t[i].1,
        None => None,
    }
}

/// The code hash recorded for `a` at incarnation `inc`.
pub open spec fn code_hash_of(t: Seq<(Address, u64, H256)>, a: Address, inc: u64) -> Option<H256> {
    match first_match(t, code_hash_pred(a, inc), 0) {
        Some(k) => Some(t[k].2),
        None => None,
    }
}

/// The state: current values, change-sets and history indexes.
pub struct StateDb {
    account_history: Vec<AccountChunk>,
    storage_history: Vec<StorageChunk>,
    account_changes: Vec<AccountChange>,
    storage_changes: Vec<StorageChange>,
    accounts: Vec<(Address, Option<Account>)>,
    storage: Vec<(StorageKey, Option<Word>)>,
    code_hashes: Vec<(Address, u64, H256)>,
}


impl StateDb {
    pub closed spec fn account_index(&self) -> Seq<AccountChunk> {
        self.account_history@
    }

    pub closed spec fn storage_index(&self) -> Seq<StorageChunk> {
        self.storage_history@
    }

    pub closed spec fn account_changes(&self) -> Seq<AccountChange> {
        self.account_changes@
    }

    pub closed spec fn storage_changes(&self) -> Seq<StorageChange> {
        self.storage_changes@
    }

    pub closed spec fn accounts(&self) -> Seq<(Address, Option<Account>)> {
        self.accounts@
    }

    pub closed spec fn storage(&self) -> Seq<(StorageKey, Option<Word>)> {
        self.storage@
    }

    pub closed spec fn code_hashes(&self) -> Seq<(Address, u64, H256)> {
        self.code_hashes@
    }

    /// The account's value with its code hash restored: an account with an
    /// incarnation and the empty code hash takes the hash recorded for it.
    pub open spec fn rehydrate(&self, a: Address, v: Option<Account>) -> Option<Account> {
        match v {
            Some(acc) => if acc.incarnation > 0 && acc.code_hash == empty_hash() {
                match code_hash_of(self.code_hashes(), a, acc.incarnation) {
                    Some(h) => Some(Account { code_hash: h, ..acc }),
                    None => Some(acc),
                }
            } else {
                Some(acc)
            },
            None => None,
        }
    }

    /// What the account history says `a` held at `b`, if it says anything.
    pub open spec fn account_history_at(&self, a: Address, b: u64) -> Option<Option<Account>> {
        match account_seek(self.account_index(), a, b) {
            Some(i) => if self.account_index()[i].address != a {
                None
            } else {
                match first_at_least(self.account_index()[i].blocks@, b) {
                    Some(n) => match account_change(self.account_changes(), n, a) {
                        Some(prev) => Some(self.rehydrate(a, prev)),
                        None => None,
                    },
                    None => None,
                }
            },
            None => None,
        }
    }

    /// What the storage history says slot `k` held at `b`, if it says anything.
    pub open spec fn storage_history_at(&self, k: StorageKey, b: u64) -> Option<Option<Word>> {
        match storage_seek(self.storage_index(), k.address, k.slot, b) {
            Some(i) => if self.storage_index()[i].address != k.address || self.storage_index()[i].slot != k.slot {
                None
            } else {
                match first_at_least(self.storage_index()[i].blocks@, b) {
                    Some(n) => storage_change(self.storage_changes(), n, k),
                    None => None,
                }
            },
            None => None,
        }
    }

    pub fn new() -> (r: StateDb)
        ensures
            r.account_index_ok(),
            r.storage_index_ok(),
            r.account_index().len() == 0,
            r.storage_index().len() == 0,
            r.account_changes().len() == 0,
            r.storage_changes().len() == 0,
            r.accounts().len() == 0,
            r.storage().len() == 0,
            r.code_hashes().len() == 0,
    {
        StateDb {
            account_history: Vec::new(),
            storage_history: Vec::new(),
            account_changes: Vec::new(),
            storage_changes: Vec::new(),
            accounts: Vec::new(),
            storage: Vec::new(),
            code_hashes: Vec::new(),
        }
    }

    /// The current value of account `a`.
    pub fn get_account(&self, a: Address) -> (r: Option<Account>)
        ensures
            r == plain_account(self.accounts(), a),
    {
        let mut i: usize = 0;
        while i < self.accounts.len()
            invariant
                i <= self.accounts@.len(),
                first_match(self.accounts@, account_entry_pred(a), i as int) == first_match(self.accounts@, account_entry_pred(a), 0),
            decreases self.accounts@.len() - i,
        {
            if self.accounts[i].0 == a {
                return self.accounts[i].1;
            }
            i = i + 1;
        }
        None
    }

    /// The current value of storage slot `k`.
    pub fn get_storage(&self, k: StorageKey) -> (r: Option<Word>)
        ensures
            r == plain_storage(self.storage(), k),
    {
        let mut i: usize = 0;
        while i < self.storage.len()
            invariant
                i <= self.storage@.len(),
                first_match(self.storage@, storage_entry_pred(k), i as int) == first_match(self.storage@, storage_entry_pred(k), 0),
            decreases self.storage@.len() - i,
        {
            if self.storage[i].0 == k {
                return self.storage[i].1;
            }
            i = i + 1;
        }
        None
    }

    /// The code hash recorded for `a` at incarnation `inc`.
    pub fn get_code_hash(&self, a: Address, inc: u64) -> (r: Option<H256>)
        ensures
            r == code_hash_of(self.code_hashes(), a, inc),
    {
        let mut i: usize = 0;
        while i < self.code_hashes.len()
            invariant
                i <= self.code_hashes@.len(),
                first_match(self.code_hashes@, code_hash_pred(a, inc), i as int) == first_match(self.code_hashes@, code_hash_pred(a, inc), 0),
            decreases self.code_hashes@.len() - i,
        {
            if self.code_hashes[i].0 == a && self.code_hashes[i].1 == inc {
                return Some(self.code_hashes[i].2);
            }
            i = i + 1;
        }
        None
    }
}

impl StateDb {
    fn account_slot(&self, a: Address) -> (r: Option<usize>)
        ensures
            match r {
                Some(i) => first_match(self.accounts@, account_entry_pred(a), 0) == Some(i as int),
                None => first_match(self.accounts@, account_entry_pred(a), 0) is None,
            },
    {
        let mut i: usize = 0;
        while i < self.accounts.len()
            invariant
                i <= self.accounts@.len(),
                first_match(self.accounts@, account_entry_pred(a), i as int) == first_match(self.accounts@, account_entry_pred(a), 0),
            decreases self.accounts@.len() - i,
        {
            if self.accounts[i].0 == a {
                return Some(i);
            }
            i = i + 1;
        }
        None
    }

    /// Sets the current value of account `a`, with no history.
    pub fn put_account(&mut self, a: Address, v: Option<Account>)
        ensures
            plain_account(final(self).accounts(), a) == v,
            forall|x: Address| x != a ==> plain_account(final(self).accounts(), x) == plain_account(old(self).accounts(), x),
            final(self).account_index() == old(self).account_index(),
            final(self).account_changes() == old(self).account_changes(),
            final(self).storage_index() == old(self).storage_index(),
            final(self).storage_changes() == old(self).storage_changes(),
            final(self).storage() == old(self).storage(),
            final(self).code_hashes() == old(self).code_hashes(),
    {
        let slot = self.account_slot(a);
        let ghost t = self.accounts@;
        proof {
            lemma_first_match(t, account_entry_pred(a), 0);
        }
        let i: usize = match slot {
            Some(i) => {
                self.accounts.set(i, (a, v));
                i
            },
            None => {
                let n = self.accounts.len();
                self.accounts.push((a, v));
                n
            },
        };
        proof {
            lemma_first_match(t, account_entry_pred(a), 0);
            assert forall|x: Address| x != a implies plain_account(self.accounts@, x) == plain_account(t, x) by {
                assert forall|j: int| 0 <= j < t.len() && account_entry_pred(x)(t[j])
                    implies j < self.accounts@.len() && self.accounts@[j] == t[j] by {
                    if j == i {
                        assert(t[j].0 == a);
                    }
                }
                assert forall|j: int| 0 <= j < self.accounts@.len() && account_entry_pred(x)(self.accounts@[j])
                    implies j < t.len() && self.accounts@[j] == t[j] by {
                    if j == i {
                        assert(self.accounts@[j].0 == a);
                    }
                }
                lemma_first_match_frame(t, self.accounts@, account_entry_pred(x), 0);
                lemma_first_match(t, account_entry_pred(x), 0);
            }
            lemma_first_match(self.accounts@, account_entry_pred(a), 0);
            if i < t.len() {
                assert(account_entry_pred(a)(self.accounts@[i as int]));
                assert(first_match(self.accounts@, account_entry_pred(a), 0) == Some(i as int)) by {
                    lemma_first_match(self.accounts@, account_entry_pred(a), 0);
                    lemma_first_match(t, account_entry_pred(a), 0);
                    if first_match(self.accounts@, account_entry_pred(a), 0) != Some(i as int) {
                        let k = first_match(self.accounts@, account_entry_pred(a), 0)->Some_0;
                        assert(self.accounts@[k] == t[k]);
                    }
                }
            } else {
                assert(account_entry_pred(a)(self.accounts@[i as int]));
            }
        }
    }

    fn storage_slot(&self, k: StorageKey) -> (r: Option<usize>)
        ensures
            match r {
                Some(i) => first_match(self.storage@, storage_entry_pred(k), 0) == Some(i as int),
                None => first_match(self.storage@, storage_entry_pred(k), 0) is None,
            },
    {
        let mut i: usize = 0;
        while i < self.storage.len()
            invariant
                i <= self.storage@.len(),
                first_match(self.storage@, storage_entry_pred(k), i as int) == first_match(self.storage@, storage_entry_pred(k), 0),
            decreases self.storage@.len() - i,
        {
            if self.storage[i].0 == k {
                return Some(i);
            }
            i = i + 1;
        }
        None
    }

    /// Sets the current value of storage slot `k`, with no history.
    pub fn put_storage(&mut self, k: StorageKey, v: Option<Word>)
        ensures
            plain_storage(final(self).storage(), k) == v,
            forall|x: StorageKey| x != k ==> plain_storage(final(self).storage(), x) == plain_storage(old(self).storage(), x),
            final(self).account_index() == old(self).account_index(),
            final(self).account_changes() == old(self).account_changes(),
            final(self).storage_index() == old(self).storage_index(),
            final(self).storage_changes() == old(self).storage_changes(),
            final(self).accounts() == old(self).accounts(),
            final(self).code_hashes() == old(self).code_hashes(),
    {
        let slot = self.storage_slot(k);
        let ghost t = self.storage@;
        proof {
            lemma_first_match(t, storage_entry_pred(k), 0);
        }
        let i: usize = match slot {
            Some(i) => {
                self.storage.set(i, (k, v));
                i
            },
            None => {
                let n = self.storage.len();
                self.storage.push((k, v));
                n
            },
        };
        proof {
            lemma_first_match(t, storage_entry_pred(k), 0);
            assert forall|x: StorageKey| x != k implies plain_storage(self.storage@, x) == plain_storage(t, x) by {
                assert forall|j: int| 0 <= j < t.len() && storage_entry_pred(x)(t[j])
                    implies j < self.storage@.len() && self.storage@[j] == t[j] by {
                    if j == i {
                        assert(t[j].0 == k);
                    }
                }
                assert forall|j: int| 0 <= j < self.storage@.len() && storage_entry_pred(x)(self.storage@[j])
                    implies j < t.len() && self.storage@[j] == t[j] by {
                    if j == i {
                        assert(self.storage@[j].0 == k);
                    }
                }
                lemma_first_match_frame(t, self.storage@, storage_entry_pred(x), 0);
                lemma_first_match(t, storage_entry_pred(x), 0);
            }
            lemma_first_match(self.storage@, storage_entry_pred(k), 0);
            if i < t.len() {
                assert(storage_entry_pred(k)(self.storage@[i as int]));
                assert(first_match(self.storage@, storage_entry_pred(k), 0) == Some(i as int)) by {
                    if first_match(self.storage@, storage_entry_pred(k), 0) != Some(i as int) {
                        let j = first_match(self.storage@, storage_entry_pred(k), 0)->Some_0;
                        assert(self.storage@[j] == t[j]);
                    }
                }
            } else {
                assert(storage_entry_pred(k)(self.storage@[i as int]));
            }
        }
    }

    /// Records the code hash of `a` at incarnation `inc`.
    pub fn put_code_hash(&mut self, a: Address, inc: u64, h: H256)
        ensures
            final(self).code_hashes() == old(self).code_hashes().push((a, inc, h)),
            final(self).account_index() == old(self).account_index(),
            final(self).account_changes() == old(self).account_changes(),
            final(self).storage_index() == old(self).storage_index(),
            final(self).storage_changes() == old(self).storage_changes(),
            final(self).accounts() == old(self).accounts(),
            final(self).storage() == old(self).storage(),
    {
        self.code_hashes.push((a, inc, h));
    }

    /// Adds block `block` to the index of account `a`: to the chunk where a
    /// seek for `a ‖ block` lands, where that chunk is `a`'s, or else as a
    /// chunk of its own.
    fn index_account_block(&mut self, a: Address, block: u64)
        ensures
            account_index_shape(old(self).account_index(), old(self).account_changes())
                && has_account_change(old(self).account_changes(), a, block)
                ==> account_index_shape(final(self).account_index(), final(self).account_changes()),
            forall|x: Address, n: u64| account_indexed(old(self).account_index(), x, n)
                ==> #[trigger] account_indexed(final(self).account_index(), x, n),
            account_indexed(final(self).account_index(), a, block),
            final(self).account_changes() == old(self).account_changes(),
            final(self).accounts() == old(self).accounts(),
            final(self).storage_index() == old(self).storage_index(),
            final(self).storage_changes() == old(self).storage_changes(),
            final(self).storage() == old(self).storage(),
            final(self).code_hashes() == old(self).code_hashes(),
    {
        let ghost cs = self.account_changes@;
        let mut i: usize = 0;
        let mut found = false;
        while i < self.account_history.len() && !found
            invariant
                i <= self.account_history@.len(),
                first_match(self.account_history@, seek_account_pred(a, block), i as int)
                    == first_match(self.account_history@, seek_account_pred(a, block), 0),
                found ==> i < self.account_history@.len()
                    && seek_account_pred(a, block)(self.account_history@[i as int]),
            decreases self.account_history@.len() - i, (if found { 0int } else { 1int }),
        {
            let c = &self.account_history[i];
            if addr_less(&a, &c.address) || (c.address == a && c.upper_bound >= block) {
                found = true;
            } else {
                i = i + 1;
            }
        }
        let ghost t0 = self.account_history@;
        proof {
            lemma_first_match(t0, seek_account_pred(a, block), i as int);
            lemma_first_match(t0, seek_account_pred(a, block), 0);
            if i < t0.len() {
                assert(first_match(t0, seek_account_pred(a, block), i as int) == Some(i as int));
            }
            assert forall|j: int| 0 <= j < i implies !seek_account_pred(a, block)(#[trigger] t0[j]) by {}
        }
        if i < self.account_history.len() && self.account_history[i].address == a {
            let mut c = self.account_history.remove(i);
            let ghost c0 = c;
            proof {
                assert(c0 == t0[i as int]);
            }
            insert_block(&mut c.blocks, block);
            let ghost c1 = c;
            self.account_history.insert(i, c);
            proof {
                let t1 = self.account_history@;
                assert(t1 =~= t0.update(i as int, c1));
                assert(t1[i as int].blocks@.contains(block));
                assert(account_indexed(t1, a, block));
                assert forall|x: Address, n: u64| account_indexed(t0, x, n)
                    implies #[trigger] account_indexed(t1, x, n) by {
                    let j = choose|j: int| 0 <= j < t0.len() && t0[j].address == x && t0[j].blocks@.contains(n);
                    assert(t1[j].address == x && t1[j].blocks@.contains(n));
                }
                if account_index_shape(t0, cs) && has_account_change(cs, a, block) {
                    assert(account_chunk_ok(cs, t0[i as int]));
                    assert(block <= c0.upper_bound);
                    assert(account_chunk_ok(cs, c1)) by {
                        assert forall|k: int| 0 <= k < c1.blocks@.len() implies
                            has_account_change(cs, c1.address, #[trigger] c1.blocks@[k]) by {
                            assert(c1.blocks@.contains(c1.blocks@[k]));
                            if c1.blocks@[k] != block {
                                let q = choose|q: int| 0 <= q < c0.blocks@.len() && c0.blocks@[q] == c1.blocks@[k];
                                assert(has_account_change(cs, c0.address, c0.blocks@[q]));
                            }
                        }
                    }
                    assert forall|x: int| 0 <= x < t1.len() implies account_chunk_ok(cs, #[trigger] t1[x]) by {
                        if x != i {
                            assert(t1[x] == t0[x]);
                        }
                    }
                    assert forall|x: int, y: int, k: int| 0 <= x < y < t1.len() && t1[x].address == t1[y].address
                        && 0 <= k < t1[y].blocks@.len() implies #[trigger] t1[y].blocks@[k] > #[trigger] t1[x].upper_bound by {
                        if y == i {
                            assert(t1[x] == t0[x]);
                            assert(!seek_account_pred(a, block)(t0[x]));
                            let v = t1[y].blocks@[k];
                            assert(c1.blocks@.contains(v));
                            if v != block {
                                let q = choose|q: int| 0 <= q < c0.blocks@.len() && c0.blocks@[q] == v;
                                assert(t0[y].blocks@[q] > t0[x].upper_bound);
                            }
                        } else if x == i {
                            assert(t1[y] == t0[y]);
                            assert(t0[y].blocks@[k] > t0[x].upper_bound);
                        } else {
                            assert(t1[x] == t0[x] && t1[y] == t0[y]);
                            assert(t0[y].blocks@[k] > t0[x].upper_bound);
                        }
                    }
                    assert forall|x: int, y: int| 0 <= x < y < t1.len() implies
                        account_key_lt(t1[x].address, t1[x].upper_bound, t1[y].address, t1[y].upper_bound) by {
                        assert(t1[x].address == t0[x].address && t1[x].upper_bound == t0[x].upper_bound);
                        assert(t1[y].address == t0[y].address && t1[y].upper_bound == t0[y].upper_bound);
                    }
                }
            }
        } else {
            let mut blocks: Vec<u64> = Vec::new();
            blocks.push(block);
            assert(blocks@ =~= seq![block]);
            let c = AccountChunk { address: a, upper_bound: block, blocks };
            let ghost c1 = c;
            self.account_history.insert(i, c);
            proof {
                let t1 = self.account_history@;
                assert(t1[i as int] == c1);
                assert(c1.blocks@[0] == block);
                assert(t1[i as int].blocks@.contains(block));
                assert(account_indexed(t1, a, block));
                assert forall|x: Address, n: u64| account_indexed(t0, x, n)
                    implies #[trigger] account_indexed(t1, x, n) by {
                    let j = choose|j: int| 0 <= j < t0.len() && t0[j].address == x && t0[j].blocks@.contains(n);
                    if j < i {
                        assert(t1[j] == t0[j]);
                    } else {
                        assert(t1[j + 1] == t0[j]);
                    }
                }
                if account_index_shape(t0, cs) && has_account_change(cs, a, block) {
                    assert(account_chunk_ok(cs, c1));
                    assert forall|x: int| 0 <= x < t1.len() implies account_chunk_ok(cs, #[trigger] t1[x]) by {
                        if x < i {
                            assert(t1[x] == t0[x]);
                        } else if x > i {
                            assert(t1[x] == t0[x - 1]);
                        }
                    }
                    assert forall|x: int, y: int| 0 <= x < y < t1.len() implies
                        account_key_lt(t1[x].address, t1[x].upper_bound, t1[y].address, t1[y].upper_bound) by {
                        if y < i {
                            assert(t1[x] == t0[x] && t1[y] == t0[y]);
                        } else if x > i {
                            assert(t1[x] == t0[x - 1] && t1[y] == t0[y - 1]);
                        } else if x == i {
                            assert(t1[y] == t0[y - 1]);
                            assert(seek_account_pred(a, block)(t0[i as int]));
                            if y - 1 > i {
                                assert(account_key_lt(t0[i as int].address, t0[i as int].upper_bound,
                                    t0[y - 1].address, t0[y - 1].upper_bound));
                            }
                        } else if y == i {
                            assert(t1[x] == t0[x]);
                        } else {
                            assert(t1[x] == t0[x] && t1[y] == t0[y - 1]);
                            assert(seek_account_pred(a, block)(t0[i as int]));
                        }
                    }
                    assert forall|x: int, y: int, k: int| 0 <= x < y < t1.len() && t1[x].address == t1[y].address
                        && 0 <= k < t1[y].blocks@.len() implies #[trigger] t1[y].blocks@[k] > #[trigger] t1[x].upper_bound by {
                        if y < i {
                            assert(t1[x] == t0[x] && t1[y] == t0[y]);
                            assert(t0[y].blocks@[k] > t0[x].upper_bound);
                        } else if y == i {
                            assert(t1[x] == t0[x]);
                            assert(!seek_account_pred(a, block)(t0[x]));
                        } else if x == i {
                            assert(t1[y] == t0[y - 1]);
                            assert(seek_account_pred(a, block)(t0[i as int]));
                            assert(t0[i as int].address != a);
                            if y - 1 > i {
                                assert(account_key_lt(t0[i as int].address, t0[i as int].upper_bound,
                                    t0[y - 1].address, t0[y - 1].upper_bound));
                            }
                        } else if x < i {
                            assert(t1[x] == t0[x] && t1[y] == t0[y - 1]);
                            assert(t0[y - 1].blocks@[k] > t0[x].upper_bound);
                        } else {
                            assert(t1[x] == t0[x - 1] && t1[y] == t0[y - 1]);
                            assert(t0[y - 1].blocks@[k] > t0[x - 1].upper_bound);
                        }
                    }
                }
            }
        }
    }

    /// Records that account `a` takes value `v` in block `block`: the value
    /// before the block goes to the change-set, unless the block already
    /// changed `a`; the block goes to the index; `v` becomes current.
    pub fn write_account(&mut self, block: u64, a: Address, v: Option<Account>)
        ensures
            plain_account(final(self).accounts(), a) == v,
            forall|x: Address| x != a ==> plain_account(final(self).accounts(), x) == plain_account(old(self).accounts(), x),
            final(self).account_changes() == (if account_change(old(self).account_changes(), block, a) is Some {
                old(self).account_changes()
            } else {
                old(self).account_changes().push(AccountChange {
                    block,
                    address: a,
                    prev: plain_account(old(self).accounts(), a),
                })
            }),
            account_indexed(final(self).account_index(), a, block),
            old(self).account_index_ok() ==> final(self).account_index_ok(),
            final(self).storage_index() == old(self).storage_index(),
            final(self).storage_changes() == old(self).storage_changes(),
            final(self).storage() == old(self).storage(),
            final(self).code_hashes() == old(self).code_hashes(),
    {
        let prev = self.get_account(a);
        let ghost cs0 = self.account_changes@;
        let ghost t0 = self.account_history@;
        if find_account_change(self, block, a).is_none() {
            self.account_changes.push(AccountChange { block, address: a, prev });
        }
        let ghost cs1 = self.account_changes@;
        proof {
            lemma_has_account_change(cs1, a, block);
            if cs1 != cs0 {
                assert(cs1[cs0.len() as int].block == block);
            } else {
                lemma_has_account_change(cs0, a, block);
            }
            assert forall|x: Address, n: u64| has_account_change(cs0, x, n) implies has_account_change(cs1, x, n) by {
                lemma_has_account_change(cs0, x, n);
                lemma_has_account_change(cs1, x, n);
                let k = choose|k: int| 0 <= k < cs0.len() && (#[trigger] cs0[k]).block == n && cs0[k].address == x;
                assert(cs1[k] == cs0[k]);
            }
            if account_index_shape(t0, cs0) {
                assert forall|x: int| 0 <= x < t0.len() implies account_chunk_ok(cs1, #[trigger] t0[x]) by {
                    assert(account_chunk_ok(cs0, t0[x]));
                    assert forall|k: int| 0 <= k < t0[x].blocks@.len() implies
                        has_account_change(cs1, t0[x].address, #[trigger] t0[x].blocks@[k]) by {
                        assert(has_account_change(cs0, t0[x].address, t0[x].blocks@[k]));
                    }
                }
            }
        }
        self.index_account_block(a, block);
        proof {
            let t1 = self.account_history@;
            if old(self).account_index_ok() {
                assert forall|k: int| 0 <= k < cs1.len() implies
                    account_indexed(t1, (#[trigger] cs1[k]).address, cs1[k].block) by {
                    if k < cs0.len() {
                        assert(cs1[k] == cs0[k]);
                        assert(account_indexed(t0, cs0[k].address, cs0[k].block));
                    }
                }
            }
        }
        self.put_account(a, v);
    }

    /// Adds block `block` to the index of slot `sl` of `a`: to the chunk
    /// where a seek for `a ‖ sl ‖ block` lands, where that chunk is the
    /// slot's, or else as a chunk of its own.
    fn index_storage_block(&mut self, a: Address, sl: H256, block: u64)
        ensures
            storage_index_shape(old(self).storage_index(), old(self).storage_changes())
                && has_slot_change(old(self).storage_changes(), a, sl, block)
                ==> storage_index_shape(final(self).storage_index(), final(self).storage_changes()),
            forall|x: Address, y: H256, n: u64| storage_indexed(old(self).storage_index(), x, y, n)
                ==> #[trigger] storage_indexed(final(self).storage_index(), x, y, n),
            storage_indexed(final(self).storage_index(), a, sl, block),
            final(self).storage_changes() == old(self).storage_changes(),
            final(self).storage() == old(self).storage(),
            final(self).account_index() == old(self).account_index(),
            final(self).account_changes() == old(self).account_changes(),
            final(self).accounts() == old(self).accounts(),
            final(self).code_hashes() == old(self).code_hashes(),
    {
        let ghost cs = self.storage_changes@;
        let mut i: usize = 0;
        let mut found = false;
        while i < self.storage_history.len() && !found
            invariant
                i <= self.storage_history@.len(),
                first_match(self.storage_history@, seek_storage_pred(a, sl, block), i as int)
                    == first_match(self.storage_history@, seek_storage_pred(a, sl, block), 0),
                found ==> i < self.storage_history@.len()
                    && seek_storage_pred(a, sl, block)(self.storage_history@[i as int]),
            decreases self.storage_history@.len() - i, (if found { 0int } else { 1int }),
        {
            let c = &self.storage_history[i];
            if addr_less(&a, &c.address) || (c.address == a && (hash_less(&sl, &c.slot)
                || (c.slot == sl && c.upper_bound >= block))) {
                found = true;
            } else {
                i = i + 1;
            }
        }
        let ghost t0 = self.storage_history@;
        proof {
            lemma_first_match(t0, seek_storage_pred(a, sl, block), i as int);
            lemma_first_match(t0, seek_storage_pred(a, sl, block), 0);
            if i < t0.len() {
                assert(first_match(t0, seek_storage_pred(a, sl, block), i as int) == Some(i as int));
            }
            assert forall|j: int| 0 <= j < i implies !seek_storage_pred(a, sl, block)(#[trigger] t0[j]) by {}
        }
        if i < self.storage_history.len() && self.storage_history[i].address == a && self.storage_history[i].slot == sl {
            let mut c = self.storage_history.remove(i);
            let ghost c0 = c;
            proof {
                assert(c0 == t0[i as int]);
            }
            insert_block(&mut c.blocks, block);
            let ghost c1 = c;
            self.storage_history.insert(i, c);
            proof {
                let t1 = self.storage_history@;
                assert(t1 =~= t0.update(i as int, c1));
                assert(t1[i as int].blocks@.contains(block));
                assert(storage_indexed(t1, a, sl, block));
                assert forall|x: Address, y: H256, n: u64| storage_indexed(t0, x, y, n)
                    implies #[trigger] storage_indexed(t1, x, y, n) by {
                    let j = choose|j: int| 0 <= j < t0.len() && t0[j].address == x && t0[j].slot == y && t0[j].blocks@.contains(n);
                    assert(t1[j].address == x && t1[j].slot == y && t1[j].blocks@.contains(n));
                }
                if storage_index_shape(t0, cs) && has_slot_change(cs, a, sl, block) {
                    assert(storage_chunk_ok(cs, t0[i as int]));
                    assert(block <= c0.upper_bound);
                    assert(storage_chunk_ok(cs, c1)) by {
                        assert forall|k: int| 0 <= k < c1.blocks@.len() implies
                            has_slot_change(cs, c1.address, c1.slot, #[trigger] c1.blocks@[k]) by {
                            assert(c1.blocks@.contains(c1.blocks@[k]));
                            if c1.blocks@[k] != block {
                                let q = choose|q: int| 0 <= q < c0.blocks@.len() && c0.blocks@[q] == c1.blocks@[k];
                                assert(has_slot_change(cs, c0.address, c0.slot, c0.blocks@[q]));
                            }
                        }
                    }
                    assert forall|x: int| 0 <= x < t1.len() implies storage_chunk_ok(cs, #[trigger] t1[x]) by {
                        if x != i {
                            assert(t1[x] == t0[x]);
                        }
                    }
                    assert forall|x: int, y: int, k: int| 0 <= x < y < t1.len() && t1[x].address == t1[y].address
                        && t1[x].slot == t1[y].slot && 0 <= k < t1[y].blocks@.len() implies #[trigger] t1[y].blocks@[k] > #[trigger] t1[x].upper_bound by {
                        if y == i {
                            assert(t1[x] == t0[x]);
                            assert(!seek_storage_pred(a, sl, block)(t0[x]));
                            let v = t1[y].blocks@[k];
                            assert(c1.blocks@.contains(v));
                            if v != block {
                                let q = choose|q: int| 0 <= q < c0.blocks@.len() && c0.blocks@[q] == v;
                                assert(t0[y].blocks@[q] > t0[x].upper_bound);
                            }
                        } else if x == i {
                            assert(t1[y] == t0[y]);
                            assert(t0[y].blocks@[k] > t0[x].upper_bound);
                        } else {
                            assert(t1[x] == t0[x] && t1[y] == t0[y]);
                            assert(t0[y].blocks@[k] > t0[x].upper_bound);
                        }
                    }
                    assert forall|x: int, y: int| 0 <= x < y < t1.len() implies
                        storage_key_lt(t1[x].address, t1[x].slot, t1[x].upper_bound, t1[y].address, t1[y].slot, t1[y].upper_bound) by {
                        assert(t1[x].address == t0[x].address && t1[x].slot == t0[x].slot && t1[x].upper_bound == t0[x].upper_bound);
                        assert(t1[y].address == t0[y].address && t1[y].slot == t0[y].slot && t1[y].upper_bound == t0[y].upper_bound);
                    }
                }
            }
        } else {
            let mut blocks: Vec<u64> = Vec::new();
            blocks.push(block);
            assert(blocks@ =~= seq![block]);
            let c = StorageChunk { address: a, slot: sl, upper_bound: block, blocks };
            let ghost c1 = c;
            self.storage_history.insert(i, c);
            proof {
                let t1 = self.storage_history@;
                assert(t1[i as int] == c1);
                assert(c1.blocks@[0] == block);
                assert(t1[i as int].blocks@.contains(block));
                assert(storage_indexed(t1, a, sl, block));
                assert forall|x: Address, y: H256, n: u64| storage_indexed(t0, x, y, n)
                    implies #[trigger] storage_indexed(t1, x, y, n) by {
                    let j = choose|j: int| 0 <= j < t0.len() && t0[j].address == x && t0[j].slot == y && t0[j].blocks@.contains(n);
                    if j < i {
                        assert(t1[j] == t0[j]);
                    } else {
                        assert(t1[j + 1] == t0[j]);
                    }
                }
                if storage_index_shape(t0, cs) && has_slot_change(cs, a, sl, block) {
                    assert(storage_chunk_ok(cs, c1));
                    assert forall|x: int| 0 <= x < t1.len() implies storage_chunk_ok(cs, #[trigger] t1[x]) by {
                        if x < i {
                            assert(t1[x] == t0[x]);
                        } else if x > i {
                            assert(t1[x] == t0[x - 1]);
                        }
                    }
                    assert forall|x: int, y: int| 0 <= x < y < t1.len() implies
                        storage_key_lt(t1[x].address, t1[x].slot, t1[x].upper_bound, t1[y].address, t1[y].slot, t1[y].upper_bound) by {
                        if y < i {
                            assert(t1[x] == t0[x] && t1[y] == t0[y]);
                        } else if x > i {
                            assert(t1[x] == t0[x - 1] && t1[y] == t0[y - 1]);
                        } else if x == i {
                            assert(t1[y] == t0[y - 1]);
                            assert(seek_storage_pred(a, sl, block)(t0[i as int]));
                            if y - 1 > i {
                                assert(storage_key_lt(t0[i as int].address, t0[i as int].slot, t0[i as int].upper_bound,
                                    t0[y - 1].address, t0[y - 1].slot, t0[y - 1].upper_bound));
                            }
                        } else if y == i {
                            assert(t1[x] == t0[x]);
                        } else {
                            assert(t1[x] == t0[x] && t1[y] == t0[y - 1]);
                            assert(seek_storage_pred(a, sl, block)(t0[i as int]));
                        }
                    }
                    assert forall|x: int, y: int, k: int| 0 <= x < y < t1.len() && t1[x].address == t1[y].address
                        && t1[x].slot == t1[y].slot && 0 <= k < t1[y].blocks@.len() implies #[trigger] t1[y].blocks@[k] > #[trigger] t1[x].upper_bound by {
                        if y < i {
                            assert(t1[x] == t0[x] && t1[y] == t0[y]);
                            assert(t0[y].blocks@[k] > t0[x].upper_bound);
                        } else if y == i {
                            assert(t1[x] == t0[x]);
                            assert(!seek_storage_pred(a, sl, block)(t0[x]));
                        } else if x == i {
                            assert(t1[y] == t0[y - 1]);
                            assert(seek_storage_pred(a, sl, block)(t0[i as int]));
                            assert(!(t0[i as int].address == a && t0[i as int].slot == sl));
                            if y - 1 > i {
                                assert(storage_key_lt(t0[i as int].address, t0[i as int].slot, t0[i as int].upper_bound,
                                    t0[y - 1].address, t0[y - 1].slot, t0[y - 1].upper_bound));
                            }
                        } else if x < i {
                            assert(t1[x] == t0[x] && t1[y] == t0[y - 1]);
                            assert(t0[y - 1].blocks@[k] > t0[x].upper_bound);
                        } else {
                            assert(t1[x] == t0[x - 1] && t1[y] == t0[y - 1]);
                            assert(t0[y - 1].blocks@[k] > t0[x - 1].upper_bound);
                        }
                    }
                }
            }
        }
    }

    /// Records that storage slot `k` takes value `v` in block `block`: the
    /// value before the block goes to the change-set, unless the block
    /// already changed `k`; the block goes to the slot's index; `v` becomes
    /// current.
    pub fn write_storage(&mut self, block: u64, k: StorageKey, v: Option<Word>)
        ensures
            plain_storage(final(self).storage(), k) == v,
            forall|x: StorageKey| x != k ==> plain_storage(final(self).storage(), x) == plain_storage(old(self).storage(), x),
            final(self).storage_changes() == (if storage_change(old(self).storage_changes(), block, k) is Some {
                old(self).storage_changes()
            } else {
                old(self).storage_changes().push(StorageChange {
                    block,
                    key: k,
                    prev: plain_storage(old(self).storage(), k),
                })
            }),
            storage_indexed(final(self).storage_index(), k.address, k.slot, block),
            old(self).storage_index_ok() ==> final(self).storage_index_ok(),
            final(self).account_index() == old(self).account_index(),
            final(self).account_changes() == old(self).account_changes(),
            final(self).accounts() == old(self).accounts(),
            final(self).code_hashes() == old(self).code_hashes(),
    {
        let prev = self.get_storage(k);
        let ghost cs0 = self.storage_changes@;
        let ghost t0 = self.storage_history@;
        if find_storage_change(self, block, k).is_none() {
            self.storage_changes.push(StorageChange { block, key: k, prev });
        }
        let ghost cs1 = self.storage_changes@;
        proof {
            lemma_storage_change(cs0, k, block);
            lemma_has_slot_change(cs1, k.address, k.slot, block);
            if cs1 != cs0 {
                assert(cs1[cs0.len() as int].block == block);
            } else {
                let j = choose|j: int| 0 <= j < cs0.len() && (#[trigger] cs0[j]).block == block && cs0[j].key == k;
                assert(cs1[j].key.address == k.address);
            }
            assert forall|x: Address, y: H256, n: u64| has_slot_change(cs0, x, y, n) implies has_slot_change(cs1, x, y, n) by {
                lemma_has_slot_change(cs0, x, y, n);
                lemma_has_slot_change(cs1, x, y, n);
                let j = choose|j: int| 0 <= j < cs0.len() && (#[trigger] cs0[j]).block == n && cs0[j].key.address == x
                    && cs0[j].key.slot == y;
                assert(cs1[j] == cs0[j]);
            }
            if storage_index_shape(t0, cs0) {
                assert forall|x: int| 0 <= x < t0.len() implies storage_chunk_ok(cs1, #[trigger] t0[x]) by {
                    assert(storage_chunk_ok(cs0, t0[x]));
                    assert forall|q: int| 0 <= q < t0[x].blocks@.len() implies
                        has_slot_change(cs1, t0[x].address, t0[x].slot, #[trigger] t0[x].blocks@[q]) by {
                        assert(has_slot_change(cs0, t0[x].address, t0[x].slot, t0[x].blocks@[q]));
                    }
                }
            }
        }
        self.index_storage_block(k.address, k.slot, block);
        proof {
            let t1 = self.storage_history@;
            if old(self).storage_index_ok() {
                assert forall|j: int| 0 <= j < cs1.len() implies
                    storage_indexed(t1, (#[trigger] cs1[j]).key.address, cs1[j].key.slot, cs1[j].block) by {
                    if j < cs0.len() {
                        assert(cs1[j] == cs0[j]);
                        assert(storage_indexed(t0, cs0[j].key.address, cs0[j].key.slot, cs0[j].block));
                    }
                }
            }
        }
        self.put_storage(k, v);
    }
}

/// The key `a1 ‖ n1` comes before the key `a2 ‖ n2`.
pub open spec fn account_key_lt(a1: Address, n1: u64, a2: Address, n2: u64) -> bool {
    addr_lt(a1, a2) || (a1 == a2 && n1 < n2)
}

/// Whether the change-sets record a change of `a` in block `n`.
pub open spec fn has_account_change(cs: Seq<AccountChange>, a: Address, n: u64) -> bool {
    account_change(cs, n, a) is Some
}

/// Whether `n` is the first block at or after `b` in which `a` changed.
pub open spec fn is_first_account_change(cs: Seq<AccountChange>, a: Address, b: u64, n: u64) -> bool {
    &&& n >= b
    &&& has_account_change(cs, a, n)
    &&& forall|m: u64| m >= b && has_account_change(cs, a, m) ==> n <= m
}

/// Whether a chunk's blocks ascend, end at its upper bound, and each
/// changed the chunk's account.
pub open spec fn account_chunk_ok(cs: Seq<AccountChange>, c: AccountChunk) -> bool {
    &&& c.blocks@.len() > 0
    &&& ascending(c.blocks@)
    &&& c.blocks@.last() == c.upper_bound
    &&& forall|k: int| 0 <= k < c.blocks@.len() ==> has_account_change(cs, c.address, #[trigger] c.blocks@[k])
}

/// The order and contents of an account index.
pub open spec fn account_index_shape(t: Seq<AccountChunk>, cs: Seq<AccountChange>) -> bool {
    &&& forall|i: int, j: int| 0 <= i < j < t.len()
        ==> account_key_lt(t[i].address, t[i].upper_bound, t[j].address, t[j].upper_bound)
    &&& forall|i: int| 0 <= i < t.len() ==> account_chunk_ok(cs, #[trigger] t[i])
    &&& forall|i: int, j: int, k: int| 0 <= i < j < t.len() && t[i].address == t[j].address
        && 0 <= k < t[j].blocks@.len() ==> #[trigger] t[j].blocks@[k] > #[trigger] t[i].upper_bound
}

/// Whether some chunk of account `x` holds block `n`.
pub open spec fn account_indexed(t: Seq<AccountChunk>, x: Address, n: u64) -> bool {
    exists|i: int| 0 <= i < t.len() && t[i].address == x && t[i].blocks@.contains(n)
}

/// Whether every account change-set entry is found in a chunk.
pub open spec fn account_index_covers(t: Seq<AccountChunk>, cs: Seq<AccountChange>) -> bool {
    forall|k: int| 0 <= k < cs.len() ==> account_indexed(t, (#[trigger] cs[k]).address, cs[k].block)
}

impl StateDb {
    /// The account index as the history layout keeps it: keys strictly
    /// ascending; each chunk's blocks ascending, ending at its upper bound
    /// and backed by change-set entries; a later chunk of an account holding
    /// only blocks above an earlier one's upper bound; and every change-set
    /// entry found in a chunk.
    pub open spec fn account_index_ok(&self) -> bool {
        &&& account_index_shape(self.account_index(), self.account_changes())
        &&& account_index_covers(self.account_index(), self.account_changes())
    }

    /// The value that account `a` held at block `b`: the value before the
    /// first change at or after `b`, or the current value where there is
    /// none.
    pub open spec fn account_value_at(&self, a: Address, b: u64) -> Option<Account> {
        let cs = self.account_changes();
        if exists|n: u64| is_first_account_change(cs, a, b, n) {
            let n = choose|n: u64| is_first_account_change(cs, a, b, n);
            self.rehydrate(a, account_change(cs, n, a)->Some_0)
        } else {
            plain_account(self.accounts(), a)
        }
    }
}

/// A change is recorded exactly where some change-set entry holds it.
pub proof fn lemma_has_account_change(cs: Seq<AccountChange>, a: Address, n: u64)
    ensures
        has_account_change(cs, a, n) <==> exists|k: int| 0 <= k < cs.len() && (#[trigger] cs[k]).block == n
            && cs[k].address == a,
{
    lemma_first_match(cs, account_change_pred(n, a), 0);
    if exists|k: int| 0 <= k < cs.len() && (#[trigger] cs[k]).block == n && cs[k].address == a {
        let k = choose|k: int| 0 <= k < cs.len() && (#[trigger] cs[k]).block == n && cs[k].address == a;
        assert(account_change_pred(n, a)(cs[k]));
    }
}

/// The value of an account at a block, read through the history index, is
/// the value before the first change at or after that block, or the
/// current value where the account has not changed since.
pub proof fn lemma_account_history_correct(db: &StateDb, a: Address, b: u64)
    requires
        db.account_index_ok(),
    ensures
        (match db.account_history_at(a, b) {
            Some(v) => v,
            None => plain_account(db.accounts(), a),
        }) == db.account_value_at(a, b),
{
    let t = db.account_index();
    let cs = db.account_changes();
    lemma_first_match(t, seek_account_pred(a, b), 0);
    if exists|n: u64| n >= b && has_account_change(cs, a, n) {
        let n0 = choose|n: u64| n >= b && has_account_change(cs, a, n);
        lemma_has_account_change(cs, a, n0);
        let k0 = choose|k: int| 0 <= k < cs.len() && (#[trigger] cs[k]).block == n0 && cs[k].address == a;
        assert(account_indexed(t, cs[k0].address, cs[k0].block));
        let i0 = choose|i: int| 0 <= i < t.len() && t[i].address == cs[k0].address && t[i].blocks@.contains(cs[k0].block);
        assert(account_chunk_ok(cs, t[i0]));
        lemma_ascending_last(t[i0].blocks@, n0);
        assert(seek_account_pred(a, b)(t[i0]));
        let i = account_seek(t, a, b)->Some_0;
        assert(i <= i0);
        if i < i0 {
            assert(account_key_lt(t[i].address, t[i].upper_bound, t[i0].address, t[i0].upper_bound));
        }
        assert(t[i].address == a);
        assert(account_chunk_ok(cs, t[i]));
        let bl = t[i].blocks@;
        let ub = t[i].upper_bound;
        assert(ub >= b);
        assert(at_least_pred(b)(bl[bl.len() - 1]));
        lemma_first_match(bl, at_least_pred(b), 0);
        let p = first_match(bl, at_least_pred(b), 0)->Some_0;
        let m = bl[p];
        assert(first_at_least(bl, b) == Some(m));
        assert(has_account_change(cs, a, m));
        assert(bl.contains(m));
        lemma_ascending_last(bl, m);
        assert forall|m2: u64| m2 >= b && has_account_change(cs, a, m2) implies m <= m2 by {
            lemma_has_account_change(cs, a, m2);
            let k = choose|k: int| 0 <= k < cs.len() && (#[trigger] cs[k]).block == m2 && cs[k].address == a;
            assert(account_indexed(t, cs[k].address, cs[k].block));
            let j = choose|j: int| 0 <= j < t.len() && t[j].address == cs[k].address && t[j].blocks@.contains(cs[k].block);
            assert(account_chunk_ok(cs, t[j]));
            lemma_ascending_last(t[j].blocks@, m2);
            assert(seek_account_pred(a, b)(t[j]));
            assert(i <= j);
            if i < j {
                let q = choose|q: int| 0 <= q < t[j].blocks@.len() && t[j].blocks@[q] == m2;
                assert(t[j].blocks@[q] > t[i].upper_bound);
            } else {
                let q = choose|q: int| 0 <= q < bl.len() && bl[q] == m2;
                assert(at_least_pred(b)(bl[q]));
                assert(p <= q);
                if p < q {
                    assert(bl[p] < bl[q]);
                }
            }
        }
        assert(is_first_account_change(cs, a, b, m));
        let n = choose|n: u64| is_first_account_change(cs, a, b, n);
        assert(n == m);
    } else {
        assert(!exists|n: u64| is_first_account_change(cs, a, b, n));
        match account_seek(t, a, b) {
            Some(i) => {
                if t[i].address == a {
                    assert(account_chunk_ok(cs, t[i]));
                    let bl = t[i].blocks@;
                    assert(at_least_pred(b)(bl[bl.len() - 1]));
                    lemma_first_match(bl, at_least_pred(b), 0);
                    let p = first_match(bl, at_least_pred(b), 0)->Some_0;
                    assert(has_account_change(cs, a, bl[p]));
                }
            },
            None => {},
        }
    }
}

/// The key `a1 ‖ s1 ‖ n1` comes before the key `a2 ‖ s2 ‖ n2`.
pub open spec fn storage_key_lt(a1: Address, s1: H256, n1: u64, a2: Address, s2: H256, n2: u64) -> bool {
    addr_lt(a1, a2) || (a1 == a2 && (hash_lt(s1, s2) || (s1 == s2 && n1 < n2)))
}

/// Whether the change-sets record a change of slot `s` of `a`, at any
/// incarnation, in block `n`.
pub open spec fn has_slot_change(cs: Seq<StorageChange>, a: Address, s: H256, n: u64) -> bool {
    first_match(cs, slot_change_pred(a, s, n), 0) is Some
}

/// A change-set entry of slot `s` of `a`, at any incarnation, in block `n`.
pub open spec fn slot_change_pred(a: Address, s: H256, n: u64) -> spec_fn(StorageChange) -> bool {
    |c: StorageChange| c.block == n && c.key.address == a && c.key.slot == s
}

/// A change of a slot is recorded exactly where some change-set entry holds it.
pub proof fn lemma_has_slot_change(cs: Seq<StorageChange>, a: Address, s: H256, n: u64)
    ensures
        has_slot_change(cs, a, s, n) <==> exists|k: int| 0 <= k < cs.len() && (#[trigger] cs[k]).block == n
            && cs[k].key.address == a && cs[k].key.slot == s,
{
    lemma_first_match(cs, slot_change_pred(a, s, n), 0);
    if exists|k: int| 0 <= k < cs.len() && (#[trigger] cs[k]).block == n && cs[k].key.address == a && cs[k].key.slot == s {
        let k = choose|k: int| 0 <= k < cs.len() && (#[trigger] cs[k]).block == n && cs[k].key.address == a
            && cs[k].key.slot == s;
        assert(slot_change_pred(a, s, n)(cs[k]));
    }
}

/// Whether every change of slot `k.slot` of `k.address` is at incarnation
/// `k.incarnation`.
pub open spec fn single_incarnation(cs: Seq<StorageChange>, k: StorageKey) -> bool {
    forall|j: int| 0 <= j < cs.len() && (#[trigger] cs[j]).key.address == k.address && cs[j].key.slot == k.slot
        ==> cs[j].key.incarnation == k.incarnation
}

/// Whether `n` is the first block at or after `b` in which slot `k` changed.
pub open spec fn is_first_storage_change(cs: Seq<StorageChange>, k: StorageKey, b: u64, n: u64) -> bool {
    &&& n >= b
    &&& storage_change(cs, n, k) is Some
    &&& forall|m: u64| m >= b && (storage_change(cs, m, k) is Some) ==> n <= m
}

/// Whether a chunk's blocks ascend, end at its upper bound, and each
/// changed the chunk's slot.
pub open spec fn storage_chunk_ok(cs: Seq<StorageChange>, c: StorageChunk) -> bool {
    &&& c.blocks@.len() > 0
    &&& ascending(c.blocks@)
    &&& c.blocks@.last() == c.upper_bound
    &&& forall|k: int| 0 <= k < c.blocks@.len() ==> has_slot_change(cs, c.address, c.slot, #[trigger] c.blocks@[k])
}

/// The order and contents of a storage index.
pub open spec fn storage_index_shape(t: Seq<StorageChunk>, cs: Seq<StorageChange>) -> bool {
    &&& forall|i: int, j: int| 0 <= i < j < t.len()
        ==> storage_key_lt(t[i].address, t[i].slot, t[i].upper_bound, t[j].address, t[j].slot, t[j].upper_bound)
    &&& forall|i: int| 0 <= i < t.len() ==> storage_chunk_ok(cs, #[trigger] t[i])
    &&& forall|i: int, j: int, k: int| 0 <= i < j < t.len() && t[i].address == t[j].address && t[i].slot == t[j].slot
        && 0 <= k < t[j].blocks@.len() ==> #[trigger] t[j].blocks@[k] > #[trigger] t[i].upper_bound
}

/// Whether some chunk of slot `sl` of `x` holds block `n`.
pub open spec fn storage_indexed(t: Seq<StorageChunk>, x: Address, sl: H256, n: u64) -> bool {
    exists|i: int| 0 <= i < t.len() && t[i].address == x && t[i].slot == sl && t[i].blocks@.contains(n)
}

/// Whether every storage change-set entry is found in a chunk.
pub open spec fn storage_index_covers(t: Seq<StorageChunk>, cs: Seq<StorageChange>) -> bool {
    forall|k: int| 0 <= k < cs.len() ==> storage_indexed(t, (#[trigger] cs[k]).key.address, cs[k].key.slot, cs[k].block)
}

impl StateDb {
    /// The storage index as the history layout keeps it: keys strictly
    /// ascending; each chunk's blocks ascending, ending at its upper bound
    /// and backed by change-set entries; a later chunk of a slot holding only
    /// blocks above an earlier one's upper bound; and every change-set entry
    /// found in a chunk.
    pub open spec fn storage_index_ok(&self) -> bool {
        &&& storage_index_shape(self.storage_index(), self.storage_changes())
        &&& storage_index_covers(self.storage_index(), self.storage_changes())
    }

    /// The value that slot `k` held at block `b`: the value before the first
    /// change at or after `b`, or the current value where there is none.
    pub open spec fn storage_value_at(&self, k: StorageKey, b: u64) -> Option<Word> {
        let cs = self.storage_changes();
        if exists|n: u64| is_first_storage_change(cs, k, b, n) {
            let n = choose|n: u64| is_first_storage_change(cs, k, b, n);
            storage_change(cs, n, k)->Some_0
        } else {
            plain_storage(self.storage(), k)
        }
    }
}

/// A change of `k` is recorded exactly where some change-set entry holds it.
pub proof fn lemma_storage_change(cs: Seq<StorageChange>, k: StorageKey, n: u64)
    ensures
        storage_change(cs, n, k) is Some <==> exists|j: int| 0 <= j < cs.len() && (#[trigger] cs[j]).block == n
            && cs[j].key == k,
{
    lemma_first_match(cs, storage_change_pred(n, k), 0);
    if exists|j: int| 0 <= j < cs.len() && (#[trigger] cs[j]).block == n && cs[j].key == k {
        let j = choose|j: int| 0 <= j < cs.len() && (#[trigger] cs[j]).block == n && cs[j].key == k;
        assert(storage_change_pred(n, k)(cs[j]));
    }
}

/// The value of a storage slot at a block, read through the history index,
/// is the value before the first change at or after that block, or the
/// current value where the slot has not changed since; this holds where
/// all changes of the slot are at one incarnation, the one asked for.
/// Where all changes of a slot are at one incarnation, a change of the slot
/// is a change of its key at that incarnation.
pub proof fn lemma_slot_change_single(cs: Seq<StorageChange>, k: StorageKey, n: u64)
    requires
        single_incarnation(cs, k),
    ensures
        has_slot_change(cs, k.address, k.slot, n) <==> (storage_change(cs, n, k) is Some),
{
    lemma_storage_change(cs, k, n);
    lemma_has_slot_change(cs, k.address, k.slot, n);
    if has_slot_change(cs, k.address, k.slot, n) {
        let j = choose|j: int| 0 <= j < cs.len() && (#[trigger] cs[j]).block == n && cs[j].key.address == k.address
            && cs[j].key.slot == k.slot;
        assert(cs[j].key == k);
    }
}

#[verifier::spinoff_prover]
pub proof fn lemma_storage_history_correct(db: &StateDb, k: StorageKey, b: u64)
    requires
        db.storage_index_ok(),
        single_incarnation(db.storage_changes(), k),
    ensures
        (match db.storage_history_at(k, b) {
            Some(v) => v,
            None => plain_storage(db.storage(), k),
        }) == db.storage_value_at(k, b),
{
    let t = db.storage_index();
    let cs = db.storage_changes();
    let p = seek_storage_pred(k.address, k.slot, b);
    lemma_first_match(t, p, 0);
    if exists|n: u64| n >= b && (storage_change(cs, n, k) is Some) {
        let n0 = choose|n: u64| n >= b && (storage_change(cs, n, k) is Some);
        lemma_slot_change_single(cs, k, n0);
        assert(has_slot_change(cs, k.address, k.slot, n0));
        lemma_has_slot_change(cs, k.address, k.slot, n0);
        let k0 = choose|j: int| 0 <= j < cs.len() && (#[trigger] cs[j]).block == n0 && cs[j].key.address == k.address
            && cs[j].key.slot == k.slot;
        assert(storage_indexed(t, cs[k0].key.address, cs[k0].key.slot, cs[k0].block));
        let i0 = choose|i: int| 0 <= i < t.len() && t[i].address == cs[k0].key.address && t[i].slot == cs[k0].key.slot
            && t[i].blocks@.contains(cs[k0].block);
        assert(storage_chunk_ok(cs, t[i0]));
        lemma_ascending_last(t[i0].blocks@, n0);
        assert(p(t[i0]));
        let i = storage_seek(t, k.address, k.slot, b)->Some_0;
        assert(i <= i0);
        if i < i0 {
            assert(storage_key_lt(t[i].address, t[i].slot, t[i].upper_bound, t[i0].address, t[i0].slot, t[i0].upper_bound));
        }
        assert(t[i].address == k.address && t[i].slot == k.slot);
        assert(storage_chunk_ok(cs, t[i]));
        let bl = t[i].blocks@;
        assert(at_least_pred(b)(bl[bl.len() - 1]));
        lemma_first_match(bl, at_least_pred(b), 0);
        let q0 = first_match(bl, at_least_pred(b), 0)->Some_0;
        let m = bl[q0];
        assert(first_at_least(bl, b) == Some(m));
        assert(has_slot_change(cs, k.address, k.slot, m));
        lemma_slot_change_single(cs, k, m);
        assert(bl.contains(m));
        lemma_ascending_last(bl, m);
        assert forall|m2: u64| m2 >= b && (storage_change(cs, m2, k) is Some) implies m <= m2 by {
            lemma_slot_change_single(cs, k, m2);
            assert(has_slot_change(cs, k.address, k.slot, m2));
            lemma_has_slot_change(cs, k.address, k.slot, m2);
            let kk = choose|j: int| 0 <= j < cs.len() && (#[trigger] cs[j]).block == m2 && cs[j].key.address == k.address
                && cs[j].key.slot == k.slot;
            assert(storage_indexed(t, cs[kk].key.address, cs[kk].key.slot, cs[kk].block));
            let j = choose|x: int| 0 <= x < t.len() && t[x].address == cs[kk].key.address && t[x].slot == cs[kk].key.slot
                && t[x].blocks@.contains(cs[kk].block);
            assert(storage_chunk_ok(cs, t[j]));
            lemma_ascending_last(t[j].blocks@, m2);
            assert(p(t[j]));
            assert(i <= j);
            if i < j {
                let q = choose|q: int| 0 <= q < t[j].blocks@.len() && t[j].blocks@[q] == m2;
                assert(t[j].blocks@[q] > t[i].upper_bound);
            } else {
                let q = choose|q: int| 0 <= q < bl.len() && bl[q] == m2;
                assert(at_least_pred(b)(bl[q]));
                assert(q0 <= q);
                if q0 < q {
                    assert(bl[q0] < bl[q]);
                }
            }
        }
        assert(is_first_storage_change(cs, k, b, m));
        let n = choose|n: u64| is_first_storage_change(cs, k, b, n);
        assert(n == m);
    } else {
        assert(!exists|n: u64| is_first_storage_change(cs, k, b, n));
        match storage_seek(t, k.address, k.slot, b) {
            Some(i) => {
                if t[i].address == k.address && t[i].slot == k.slot {
                    assert(storage_chunk_ok(cs, t[i]));
                    let bl = t[i].blocks@;
                    assert(at_least_pred(b)(bl[bl.len() - 1]));
                    lemma_first_match(bl, at_least_pred(b), 0);
                    let q = first_match(bl, at_least_pred(b), 0)->Some_0;
                    assert(has_slot_change(cs, k.address, k.slot, bl[q]));
                    lemma_slot_change_single(cs, k, bl[q]);
                }
            },
            None => {},
        }
    }
}

/// The first block in `blocks` that is at least `b`.
fn find_block(blocks: &Vec<u64>, b: u64) -> (r: Option<u64>)
    ensures
        r == first_at_least(blocks@, b),
{
    let mut i: usize = 0;
    while i < blocks.len()
        invariant
            i <= blocks@.len(),
            first_match(blocks@, at_least_pred(b), i as int) == first_match(blocks@, at_least_pred(b), 0),
        decreases blocks@.len() - i,
    {
        if blocks[i] >= b {
            return Some(blocks[i]);
        }
        i = i + 1;
    }
    None
}

/// What the account history says `address` held at `block_number`: the
/// value before the first change at or after `block_number` that the index
/// chunk where a seek lands records, with its code hash restored; `None`
/// where the index says nothing.
pub fn find_data_by_history(db: &StateDb, address: Address, block_number: u64) -> (r: Option<Option<Account>>)
    ensures
        r == db.account_history_at(address, block_number),
{
    let mut i: usize = 0;
    while i < db.account_history.len()
        invariant
            i <= db.account_history@.len(),
            first_match(db.account_history@, seek_account_pred(address, block_number), i as int) == first_match(db.account_history@, seek_account_pred(address, block_number), 0),
        decreases db.account_history@.len() - i,
    {
        let c = &db.account_history[i];
        if addr_less(&address, &c.address) || (c.address == address && c.upper_bound >= block_number) {
            if c.address != address {
                return None;
            }
            let n = match find_block(&c.blocks, block_number) {
                Some(n) => n,
                None => return None,
            };
            let prev = match find_account_change(db, n, address) {
                Some(prev) => prev,
                None => return None,
            };
            return Some(rehydrate(db, address, prev));
        }
        i = i + 1;
    }
    None
}

fn addr_less(a: &Address, b: &Address) -> (r: bool)
    ensures
        r == addr_lt(*a, *b),
{
    a.hi < b.hi || (a.hi == b.hi && a.lo < b.lo)
}

fn hash_less(a: &H256, b: &H256) -> (r: bool)
    ensures
        r == hash_lt(*a, *b),
{
    a.hi < b.hi || (a.hi == b.hi && a.lo < b.lo)
}

fn find_account_change(db: &StateDb, n: u64, a: Address) -> (r: Option<Option<Account>>)
    ensures
        r == account_change(db.account_changes(), n, a),
{
    let mut i: usize = 0;
    while i < db.account_changes.len()
        invariant
            i <= db.account_changes@.len(),
            first_match(db.account_changes@, account_change_pred(n, a), i as int) == first_match(db.account_changes@, account_change_pred(n, a), 0),
        decreases db.account_changes@.len() - i,
    {
        if db.account_changes[i].block == n && db.account_changes[i].address == a {
            return Some(db.account_changes[i].prev);
        }
        i = i + 1;
    }
    None
}

fn find_storage_change(db: &StateDb, n: u64, k: StorageKey) -> (r: Option<Option<Word>>)
    ensures
        r == storage_change(db.storage_changes(), n, k),
{
    let mut i: usize = 0;
    while i < db.storage_changes.len()
        invariant
            i <= db.storage_changes@.len(),
            first_match(db.storage_changes@, storage_change_pred(n, k), i as int) == first_match(db.storage_changes@, storage_change_pred(n, k), 0),
        decreases db.storage_changes@.len() - i,
    {
        if db.storage_changes[i].block == n && db.storage_changes[i].key == k {
            return Some(db.storage_changes[i].prev);
        }
        i = i + 1;
    }
    None
}

fn rehydrate(db: &StateDb, a: Address, v: Option<Account>) -> (r: Option<Account>)
    ensures
        r == db.rehydrate(a, v),
{
    match v {
        Some(acc) => {
            if acc.incarnation > 0 && acc.code_hash.hi == EMPTY_HASH_HI && acc.code_hash.lo == EMPTY_HASH_LO {
                match db.get_code_hash(a, acc.incarnation) {
                    Some(h) => Some(Account { code_hash: h, ..acc }),
                    None => Some(acc),
                }
            } else {
                Some(acc)
            }
        },
        None => None,
    }
}

/// What the storage history says slot `key` held at `timestamp`: the value
/// before the first change at or after `timestamp` that the index chunk
/// where a seek lands records; `None` where the index says nothing. The
/// index is keyed by address and slot; the incarnation is not part of it.
pub fn find_storage_by_history(db: &StateDb, key: StorageKey, timestamp: u64) -> (r: Option<Option<Word>>)
    ensures
        r == db.storage_history_at(key, timestamp),
{
    let mut i: usize = 0;
    while i < db.storage_history.len()
        invariant
            i <= db.storage_history@.len(),
            first_match(db.storage_history@, seek_storage_pred(key.address, key.slot, timestamp), i as int) == first_match(db.storage_history@, seek_storage_pred(key.address, key.slot, timestamp), 0),
        decreases db.storage_history@.len() - i,
    {
        let c = &db.storage_history[i];
        if addr_less(&key.address, &c.address) || (c.address == key.address && (hash_less(&key.slot, &c.slot)
            || (c.slot == key.slot && c.upper_bound >= timestamp))) {
            if c.address != key.address || c.slot != key.slot {
                return None;
            }
            let n = match find_block(&c.blocks, timestamp) {
                Some(n) => n,
                None => return None,
            };
            return find_storage_change(db, n, key);
        }
        i = i + 1;
    }
    None
}

/// The value of account `address` at block `timestamp`: what the history
/// says, or else the current value.
pub fn get_account_data_as_of(db: &StateDb, address: Address, timestamp: u64) -> (r: Option<Account>)
    ensures
        r == (match db.account_history_at(address, timestamp) {
            Some(v) => v,
            None => plain_account(db.accounts(), address),
        }),
{
    match find_data_by_history(db, address, timestamp) {
        Some(v) => v,
        None => db.get_account(address),
    }
}

/// The value of storage slot `slot` of `address` at `incarnation`, at block
/// `block_number`: what the history says, or else the current value.
pub fn get_storage_as_of(db: &StateDb, address: Address, incarnation: u64, slot: H256, block_number: u64)
    -> (r: Option<Word>)
    ensures
        ({
            let k = StorageKey { address, incarnation, slot };
            r == (match db.storage_history_at(k, block_number) {
                Some(v) => v,
                None => plain_storage(db.storage(), k),
            })
        }),
{
    let key = StorageKey { address, incarnation, slot };
    match find_storage_by_history(db, key, block_number) {
        Some(v) => v,
        None => db.get_storage(key),
    }
}

} // verus!
