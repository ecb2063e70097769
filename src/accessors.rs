//! Typed reads and writes of the chain tables: canonical hashes, header
//! numbers, headers, total difficulties, block bodies, transactions, their
//! senders and the transaction lookup.

pub mod canonical_hash;
pub mod header;
pub mod header_number;
pub mod storage_body;
pub mod td;
pub mod tl;
pub mod tx;
pub mod tx_sender;

use vstd::prelude::*;
use crate::headers::BlockHeader;
use crate::history::Address;
use crate::kv::{entry_get, holds_run, table_get, table_run, HashTable, HeaderKey, HeaderTable, Table};
use crate::word::{Word, H256};

verus! {

/// A transaction as the chain tables hold it.
#[derive(Clone, Copy, Debug, PartialEq, Eq, Structural)]
pub struct Transaction {
    pub nonce: u64,
    pub gas_price: Word,
    pub gas_limit: u64,
    /// The recipient; `None` creates a contract.
    pub to: Option<Address>,
    pub value: Word,
    pub odd_y_parity: bool,
    pub r: H256,
    pub s: H256,
}

/// A block body as stored: its transactions are `base_tx_id`,
/// `base_tx_id + 1`, ..., `base_tx_id + tx_amount - 1` of the transaction
/// table.
#[derive(Debug)]
pub struct BodyForStorage {
    pub base_tx_id: u64,
    pub tx_amount: u64,
    pub uncles: Vec<BlockHeader>,
}

/// What a body holds.
pub open spec fn body_view(b: &BodyForStorage) -> (u64, u64, Seq<BlockHeader>) {
    (b.base_tx_id, b.tx_amount, b.uncles@)
}

impl BodyForStorage {
    /// A copy of the body.
    pub fn copy(&self) -> (r: BodyForStorage)
        ensures
            body_view(&r) == body_view(self),
    {
        let mut uncles: Vec<BlockHeader> = Vec::new();
        let mut i: usize = 0;
        while i < self.uncles.len()
            invariant
                i <= self.uncles@.len(),
                uncles@ == self.uncles@.subrange(0, i as int),
            decreases self.uncles@.len() - i,
        {
            uncles.push(self.uncles[i]);
            i = i + 1;
            assert(uncles@ =~= self.uncles@.subrange(0, i as int));
        }
        assert(uncles@ =~= self.uncles@);
        BodyForStorage { base_tx_id: self.base_tx_id, tx_amount: self.tx_amount, uncles }
    }
}

/// The chain tables.
pub struct ChainDb {
    canonical: Table<H256>,
    header_numbers: HashTable<u64>,
    headers: HeaderTable<BlockHeader>,
    tds: HeaderTable<Word>,
    bodies: HeaderTable<BodyForStorage>,
    txs: Table<Transaction>,
    senders: Table<Address>,
    tx_lookup: HashTable<u64>,
}

impl ChainDb {
    pub closed spec fn canonical(&self) -> Seq<(u64, H256)> {
        self.canonical@
    }

    pub closed spec fn header_numbers(&self) -> Seq<(H256, u64)> {
        self.header_numbers@
    }

    pub closed spec fn headers(&self) -> Seq<(HeaderKey, BlockHeader)> {
        self.headers@
    }

    pub closed spec fn tds(&self) -> Seq<(HeaderKey, Word)> {
        self.tds@
    }

    pub closed spec fn bodies(&self) -> Seq<(HeaderKey, BodyForStorage)> {
        self.bodies@
    }

    pub closed spec fn txs(&self) -> Seq<(u64, Transaction)> {
        self.txs@
    }

    pub closed spec fn senders(&self) -> Seq<(u64, Address)> {
        self.senders@
    }

    pub closed spec fn tx_lookup(&self) -> Seq<(H256, u64)> {
        self.tx_lookup@
    }

    /// The ordered tables keep their keys in order.
    pub closed spec fn wf(&self) -> bool {
        &&& self.canonical.wf()
        &&& self.txs.wf()
        &&& self.senders.wf()
    }

    pub fn new() -> (r: ChainDb)
        ensures
            r.wf(),
            r.canonical().len() == 0,
            r.header_numbers().len() == 0,
            r.headers().len() == 0,
            r.tds().len() == 0,
            r.bodies().len() == 0,
            r.txs().len() == 0,
            r.senders().len() == 0,
            r.tx_lookup().len() == 0,
    {
        ChainDb {
            canonical: Table::new(),
            header_numbers: HashTable::new(),
            headers: HeaderTable::new(),
            tds: HeaderTable::new(),
            bodies: HeaderTable::new(),
            txs: Table::new(),
            senders: Table::new(),
            tx_lookup: HashTable::new(),
        }
    }

    pub fn get_canonical(&self, n: u64) -> (r: Option<H256>)
        requires
            self.wf(),
        ensures
            r == table_get(self.canonical(), n),
    {
        self.canonical.get(n)
    }

    pub fn put_canonical(&mut self, n: u64, hash: H256)
        requires
            old(self).wf(),
        ensures
            final(self).wf(),
            table_get(final(self).canonical(), n) == Some(hash),
            forall|x: u64| x != n ==> table_get(final(self).canonical(), x) == table_get(old(self).canonical(), x),
            final(self).txs() == old(self).txs(),
            final(self).senders() == old(self).senders(),
            final(self).bodies() == old(self).bodies(),
    {
        self.canonical.put(n, hash);
    }

    pub fn get_header_number(&self, hash: H256) -> (r: Option<u64>)
        ensures
            r == entry_get(self.header_numbers(), hash),
    {
        self.header_numbers.get(hash)
    }

    pub fn put_header_number(&mut self, hash: H256, n: u64)
        requires
            old(self).wf(),
        ensures
            final(self).wf(),
            entry_get(final(self).header_numbers(), hash) == Some(n),
            forall|x: H256| x != hash ==> entry_get(final(self).header_numbers(), x) == entry_get(old(self).header_numbers(), x),
    {
        self.header_numbers.put(hash, n);
    }

    pub fn get_header(&self, key: HeaderKey) -> (r: Option<BlockHeader>)
        ensures
            r == entry_get(self.headers(), key),
    {
        self.headers.get(key)
    }

    pub fn put_header(&mut self, key: HeaderKey, h: BlockHeader)
        requires
            old(self).wf(),
        ensures
            final(self).wf(),
            entry_get(final(self).headers(), key) == Some(h),
            forall|x: HeaderKey| x != key ==> entry_get(final(self).headers(), x) == entry_get(old(self).headers(), x),
    {
        self.headers.put(key, h);
    }

    pub fn get_td(&self, key: HeaderKey) -> (r: Option<Word>)
        ensures
            r == entry_get(self.tds(), key),
    {
        self.tds.get(key)
    }

    pub fn put_td(&mut self, key: HeaderKey, td: Word)
        requires
            old(self).wf(),
        ensures
            final(self).wf(),
            entry_get(final(self).tds(), key) == Some(td),
            forall|x: HeaderKey| x != key ==> entry_get(final(self).tds(), x) == entry_get(old(self).tds(), x),
    {
        self.tds.put(key, td);
    }

    pub fn get_body(&self, key: HeaderKey) -> (r: Option<BodyForStorage>)
        ensures
            match r {
                Some(b) => entry_get(self.bodies(), key) matches Some(s) && body_view(&b) == body_view(&s),
                None => entry_get(self.bodies(), key) is None,
            },
    {
        match self.bodies.get_ref(key) {
            Some(b) => Some(b.copy()),
            None => None,
        }
    }

    pub fn put_body(&mut self, key: HeaderKey, body: BodyForStorage)
        requires
            old(self).wf(),
        ensures
            final(self).wf(),
            entry_get(final(self).bodies(), key) matches Some(s) && body_view(&s) == body_view(&body),
            forall|x: HeaderKey| x != key ==> entry_get(final(self).bodies(), x) == entry_get(old(self).bodies(), x),
            final(self).canonical() == old(self).canonical(),
            final(self).txs() == old(self).txs(),
            final(self).senders() == old(self).senders(),
    {
        self.bodies.put(key, body);
    }

    /// The values at keys `from`, `from + 1`, ..., up to the first missing
    /// key, at most `n` of them.
    pub fn run_txs(&self, from: u64, n: usize) -> (r: Vec<Transaction>)
        requires
            self.wf(),
        ensures
            r@ == table_run(self.txs(), from, n as nat),
    {
        self.txs.run(from, n)
    }

    /// Writes `txs` at keys `base`, `base + 1`, ...
    pub fn put_txs(&mut self, base: u64, txs: &[Transaction])
        requires
            old(self).wf(),
            base + txs@.len() <= u64::MAX + 1,
        ensures
            final(self).wf(),
            holds_run(final(self).txs(), base, txs@),
            forall|x: u64| (x < base || x >= base + txs@.len()) ==> table_get(final(self).txs(), x) == table_get(old(self).txs(), x),
            final(self).canonical() == old(self).canonical(),
            final(self).senders() == old(self).senders(),
            final(self).bodies() == old(self).bodies(),
    {
        let mut i: usize = 0;
        while i < txs.len()
            invariant
                self.wf(),
                i <= txs@.len(),
                base + txs@.len() <= u64::MAX + 1,
                holds_run(self.txs(), base, txs@.subrange(0, i as int)),
                forall|x: u64| (x < base || x >= base + i) ==> table_get(self.txs(), x) == table_get(old(self).txs(), x),
                self.canonical() == old(self).canonical(),
                self.senders() == old(self).senders(),
                self.bodies() == old(self).bodies(),
            decreases txs@.len() - i,
        {
            let ghost prev = self.txs();
            self.txs.put(base + i as u64, txs[i]);
            proof {
                let run = txs@.subrange(0, i as int + 1);
                assert forall|j: int| 0 <= j < run.len() implies table_get(self.txs(), (base + j) as u64) == Some(#[trigger] run[j]) by {
                    if j < i {
                        assert(table_get(prev, (base + j) as u64) == Some(txs@.subrange(0, i as int)[j]));
                    }
                }
            }
            i = i + 1;
        }
        assert(txs@.subrange(0, txs@.len() as int) =~= txs@);
    }

    /// The values at keys `from`, `from + 1`, ..., up to the first missing
    /// key, at most `n` of them.
    pub fn run_senders(&self, from: u64, n: usize) -> (r: Vec<Address>)
        requires
            self.wf(),
        ensures
            r@ == table_run(self.senders(), from, n as nat),
    {
        self.senders.run(from, n)
    }

    /// Writes `senders` at keys `base`, `base + 1`, ...
    pub fn put_senders(&mut self, base: u64, senders: &[Address])
        requires
            old(self).wf(),
            base + senders@.len() <= u64::MAX + 1,
        ensures
            final(self).wf(),
            holds_run(final(self).senders(), base, senders@),
            forall|x: u64| (x < base || x >= base + senders@.len()) ==> table_get(final(self).senders(), x) == table_get(old(self).senders(), x),
            final(self).canonical() == old(self).canonical(),
            final(self).txs() == old(self).txs(),
            final(self).bodies() == old(self).bodies(),
    {
        let mut i: usize = 0;
        while i < senders.len()
            invariant
                self.wf(),
                i <= senders@.len(),
                base + senders@.len() <= u64::MAX + 1,
                holds_run(self.senders(), base, senders@.subrange(0, i as int)),
                forall|x: u64| (x < base || x >= base + i) ==> table_get(self.senders(), x) == table_get(old(self).senders(), x),
                self.canonical() == old(self).canonical(),
                self.txs() == old(self).txs(),
                self.bodies() == old(self).bodies(),
            decreases senders@.len() - i,
        {
            let ghost prev = self.senders();
            self.senders.put(base + i as u64, senders[i]);
            proof {
                let run = senders@.subrange(0, i as int + 1);
                assert forall|j: int| 0 <= j < run.len() implies table_get(self.senders(), (base + j) as u64) == Some(#[trigger] run[j]) by {
                    if j < i {
                        assert(table_get(prev, (base + j) as u64) == Some(senders@.subrange(0, i as int)[j]));
                    }
                }
            }
            i = i + 1;
        }
        assert(senders@.subrange(0, senders@.len() as int) =~= senders@);
    }

    pub fn get_tx_lookup(&self, tx_hash: H256) -> (r: Option<u64>)
        ensures
            r == entry_get(self.tx_lookup(), tx_hash),
    {
        self.tx_lookup.get(tx_hash)
    }

    pub fn put_tx_lookup(&mut self, tx_hash: H256, n: u64)
        requires
            old(self).wf(),
        ensures
            final(self).wf(),
            entry_get(final(self).tx_lookup(), tx_hash) == Some(n),
            forall|x: H256| x != tx_hash ==> entry_get(final(self).tx_lookup(), x) == entry_get(old(self).tx_lookup(), x),
    {
        self.tx_lookup.put(tx_hash, n);
    }
}

} // verus!
