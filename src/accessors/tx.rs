use vstd::prelude::*;
use crate::accessors::{ChainDb, Transaction};
use crate::kv::{holds_run, lemma_run_full, lemma_run_of_written, table_get, table_run};

verus! {

/// The first `amount` transactions from index `base_tx_id` on, in order.
pub fn read(db: &ChainDb, base_tx_id: u64, amount: u32) -> (r: Vec<Transaction>)
    requires
        db.wf(),
    ensures
        r@ == table_run(db.txs(), base_tx_id, amount as nat),
{
    db.run_txs(base_tx_id, amount as usize)
}

/// Writes `txs` at indexes `base_tx_id`, `base_tx_id + 1`, ...
pub fn write(db: &mut ChainDb, base_tx_id: u64, txs: &[Transaction])
    requires
        old(db).wf(),
        base_tx_id + txs@.len() <= u64::MAX + 1,
    ensures
        final(db).wf(),
        holds_run(final(db).txs(), base_tx_id, txs@),
        forall|x: u64| (x < base_tx_id || x >= base_tx_id + txs@.len())
            ==> table_get(final(db).txs(), x) == table_get(old(db).txs(), x),
        final(db).canonical() == old(db).canonical(),
        final(db).senders() == old(db).senders(),
        final(db).bodies() == old(db).bodies(),
{
    db.put_txs(base_tx_id, txs);
}

/// Transactions written from an index are read back from it, in order.
pub proof fn lemma_round_trip(db: &ChainDb, base_tx_id: u64, txs: Seq<Transaction>)
    requires
        holds_run(db.txs(), base_tx_id, txs),
    ensures
        table_run(db.txs(), base_tx_id, txs.len()) == txs,
{
    lemma_run_of_written(db.txs(), base_tx_id, txs);
}

/// A read of `amount` transactions returns `amount` of them exactly where every
/// index from `base_tx_id` to `base_tx_id + amount - 1` holds one.
pub proof fn lemma_read_full(db: &ChainDb, base_tx_id: u64, amount: nat)
    ensures
        table_run(db.txs(), base_tx_id, amount).len() <= amount,
        table_run(db.txs(), base_tx_id, amount).len() == amount <==> forall|j: int| 0 <= j < amount
            ==> base_tx_id + j <= u64::MAX && (#[trigger] table_get(db.txs(), (base_tx_id + j) as u64)) is Some,
{
    lemma_run_full(db.txs(), base_tx_id, amount);
}

} // verus!
