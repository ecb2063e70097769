use vstd::prelude::*;
use crate::accessors::ChainDb;
use crate::history::Address;
use crate::kv::{holds_run, lemma_run_full, lemma_run_of_written, table_get, table_run};

verus! {

/// The senders of the first `amount` transactions from index `base_tx_id` on.
pub fn read(db: &ChainDb, base_tx_id: u64, amount: u32) -> (r: Vec<Address>)
    requires
        db.wf(),
    ensures
        r@ == table_run(db.senders(), base_tx_id, amount as nat),
{
    db.run_senders(base_tx_id, amount as usize)
}

/// Writes `senders` at indexes `base_tx_id`, `base_tx_id + 1`, ...
pub fn write(db: &mut ChainDb, base_tx_id: u64, senders: &[Address])
    requires
        old(db).wf(),
        base_tx_id + senders@.len() <= u64::MAX + 1,
    ensures
        final(db).wf(),
        holds_run(final(db).senders(), base_tx_id, senders@),
        forall|x: u64| (x < base_tx_id || x >= base_tx_id + senders@.len())
            ==> table_get(final(db).senders(), x) == table_get(old(db).senders(), x),
        final(db).canonical() == old(db).canonical(),
        final(db).txs() == old(db).txs(),
        final(db).bodies() == old(db).bodies(),
{
    db.put_senders(base_tx_id, senders);
}

/// Senders written from an index are read back from it, in order.
pub proof fn lemma_round_trip(db: &ChainDb, base_tx_id: u64, senders: Seq<Address>)
    requires
        holds_run(db.senders(), base_tx_id, senders),
    ensures
        table_run(db.senders(), base_tx_id, senders.len()) == senders,
{
    lemma_run_of_written(db.senders(), base_tx_id, senders);
}

/// A read of `amount` senders returns `amount` of them exactly where every
/// index from `base_tx_id` to `base_tx_id + amount - 1` holds one.
pub proof fn lemma_read_full(db: &ChainDb, base_tx_id: u64, amount: nat)
    ensures
        table_run(db.senders(), base_tx_id, amount).len() <= amount,
        table_run(db.senders(), base_tx_id, amount).len() == amount <==> forall|j: int| 0 <= j < amount
            ==> base_tx_id + j <= u64::MAX && (#[trigger] table_get(db.senders(), (base_tx_id + j) as u64)) is Some,
{
    lemma_run_full(db.senders(), base_tx_id, amount);
}

} // verus!
