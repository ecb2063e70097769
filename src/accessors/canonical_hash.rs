use vstd::prelude::*;
use crate::accessors::ChainDb;
use crate::kv::table_get;
use crate::word::H256;

verus! {

/// The canonical hash of block `block_number`.
pub fn read(db: &ChainDb, block_number: u64) -> (r: Option<H256>)
    requires
        db.wf(),
    ensures
        r == table_get(db.canonical(), block_number),
{
    db.get_canonical(block_number)
}

/// Makes `hash` the canonical hash of block `block_number`.
pub fn write(db: &mut ChainDb, block_number: u64, hash: H256)
    requires
        old(db).wf(),
    ensures
        final(db).wf(),
        table_get(final(db).canonical(), block_number) == Some(hash),
        forall|x: u64| x != block_number ==> table_get(final(db).canonical(), x) == table_get(old(db).canonical(), x),
        final(db).txs() == old(db).txs(),
        final(db).senders() == old(db).senders(),
        final(db).bodies() == old(db).bodies(),
{
    db.put_canonical(block_number, hash);
}

} // verus!
