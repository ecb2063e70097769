use vstd::prelude::*;
use crate::accessors::ChainDb;
use crate::kv::entry_get;
use crate::word::H256;

verus! {

/// The number of the block that holds the transaction with hash `tx_hash`.
pub fn read(db: &ChainDb, tx_hash: H256) -> (r: Option<u64>)
    ensures
        r == entry_get(db.tx_lookup(), tx_hash),
{
    db.get_tx_lookup(tx_hash)
}

} // verus!
