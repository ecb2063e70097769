use vstd::prelude::*;
use crate::accessors::ChainDb;
use crate::kv::entry_get;
use crate::word::H256;

verus! {

/// The block number of the header with hash `hash`.
pub fn read(db: &ChainDb, hash: H256) -> (r: Option<u64>)
    ensures
        r == entry_get(db.header_numbers(), hash),
{
    db.get_header_number(hash)
}

} // verus!
