use vstd::prelude::*;
use crate::accessors::ChainDb;
use crate::headers::BlockHeader;
use crate::kv::{entry_get, HeaderKey};
use crate::word::H256;

verus! {

/// The header of block `number` with hash `hash`.
pub fn read(db: &ChainDb, hash: H256, number: u64) -> (r: Option<BlockHeader>)
    ensures
        r == entry_get(db.headers(), HeaderKey { number, hash }),
{
    db.get_header(HeaderKey { number, hash })
}

} // verus!
