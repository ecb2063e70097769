use vstd::prelude::*;
use crate::accessors::ChainDb;
use crate::kv::{entry_get, HeaderKey};
use crate::word::{Word, H256};

verus! {

/// The total difficulty up to block `number` with hash `hash`.
pub fn read(db: &ChainDb, hash: H256, number: u64) -> (r: Option<Word>)
    ensures
        r == entry_get(db.tds(), HeaderKey { number, hash }),
{
    db.get_td(HeaderKey { number, hash })
}

} // verus!
