use vstd::prelude::*;
use crate::accessors::{body_view, BodyForStorage, ChainDb};
use crate::kv::{entry_get, HeaderKey};
use crate::word::H256;

verus! {

/// The stored body of block `number` with hash `hash`.
pub fn read(db: &ChainDb, hash: H256, number: u64) -> (r: Option<BodyForStorage>)
    ensures
        match r {
            Some(b) => entry_get(db.bodies(), HeaderKey { number, hash }) matches Some(s)
                && body_view(&b) == body_view(&s),
            None => entry_get(db.bodies(), HeaderKey { number, hash }) is None,
        },
{
    db.get_body(HeaderKey { number, hash })
}

/// Whether a body of block `number` with hash `hash` is stored.
pub fn has(db: &ChainDb, hash: H256, number: u64) -> (r: bool)
    ensures
        r == entry_get(db.bodies(), HeaderKey { number, hash }) is Some,
{
    read(db, hash, number).is_some()
}

/// Stores the body of block `number` with hash `hash`.
pub fn write(db: &mut ChainDb, hash: H256, number: u64, body: &BodyForStorage)
    requires
        old(db).wf(),
    ensures
        final(db).wf(),
        entry_get(final(db).bodies(), HeaderKey { number, hash }) matches Some(s)
            && body_view(&s) == body_view(body),
        forall|x: HeaderKey| x != (HeaderKey { number, hash })
            ==> entry_get(final(db).bodies(), x) == entry_get(old(db).bodies(), x),
        final(db).canonical() == old(db).canonical(),
        final(db).txs() == old(db).txs(),
        final(db).senders() == old(db).senders(),
{
    db.put_body(HeaderKey { number, hash }, body.copy());
}

} // verus!
