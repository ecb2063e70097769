use vstd::prelude::*;
use crate::word::{half_base, Word, H256};
use crate::headers::BlockHeader;

verus! {

/// The canonical chain as the tables `CanonicalHeader`, `Header`,
/// `HeaderNumber` and `HeadersTotalDifficulty` hold it: at index `k` the
/// canonical header of block `k` and the total difficulty up to it.
pub struct HeaderStore {
    chain: Vec<(BlockHeader, Word)>,
}

/// A chain entry with its total difficulty as a number.
pub open spec fn entry_view(e: (BlockHeader, Word)) -> (BlockHeader, nat) {
    (e.0, e.1.value())
}

/// Whether `h` can be written on top of the first `h.number` blocks of `c`:
/// it links to the canonical block below it and its total difficulty fits.
pub open spec fn can_write(c: Seq<(BlockHeader, nat)>, h: BlockHeader) -> bool {
    &&& 1 <= h.number <= c.len()
    &&& h.number < u64::MAX
    &&& h.parent_hash == c[h.number - 1].0.hash
    &&& c[h.number - 1].1 + h.difficulty.value() < half_base() * half_base()
}

/// The chain after writing `h` as the canonical block `h.number`.
pub open spec fn write_spec(c: Seq<(BlockHeader, nat)>, h: BlockHeader) -> Seq<(BlockHeader, nat)> {
    c.subrange(0, h.number as int).push((h, c[h.number - 1].1 + h.difficulty.value()))
}

/// The chain and the stage progress after writing `hs[i..]` in order:
/// block 0 is skipped, and writing stops above `cap`, at a header that is
/// not the block after the progress so far, or at one that does not link.
pub open spec fn apply_from(
    c: Seq<(BlockHeader, nat)>,
    progress: nat,
    hs: Seq<BlockHeader>,
    i: int,
    cap: nat,
) -> (Seq<(BlockHeader, nat)>, nat)
    decreases hs.len() - i,
{
    if i < 0 || i >= hs.len() {
        (c, progress)
    } else if hs[i].number == 0 {
        apply_from(c, progress, hs, i + 1, cap)
    } else if hs[i].number > cap || hs[i].number != progress + 1 || !can_write(c, hs[i]) {
        (c, progress)
    } else {
        apply_from(write_spec(c, hs[i]), hs[i].number as nat, hs, i + 1, cap)
    }
}

/// Applying headers never lowers the progress, and raises it no higher than
/// `cap`.
pub proof fn lemma_apply_progress(
    c: Seq<(BlockHeader, nat)>,
    progress: nat,
    hs: Seq<BlockHeader>,
    i: int,
    cap: nat,
)
    ensures
        progress <= apply_from(c, progress, hs, i, cap).1,
        apply_from(c, progress, hs, i, cap).1 <= (if progress > cap { progress } else { cap }),
    decreases hs.len() - i,
{
    if i < 0 || i >= hs.len() {
    } else if hs[i].number == 0 {
        lemma_apply_progress(c, progress, hs, i + 1, cap);
    } else if hs[i].number > cap || hs[i].number != progress + 1 || !can_write(c, hs[i]) {
    } else {
        lemma_apply_progress(write_spec(c, hs[i]), hs[i].number as nat, hs, i + 1, cap);
    }
}

/// Whether `c` is a canonical chain: block `k` at index `k`, each header
/// linked to the one below, each total difficulty the one below plus the
/// header's difficulty.
pub open spec fn chain_ok(c: Seq<(BlockHeader, nat)>) -> bool {
    &&& 1 <= c.len() <= u64::MAX
    &&& forall|k: int| 0 <= k < c.len() ==> #[trigger] c[k].0.number == k
    &&& forall|k: int| 1 <= k < c.len() ==> #[trigger] c[k].0.parent_hash == c[k - 1].0.hash
    &&& forall|k: int| 1 <= k < c.len() ==> #[trigger] c[k].1 == c[k - 1].1 + c[k].0.difficulty.value()
    &&& forall|k: int| 0 <= k < c.len() ==> #[trigger] c[k].1 < half_base() * half_base()
}

impl View for HeaderStore {
    type V = Seq<(BlockHeader, nat)>;

    closed spec fn view(&self) -> Seq<(BlockHeader, nat)> {
        self.chain@.map_values(|e: (BlockHeader, Word)| entry_view(e))
    }
}

/// Writing a linked header keeps a chain canonical.
pub proof fn lemma_write_keeps_chain(c: Seq<(BlockHeader, nat)>, h: BlockHeader)
    requires
        chain_ok(c),
        can_write(c, h),
    ensures
        chain_ok(write_spec(c, h)),
        write_spec(c, h).len() == h.number + 1,
{
    let w = write_spec(c, h);
    assert forall|k: int| 1 <= k < w.len() implies #[trigger] w[k].0.parent_hash == w[k - 1].0.hash by {
        if k < h.number {
            assert(w[k] == c[k] && w[k - 1] == c[k - 1]);
        }
    }
    assert forall|k: int| 1 <= k < w.len() implies #[trigger] w[k].1 == w[k - 1].1 + w[k].0.difficulty.value() by {
        if k < h.number {
            assert(w[k] == c[k] && w[k - 1] == c[k - 1]);
        }
    }
    assert forall|k: int| 0 <= k < w.len() implies #[trigger] w[k].0.number == k by {
        if k < h.number {
            assert(w[k] == c[k]);
        }
    }
    assert forall|k: int| 0 <= k < w.len() implies #[trigger] w[k].1 < half_base() * half_base() by {
        if k < h.number {
            assert(w[k] == c[k]);
        }
    }
}

/// Applying headers keeps a chain canonical, and the progress is the
/// chain's head or the progress it started from.
pub proof fn lemma_apply_keeps_chain(
    c: Seq<(BlockHeader, nat)>,
    progress: nat,
    hs: Seq<BlockHeader>,
    i: int,
    cap: nat,
)
    requires
        chain_ok(c),
        progress == c.len() - 1,
    ensures
        chain_ok(apply_from(c, progress, hs, i, cap).0),
        apply_from(c, progress, hs, i, cap).1 == apply_from(c, progress, hs, i, cap).0.len() - 1,
    decreases hs.len() - i,
{
    if i < 0 || i >= hs.len() {
    } else if hs[i].number == 0 {
        lemma_apply_keeps_chain(c, progress, hs, i + 1, cap);
    } else if hs[i].number > cap || hs[i].number != progress + 1 || !can_write(c, hs[i]) {
    } else {
        lemma_write_keeps_chain(c, hs[i]);
        lemma_apply_keeps_chain(write_spec(c, hs[i]), hs[i].number as nat, hs, i + 1, cap);
    }
}

/// The sum of the difficulties of `hs[i..]`.
pub open spec fn difficulty_sum(hs: Seq<BlockHeader>, i: int) -> nat
    decreases hs.len() - i,
{
    if i < 0 || i >= hs.len() {
        0
    } else {
        hs[i].difficulty.value() + difficulty_sum(hs, i + 1)
    }
}

/// Whether `hs[i..]` continues the chain `c`: numbered on from its head,
/// each header the child of the one before, none above `cap`.
pub open spec fn continues(c: Seq<(BlockHeader, nat)>, hs: Seq<BlockHeader>, i: int, cap: nat) -> bool {
    &&& 0 <= i <= hs.len()
    &&& i < hs.len() ==> hs[i].number == c.len() && hs[i].parent_hash == c.last().0.hash
    &&& forall|j: int| i < j < hs.len() ==> #[trigger] hs[j].number == hs[j - 1].number + 1
        && hs[j].parent_hash == hs[j - 1].hash
    &&& forall|j: int| i <= j < hs.len() ==> #[trigger] hs[j].number <= cap
}

/// Writing headers that continue a canonical chain writes all of them: the
/// progress reaches the last one, and its total difficulty is the head's
/// plus the sum of their difficulties.
pub proof fn lemma_apply_continuation(c: Seq<(BlockHeader, nat)>, hs: Seq<BlockHeader>, i: int, cap: nat)
    requires
        chain_ok(c),
        continues(c, hs, i, cap),
        cap < u64::MAX,
        c.last().1 + difficulty_sum(hs, i) < half_base() * half_base(),
    ensures
        apply_from(c, (c.len() - 1) as nat, hs, i, cap).0.len() == c.len() + hs.len() - i,
        apply_from(c, (c.len() - 1) as nat, hs, i, cap).1 == c.len() + hs.len() - i - 1,
        apply_from(c, (c.len() - 1) as nat, hs, i, cap).0.last().1 == c.last().1 + difficulty_sum(hs, i),
    decreases hs.len() - i,
{
    if i < hs.len() {
        let h = hs[i];
        assert(can_write(c, h));
        lemma_write_keeps_chain(c, h);
        let c2 = write_spec(c, h);
        assert(c.subrange(0, h.number as int) =~= c);
        assert(c2.last().0 == h);
        assert(continues(c2, hs, i + 1, cap)) by {
            if i + 1 < hs.len() {
                assert(hs[i + 1].number == hs[i].number + 1);
            }
        }
        lemma_apply_continuation(c2, hs, i + 1, cap);
    }
}

/// Along a canonical chain each header links to the canonical block below
/// it, and the total difficulty grows by each header's difficulty.
pub proof fn lemma_canonical_monotone(c: Seq<(BlockHeader, nat)>, k: int)
    requires
        chain_ok(c),
        1 <= k < c.len(),
    ensures
        c[k].0.number == k,
        c[k].0.parent_hash == c[k - 1].0.hash,
        c[k].1 == c[k - 1].1 + c[k].0.difficulty.value(),
{
}

impl HeaderStore {
    pub open spec fn wf(&self) -> bool {
        chain_ok(self@)
    }

    /// A chain that holds the genesis header alone.
    pub fn new(genesis: BlockHeader, genesis_td: Word) -> (r: HeaderStore)
        requires
            genesis.number == 0,
        ensures
            r.wf(),
            r@ == seq![(genesis, genesis_td.value())],
    {
        let mut chain: Vec<(BlockHeader, Word)> = Vec::new();
        chain.push((genesis, genesis_td));
        let r = HeaderStore { chain };
        assert(r@ =~= seq![(genesis, genesis_td.value())]);
        assert(genesis_td.value() < half_base() * half_base()) by (nonlinear_arith)
            requires
                genesis_td.value() == genesis_td.hi as nat * half_base() + genesis_td.lo as nat,
                genesis_td.hi < half_base(),
                genesis_td.lo < half_base();
        r
    }

    /// The highest canonical block.
    pub fn head(&self) -> (r: u64)
        requires
            self.wf(),
        ensures
            r == self@.len() - 1,
    {
        self.chain.len() as u64 - 1
    }

    /// `CanonicalHeader[n]`.
    pub fn canonical_hash(&self, n: u64) -> (r: Option<H256>)
        ensures
            r == (if n < self@.len() { Some(self@[n as int].0.hash) } else { None::<H256> }),
    {
        if (n as u128) < self.chain.len() as u128 {
            Some(self.chain[n as usize].0.hash)
        } else {
            None
        }
    }

    /// `Header[(n, hash)]`.
    pub fn header(&self, n: u64, hash: &H256) -> (r: Option<BlockHeader>)
        ensures
            r == (if n < self@.len() && self@[n as int].0.hash == *hash {
                Some(self@[n as int].0)
            } else {
                None::<BlockHeader>
            }),
    {
        if (n as u128) < self.chain.len() as u128 && self.chain[n as usize].0.hash == *hash {
            Some(self.chain[n as usize].0)
        } else {
            None
        }
    }

    /// `HeadersTotalDifficulty[(n, hash)]`.
    pub fn total_difficulty(&self, n: u64, hash: &H256) -> (r: Option<Word>)
        ensures
            r is Some <==> n < self@.len() && self@[n as int].0.hash == *hash,
            r matches Some(w) ==> w.value() == self@[n as int].1,
    {
        if (n as u128) < self.chain.len() as u128 && self.chain[n as usize].0.hash == *hash {
            Some(self.chain[n as usize].1)
        } else {
            None
        }
    }

    /// `HeaderNumber[hash]`.
    pub fn header_number(&self, hash: &H256) -> (r: Option<u64>)
        requires
            self.wf(),
        ensures
            match r {
                Some(n) => n < self@.len() && self@[n as int].0.hash == *hash,
                None => forall|k: int| 0 <= k < self@.len() ==> self@[k].0.hash != *hash,
            },
    {
        let mut i: usize = 0;
        while i < self.chain.len()
            invariant
                i <= self@.len(),
                self@.len() == self.chain@.len(),
                forall|k: int| 0 <= k < i ==> self@[k].0.hash != *hash,
            decreases self.chain@.len() - i,
        {
            if self.chain[i].0.hash == *hash {
                return Some(i as u64);
            }
            i = i + 1;
        }
        None
    }

    /// The chain head's status at `height`: its hash and total difficulty.
    pub fn status_at(&self, height: u64) -> (r: Option<(u64, H256, Word)>)
        ensures
            match r {
                Some((n, h, td)) => n == height && height < self@.len() && h == self@[height as int].0.hash
                    && td.value() == self@[height as int].1,
                None => height >= self@.len(),
            },
    {
        if (height as u128) < self.chain.len() as u128 {
            let e = self.chain[height as usize];
            Some((height, e.0.hash, e.1))
        } else {
            None
        }
    }

    /// Writes `h` as the canonical block `h.number`, where it links to the
    /// block below and its total difficulty fits; blocks above are dropped.
    pub fn write_header(&mut self, h: BlockHeader) -> (r: bool)
        requires
            old(self).wf(),
        ensures
            final(self).wf(),
            r == can_write(old(self)@, h),
            final(self)@ == (if r { write_spec(old(self)@, h) } else { old(self)@ }),
    {
        if h.number == 0 || h.number == u64::MAX || h.number as u128 > self.chain.len() as u128 {
            return false;
        }
        let below = self.chain[h.number as usize - 1];
        if below.0.hash != h.parent_hash {
            return false;
        }
        match below.1.checked_add(&h.difficulty) {
            Some(td) => {
                proof {
                    lemma_write_keeps_chain(self@, h);
                }
                self.chain.truncate(h.number as usize);
                self.chain.push((h, td));
                assert(self@ =~= write_spec(old(self)@, h));
                true
            },
            None => false,
        }
    }

    /// Drops the canonical blocks above `unwind_to`; returns the new head.
    pub fn unwind_to(&mut self, unwind_to: u64) -> (r: u64)
        requires
            old(self).wf(),
        ensures
            final(self).wf(),
            r == min_u64(unwind_to, (old(self)@.len() - 1) as u64),
            final(self)@ == old(self)@.subrange(0, r + 1),
    {
        if (unwind_to as u128) < self.chain.len() as u128 {
            self.chain.truncate(unwind_to as usize + 1);
            assert(self@ =~= old(self)@.subrange(0, unwind_to + 1));
            unwind_to
        } else {
            assert(self@ =~= old(self)@.subrange(0, self@.len() as int));
            self.chain.len() as u64 - 1
        }
    }
}

/// The smaller of two numbers.
pub open spec fn min_u64(a: u64, b: u64) -> u64 {
    if a <= b { a } else { b }
}

} // verus!
