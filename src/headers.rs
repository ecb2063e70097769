use vstd::prelude::*;
use crate::word::{Word, H256};
use crate::kv::{first_match, lemma_first_match};
use crate::store::{apply_from, lemma_apply_progress, min_u64, HeaderStore};
use crate::outstanding::{slots_entries, slots_get, slots_insert, slots_is_empty, slots_new, slots_of, slots_remove};
use dashmap::DashMap;

verus! {

/// The most headers one request asks for.
pub const HEADERS_UPPER_BOUND: u64 = 1024;

/// The most blocks one run of the stage advances.
pub const STAGE_UPPER_BOUND: u64 = 98304;

/// A block header as this core reads it: its own hash, its parent's hash,
/// its number and its difficulty.
#[derive(Clone, Copy, Debug, PartialEq, Eq, Structural)]
pub struct BlockHeader {
    pub hash: H256,
    pub parent_hash: H256,
    pub number: u64,
    pub difficulty: Word,
}

/// A request for `limit` headers from block `start` up.
#[derive(Clone, Copy, Debug, PartialEq, Eq, Structural)]
pub struct HeaderRequest {
    pub start: u64,
    pub limit: u64,
}

/// Whether the headers' numbers run up by one from the first.
pub open spec fn is_contiguous(hs: Seq<BlockHeader>) -> bool {
    forall|i: int| 0 <= i < hs.len() ==> #[trigger] hs[i].number == hs[0].number + i
}

/// Whether the headers run up by one from the first.
pub fn dummy_check_headers(headers: &[BlockHeader]) -> (r: bool)
    requires
        headers@.len() > 0,
    ensures
        r == is_contiguous(headers@),
{
    let mut block_num: u64 = headers[0].number;
    let mut i: usize = 1;
    while i < headers.len()
        invariant
            1 <= i <= headers@.len(),
            block_num == headers@[0].number + i - 1,
            forall|j: int| 0 <= j < i ==> #[trigger] headers@[j].number == headers@[0].number + j,
        decreases headers@.len() - i,
    {
        if block_num == u64::MAX || headers[i].number != block_num + 1 {
            assert(headers@[i as int].number != headers@[0].number + i);
            return false;
        }
        block_num = block_num + 1;
        i = i + 1;
    }
    true
}

/// `a` comes before `b` in the bytes' lexicographic order.
pub open spec fn hash_lt(a: H256, b: H256) -> bool {
    a.hi < b.hi || (a.hi == b.hi && a.lo < b.lo)
}

/// `a` is a better tip than `b`: a higher number, or the same number and a
/// smaller hash.
pub open spec fn better_tip(a: BlockHeader, b: BlockHeader) -> bool {
    a.number > b.number || (a.number == b.number && hash_lt(a.hash, b.hash))
}

/// Whether some header in `g` has hash `h`.
pub open spec fn has_hash(g: Seq<BlockHeader>, h: H256) -> bool {
    exists|i: int| 0 <= i < g.len() && g[i].hash == h
}

/// `g` after adding each header of `hs` whose hash it does not hold yet.
pub open spec fn extend_spec(g: Seq<BlockHeader>, hs: Seq<BlockHeader>) -> Seq<BlockHeader>
    decreases hs.len(),
{
    if hs.len() == 0 {
        g
    } else {
        let g2 = extend_spec(g, hs.drop_last());
        if has_hash(g2, hs.last().hash) {
            g2
        } else {
            g2.push(hs.last())
        }
    }
}

/// Whether each header of `c` is the parent of the next.
pub open spec fn is_linked(c: Seq<BlockHeader>) -> bool {
    forall|i: int| 1 <= i < c.len() ==> c[i].parent_hash == c[i - 1].hash
}

/// The headers received so far, at most one for each hash.
pub struct Graph {
    entries: Vec<BlockHeader>,
}

impl View for Graph {
    type V = Seq<BlockHeader>;

    closed spec fn view(&self) -> Seq<BlockHeader> {
        self.entries@
    }
}

impl Graph {
    pub fn new() -> (r: Graph)
        ensures
            r@ == Seq::<BlockHeader>::empty(),
    {
        Graph { entries: Vec::new() }
    }

    pub fn len(&self) -> (r: usize)
        ensures
            r == self@.len(),
    {
        self.entries.len()
    }

    pub fn clear(&mut self)
        ensures
            final(self)@ == Seq::<BlockHeader>::empty(),
    {
        self.entries.clear();
    }

    /// Where the header with hash `h` stands, if any does.
    fn find(&self, h: &H256) -> (r: Option<usize>)
        ensures
            match r {
                Some(i) => i < self@.len() && self@[i as int].hash == *h,
                None => !has_hash(self@, *h),
            },
    {
        let mut i: usize = 0;
        while i < self.entries.len()
            invariant
                i <= self@.len(),
                forall|j: int| 0 <= j < i ==> self@[j].hash != *h,
            decreases self@.len() - i,
        {
            if self.entries[i].hash == *h {
                return Some(i);
            }
            i = i + 1;
        }
        None
    }

    pub fn contains(&self, h: &H256) -> (r: bool)
        ensures
            r == has_hash(self@, *h),
    {
        self.find(h).is_some()
    }

    /// Adds each header whose hash the graph does not hold yet.
    pub fn extend(&mut self, hs: &[BlockHeader])
        ensures
            final(self)@ == extend_spec(old(self)@, hs@),
    {
        let mut i: usize = 0;
        while i < hs.len()
            invariant
                i <= hs@.len(),
                self@ == extend_spec(old(self)@, hs@.subrange(0, i as int)),
            decreases hs@.len() - i,
        {
            let h = hs[i];
            assert(hs@.subrange(0, i as int + 1).drop_last() =~= hs@.subrange(0, i as int));
            if !self.contains(&h.hash) {
                self.entries.push(h);
            }
            i = i + 1;
        }
        assert(hs@.subrange(0, hs@.len() as int) =~= hs@);
    }

    /// The hash of the chain's tip: the highest header, the smallest hash
    /// among equally high ones.
    pub fn dfs(&self) -> (r: Option<H256>)
        ensures
            self@.len() == 0 <==> r is None,
            r matches Some(h) ==> exists|i: int| {
                &&& 0 <= i < self@.len()
                &&& self@[i].hash == h
                &&& forall|j: int| 0 <= j < self@.len() && j != i ==> !better_tip(self@[j], self@[i])
            },
    {
        if self.entries.len() == 0 {
            return None;
        }
        let mut best: usize = 0;
        let mut i: usize = 1;
        while i < self.entries.len()
            invariant
                self@.len() > 0,
                best < i <= self@.len(),
                forall|j: int| 0 <= j < i && j != best ==> !better_tip(self@[j], self@[best as int]),
            decreases self@.len() - i,
        {
            let a = self.entries[i];
            let b = self.entries[best];
            if a.number > b.number || (a.number == b.number && (a.hash.hi < b.hash.hi
                || (a.hash.hi == b.hash.hi && a.hash.lo < b.hash.lo))) {
                best = i;
            }
            i = i + 1;
        }
        Some(self.entries[best].hash)
    }

    /// The chain that ends at `tail`, oldest first: from `tail`, each
    /// header's parent while the graph holds it.
    pub fn backtrack(&self, tail: &H256) -> (r: Vec<BlockHeader>)
        ensures
            r@.len() <= self@.len(),
            is_linked(r@),
            forall|i: int| 0 <= i < r@.len() ==> self@.contains(r@[i]),
            has_hash(self@, *tail) <==> r@.len() > 0,
            r@.len() > 0 ==> r@.last().hash == *tail,
            r@.len() > 0 && r@.len() < self@.len() ==> !has_hash(self@, r@[0].parent_hash),
    {
        let mut rev: Vec<BlockHeader> = Vec::new();
        let mut cur: H256 = *tail;
        let mut done = false;
        while !done && rev.len() < self.entries.len()
            invariant
                rev@.len() <= self@.len(),
                forall|i: int| 0 <= i < rev@.len() ==> self@.contains(rev@[i]),
                forall|i: int| 1 <= i < rev@.len() ==> rev@[i].hash == rev@[i - 1].parent_hash,
                rev@.len() > 0 ==> rev@[0].hash == *tail,
                rev@.len() > 0 ==> cur == rev@.last().parent_hash,
                rev@.len() == 0 ==> cur == *tail,
                done ==> !has_hash(self@, cur),
            decreases self@.len() - rev@.len() + (if done { 0int } else { 1int }),
        {
            match self.find(&cur) {
                Some(k) => {
                    let h = self.entries[k];
                    rev.push(h);
                    cur = h.parent_hash;
                },
                None => {
                    done = true;
                },
            }
        }
        proof {
            if rev@.len() == 0 && !done {
                assert(self@.len() == 0);
            }
            if rev@.len() > 0 {
                assert(self@.contains(rev@[0]));
            }
            if rev@.len() < self@.len() {
                assert(done);
            }
        }
        let mut r: Vec<BlockHeader> = Vec::new();
        let mut i: usize = rev.len();
        while i > 0
            invariant
                i <= rev@.len(),
                r@.len() == rev@.len() - i,
                forall|j: int| 0 <= j < r@.len() ==> r@[j] == rev@[rev@.len() - 1 - j],
            decreases i,
        {
            i = i - 1;
            r.push(rev[i]);
        }
        proof {
            assert forall|j: int| 1 <= j < r@.len() implies r@[j].parent_hash == r@[j - 1].hash by {
                assert(r@[j - 1] == rev@[rev@.len() - 1 - (j - 1)]);
                assert(r@[j] == rev@[rev@.len() - 1 - j]);
            }
            if r@.len() > 0 {
                assert(r@[0] == rev@[rev@.len() - 1]);
                assert(r@.last() == rev@[0]);
                assert(has_hash(self@, *tail)) by {
                    let k = choose|k: int| 0 <= k < self@.len() && self@[k] == rev@[0];
                    assert(self@[k].hash == *tail);
                }
            }
        }
        r
    }
}


/// The `i`-th request slot of `[start, target)`.
pub open spec fn request_slot(start: u64, target: u64, i: int) -> HeaderRequest {
    let s = start + HEADERS_UPPER_BOUND * i;
    HeaderRequest {
        start: s as u64,
        limit: (if s + HEADERS_UPPER_BOUND < target { HEADERS_UPPER_BOUND as int } else { target - s }) as u64,
    }
}

/// The number of request slots in `[start, target)`.
pub open spec fn slot_count(start: u64, target: u64) -> int {
    (target - start + HEADERS_UPPER_BOUND - 1) / HEADERS_UPPER_BOUND as int
}

/// Whether `m` holds exactly one request for each slot of `[start, target)`.
pub open spec fn slots_ok(m: Map<u64, u64>, start: u64, target: u64) -> bool {
    &&& forall|k: u64| m.contains_key(k) <==> exists|i: int| 0 <= i < slot_count(start, target)
        && (#[trigger] request_slot(start, target, i)).start == k
    &&& forall|i: int| 0 <= i < slot_count(start, target)
        ==> m.contains_key(#[trigger] request_slot(start, target, i).start)
        && m[request_slot(start, target, i).start] == request_slot(start, target, i).limit
}

/// The minimum of two numbers.
pub open spec fn min_nat(a: nat, b: nat) -> nat {
    if a <= b { a } else { b }
}

/// The block that a run starting after `prev_progress` goes up to.
pub open spec fn target_spec(prev_progress: nat, chain_tip: nat, max_block: nat) -> nat {
    min_nat(min_nat(prev_progress + STAGE_UPPER_BOUND as nat, chain_tip), max_block)
}

/// The index of the first failed check at index 1 or later, or the length.
pub open spec fn first_failure_from(valid: Seq<bool>, i: int) -> nat
    decreases valid.len() - i,
{
    if i >= valid.len() {
        valid.len()
    } else if !valid[i] {
        i as nat
    } else {
        first_failure_from(valid, i + 1)
    }
}

/// How many headers stay after seal checks `valid` and the position of
/// the first bad block, `bad`.
pub open spec fn sealed_len(valid: Seq<bool>, bad: Option<usize>) -> nat {
    let k = if valid.len() == 0 { 0 } else { first_failure_from(valid, 1) };
    match bad {
        Some(b) => min_nat(k, b as nat),
        None => k,
    }
}

/// Whether `c` is a chain of the graph `g` that ends at its tip and reaches
/// back as far as the graph allows.
pub open spec fn is_tip_chain(g: Seq<BlockHeader>, c: Seq<BlockHeader>) -> bool {
    &&& is_linked(c)
    &&& c.len() <= g.len()
    &&& forall|i: int| 0 <= i < c.len() ==> g.contains(#[trigger] c[i])
    &&& (g.len() > 0 <==> c.len() > 0)
    &&& c.len() > 0 ==> exists|i: int| {
        &&& 0 <= i < g.len()
        &&& g[i].hash == c.last().hash
        &&& forall|j: int| 0 <= j < g.len() && j != i ==> !better_tip(g[j], g[i])
    }
    &&& c.len() > 0 && c.len() < g.len() ==> !has_hash(g, c[0].parent_hash)
}

/// A header numbered `end` or higher.
pub open spec fn at_or_above(end: u64) -> spec_fn(BlockHeader) -> bool {
    |h: BlockHeader| h.number >= end
}

/// The headers of `c` before the first one numbered `end` or higher.
pub open spec fn cut_at(c: Seq<BlockHeader>, end: u64) -> Seq<BlockHeader> {
    match first_match(c, at_or_above(end), 0) {
        Some(k) => c.subrange(0, k),
        None => c,
    }
}

/// What the receiver made of one batch of headers.
#[derive(Clone, Copy, Debug, PartialEq, Eq, Structural)]
pub enum Reception {
    /// The batch held no header.
    Empty,
    /// The numbers do not run up by one: the sending peer is penalized.
    Rejected,
    /// The batch answers an outstanding request, which is removed.
    Filled,
    /// The batch answers no request but lies in range and is new.
    Opportunistic,
    /// The batch changes nothing.
    Ignored,
}

/// What a run of the stage reports.
#[derive(Clone, Copy, Debug, PartialEq, Eq, Structural)]
pub enum ExecOutput {
    Progress { stage_progress: u64, done: bool, reached_tip: bool },
    Unwind { unwind_to: u64 },
}

/// Why a run of the stage failed.
#[derive(Clone, Copy, Debug, PartialEq, Eq, Structural)]
pub enum StageError {
    /// The canonical chain has no block at the stage's progress.
    NoCanonicalHash { block: u64 },
}

/// What an unwind reports.
#[derive(Clone, Copy, Debug, PartialEq, Eq, Structural)]
pub struct UnwindOutput {
    pub stage_progress: u64,
}

/// The header-download stage: the requests still outstanding and the
/// headers received so far.
pub struct HeaderDownload {
    max_block: u64,
    graph: Graph,
    requests: DashMap<u64, u64>,
    start: u64,
    end: u64,
}

impl HeaderDownload {
    /// The highest block the stage writes.
    pub closed spec fn cap(&self) -> u64 {
        self.max_block
    }

    /// The headers received so far.
    pub closed spec fn graph_view(&self) -> Seq<BlockHeader> {
        self.graph@
    }

    pub fn max_block(&self) -> (r: u64)
        ensures
            r == self.cap(),
    {
        self.max_block
    }

    /// The outstanding requests: the first block of each slot, and the
    /// number of headers the slot asks for.
    pub closed spec fn requests(&self) -> Map<u64, u64> {
        slots_of(self.requests)
    }

    /// The range that the current download accepts headers from.
    pub closed spec fn range(&self) -> (u64, u64) {
        (self.start, self.end)
    }

    pub fn new(max_block: u64) -> (r: HeaderDownload)
        ensures
            r.cap() == max_block,
            r.graph_view() == Seq::<BlockHeader>::empty(),
            r.requests() == Map::<u64, u64>::empty(),
    {
        HeaderDownload { max_block, graph: Graph::new(), requests: slots_new(), start: 0, end: 0 }
    }

    /// Splits `[starting_block, target)` into slots of at most
    /// `HEADERS_UPPER_BOUND` blocks: the result maps the first block of each
    /// slot to the number of headers to ask for.
    pub fn prepare_requests(starting_block: u64, target: u64) -> (r: DashMap<u64, u64>)
        requires
            starting_block < target,
        ensures
            slots_ok(slots_of(r), starting_block, target),
    {
        let mut r = slots_new();
        let mut s: u64 = starting_block;
        let ghost mut n: int = 0;
        while s < target
            invariant
                starting_block <= s <= target,
                s < target ==> s - starting_block == HEADERS_UPPER_BOUND * n,
                s == target ==> n == slot_count(starting_block, target),
                n >= 0,
                forall|k: u64| slots_of(r).contains_key(k) <==> exists|i: int| 0 <= i < n
                    && (#[trigger] request_slot(starting_block, target, i)).start == k,
                forall|i: int| 0 <= i < n ==> slots_of(r).contains_key(#[trigger] request_slot(starting_block, target, i).start)
                    && slots_of(r)[request_slot(starting_block, target, i).start] == request_slot(starting_block, target, i).limit,
                forall|i: int| 0 <= i < n ==> (#[trigger] request_slot(starting_block, target, i)).start < s,
            decreases target - s,
        {
            let remaining = target - s;
            let limit: u64 = if remaining > HEADERS_UPPER_BOUND { HEADERS_UPPER_BOUND } else { remaining };
            let ghost before = slots_of(r);
            slots_insert(&mut r, s, limit);
            proof {
                let sl = request_slot(starting_block, target, n);
                assert(sl.start == s && sl.limit == limit);
                assert forall|k: u64| slots_of(r).contains_key(k) <==> exists|i: int| 0 <= i < n + 1
                    && (#[trigger] request_slot(starting_block, target, i)).start == k by {
                    if k == s {
                        assert(request_slot(starting_block, target, n).start == k);
                    }
                    if exists|i: int| 0 <= i < n + 1 && (#[trigger] request_slot(starting_block, target, i)).start == k {
                        let i = choose|i: int| 0 <= i < n + 1 && (#[trigger] request_slot(starting_block, target, i)).start == k;
                        if i < n {
                            assert(before.contains_key(k));
                        }
                    }
                }
                assert forall|i: int| 0 <= i < n + 1 implies slots_of(r).contains_key(#[trigger] request_slot(starting_block, target, i).start)
                    && slots_of(r)[request_slot(starting_block, target, i).start] == request_slot(starting_block, target, i).limit by {
                    if i < n {
                        assert(request_slot(starting_block, target, i).start < s);
                    }
                }
            }
            if remaining > HEADERS_UPPER_BOUND {
                s = s + HEADERS_UPPER_BOUND;
            } else {
                proof {
                    let d = (target - starting_block) as int;
                    assert((d + HEADERS_UPPER_BOUND - 1) / HEADERS_UPPER_BOUND as int == n + 1) by (nonlinear_arith)
                        requires
                            d == 1024 * n + remaining,
                            1 <= remaining <= 1024,
                            HEADERS_UPPER_BOUND == 1024;
                }
                s = target;
            }
            proof {
                n = n + 1;
            }
        }
        r
    }

    /// Starts a download of the headers in `[start, end)`: one outstanding
    /// request for each slot, and headers accepted from `start` to `end`.
    pub fn begin_download(&mut self, start: u64, end: u64)
        requires
            start < end,
        ensures
            final(self).cap() == old(self).cap(),
            final(self).graph_view() == old(self).graph_view(),
            final(self).range() == (start, end),
            slots_ok(final(self).requests(), start, end),
    {
        self.requests = HeaderDownload::prepare_requests(start, end);
        self.start = start;
        self.end = end;
    }

    /// The outstanding requests, to be sent again, in no given order.
    pub fn outstanding(&self) -> (r: Vec<HeaderRequest>)
        ensures
            forall|i: int| 0 <= i < r@.len() ==> self.requests().contains_key(#[trigger] r@[i].start)
                && self.requests()[r@[i].start] == r@[i].limit,
            forall|k: u64| self.requests().contains_key(k) ==> exists|i: int| 0 <= i < r@.len() && r@[i].start == k,
            forall|i: int, j: int| 0 <= i < j < r@.len() ==> r@[i].start != r@[j].start,
    {
        let entries = slots_entries(&self.requests);
        let mut r: Vec<HeaderRequest> = Vec::new();
        let mut i: usize = 0;
        while i < entries.len()
            invariant
                i <= entries@.len(),
                r@.len() == i,
                forall|j: int| 0 <= j < i ==> (#[trigger] r@[j]).start == entries@[j].0 && r@[j].limit == entries@[j].1,
            decreases entries@.len() - i,
        {
            r.push(HeaderRequest { start: entries[i].0, limit: entries[i].1 });
            i = i + 1;
        }
        proof {
            assert forall|k: u64| self.requests().contains_key(k) implies exists|j: int| 0 <= j < r@.len() && r@[j].start == k by {
                let j = choose|j: int| 0 <= j < entries@.len() && entries@[j].0 == k;
                assert(r@[j].start == k);
            }
            assert forall|a: int| 0 <= a < r@.len() implies self.requests().contains_key(#[trigger] r@[a].start)
                && self.requests()[r@[a].start] == r@[a].limit by {
                assert(r@[a].start == entries@[a].0);
            }
            assert forall|a: int, b: int| 0 <= a < b < r@.len() implies r@[a].start != r@[b].start by {
                assert(r@[a].start == entries@[a].0 && r@[b].start == entries@[b].0);
            }
        }
        r
    }

    /// Whether every request has been answered.
    pub fn is_complete(&self) -> (r: bool)
        ensures
            r == (self.requests().dom() == Set::<u64>::empty()),
    {
        slots_is_empty(&self.requests)
    }

    /// Handles one batch of headers from a peer.
    pub fn receive(&mut self, headers: &[BlockHeader]) -> (r: Reception)
        ensures
            final(self).cap() == old(self).cap(),
            final(self).range() == old(self).range(),
            ({
                let hs = headers@;
                let rs = old(self).requests();
                let g = old(self).graph_view();
                let (lo, hi) = old(self).range();
                if hs.len() == 0 {
                    r == Reception::Empty && final(self).requests() == rs && final(self).graph_view() == g
                } else if !is_contiguous(hs) {
                    r == Reception::Rejected && final(self).requests() == rs && final(self).graph_view() == g
                } else if rs.contains_key(hs[0].number) {
                    if rs[hs[0].number] == hs.len() {
                        &&& r == Reception::Filled
                        &&& final(self).graph_view() == extend_spec(g, hs)
                        &&& final(self).requests() == rs.remove(hs[0].number)
                    } else {
                        r == Reception::Ignored && final(self).requests() == rs && final(self).graph_view() == g
                    }
                } else if !has_hash(g, hs.last().hash) && lo <= hs[0].number <= hi {
                    &&& r == Reception::Opportunistic
                    &&& final(self).graph_view() == extend_spec(g, hs)
                    &&& final(self).requests() == rs
                } else {
                    r == Reception::Ignored && final(self).requests() == rs && final(self).graph_view() == g
                }
            }),
    {
        if headers.len() == 0 {
            return Reception::Empty;
        }
        if !dummy_check_headers(headers) {
            return Reception::Rejected;
        }
        let num = headers[0].number;
        let last_hash = headers[headers.len() - 1].hash;
        match slots_get(&self.requests, num) {
            Some(limit) => {
                if headers.len() as u64 == limit {
                    slots_remove(&mut self.requests, num);
                    self.graph.extend(headers);
                    Reception::Filled
                } else {
                    Reception::Ignored
                }
            },
            None => {
                if !self.graph.contains(&last_hash) && self.start <= num && num <= self.end {
                    self.graph.extend(headers);
                    Reception::Opportunistic
                } else {
                    Reception::Ignored
                }
            },
        }
    }

    /// The canonical chain among the headers received: from the tip back
    /// as far as the graph reaches, oldest first, cut before the first
    /// header at or above the end of the download's range.
    pub fn build_chain(&self) -> (r: Vec<BlockHeader>)
        ensures
            exists|c: Seq<BlockHeader>| is_tip_chain(self.graph_view(), c) && r@ == cut_at(c, self.range().1),
            forall|i: int| 0 <= i < r@.len() ==> (#[trigger] r@[i]).number < self.range().1,
    {
        let c = match self.graph.dfs() {
            Some(tail) => self.graph.backtrack(&tail),
            None => Vec::new(),
        };
        proof {
            assert(is_tip_chain(self.graph_view(), c@));
        }
        let mut c = c;
        let mut k: usize = 0;
        while k < c.len() && c[k].number < self.end
            invariant
                k <= c@.len(),
                first_match(c@, at_or_above(self.end), k as int) == first_match(c@, at_or_above(self.end), 0),
            decreases c@.len() - k,
        {
            k = k + 1;
        }
        let ghost whole = c@;
        proof {
            lemma_first_match(whole, at_or_above(self.end), 0);
            if k < whole.len() {
                assert(at_or_above(self.end)(whole[k as int]));
            }
        }
        c.truncate(k);
        proof {
            assert(c@ =~= cut_at(whole, self.end));
            assert forall|i: int| 0 <= i < c@.len() implies (#[trigger] c@[i]).number < self.end by {
                assert(!at_or_above(self.end)(whole[i]));
            }
        }
        c
    }

    /// Commits downloaded headers on top of block `prev_progress`.
    ///
    /// Fails where the chain has no block `prev_progress`. Where the first
    /// header does not link to that block, nothing is written and the stage
    /// asks to unwind to the block below. Otherwise the headers are written
    /// in order: block 0 is skipped, and writing stops above `target` or the
    /// stage's cap, at a header that is not the block after the progress so
    /// far, or at one that does not link. The progress stays between
    /// `prev_progress` and `target`, or at `prev_progress` where that is
    /// higher.
    pub fn commit(
        &self,
        store: &mut HeaderStore,
        prev_progress: u64,
        target: u64,
        headers: &[BlockHeader],
        reached_tip: bool,
    ) -> (r: Result<ExecOutput, StageError>)
        requires
            old(store).wf(),
        ensures
            final(store).wf(),
            r matches Ok(ExecOutput::Progress { stage_progress, .. }) ==> prev_progress <= stage_progress
                && stage_progress <= (if prev_progress > target { prev_progress } else { target }),
            ({
                let c = old(store)@;
                let hs = headers@;
                if prev_progress >= c.len() {
                    r == Err::<ExecOutput, StageError>(StageError::NoCanonicalHash { block: prev_progress })
                        && final(store)@ == c
                } else if hs.len() > 0 && hs[0].parent_hash != c[prev_progress as int].0.hash {
                    &&& r == Ok::<ExecOutput, StageError>(ExecOutput::Unwind {
                        unwind_to: (if prev_progress == 0 { 0 } else { prev_progress - 1 }) as u64,
                    })
                    &&& final(store)@ == c
                } else {
                    let (c2, p) = apply_from(c, prev_progress as nat, hs, 0, min_u64(target, self.cap()) as nat);
                    &&& r == Ok::<ExecOutput, StageError>(ExecOutput::Progress {
                        stage_progress: p as u64,
                        done: true,
                        reached_tip,
                    })
                    &&& final(store)@ == c2
                }
            }),
    {
        let prev_hash = match store.canonical_hash(prev_progress) {
            Some(h) => h,
            None => return Err(StageError::NoCanonicalHash { block: prev_progress }),
        };
        if headers.len() > 0 && headers[0].parent_hash != prev_hash {
            let unwind_to = if prev_progress == 0 { 0 } else { prev_progress - 1 };
            return Ok(ExecOutput::Unwind { unwind_to });
        }
        let cap: u64 = if target < self.max_block { target } else { self.max_block };
        proof {
            lemma_apply_progress(old(store)@, prev_progress as nat, headers@, 0, cap as nat);
        }
        let mut progress: u64 = prev_progress;
        let mut i: usize = 0;
        let mut stop = false;
        while i < headers.len() && !stop
            invariant
                store.wf(),
                i <= headers@.len(),
                cap == min_u64(target, self.cap()),
                apply_from(store@, progress as nat, headers@, i as int, cap as nat)
                    == apply_from(old(store)@, prev_progress as nat, headers@, 0, cap as nat),
                stop ==> apply_from(store@, progress as nat, headers@, i as int, cap as nat)
                    == (store@, progress as nat),
            decreases headers@.len() - i, (if stop { 0int } else { 1int }),
        {
            let h = headers[i];
            if h.number == 0 {
                i = i + 1;
            } else if h.number > cap || h.number as u128 != progress as u128 + 1 {
                stop = true;
            } else if store.write_header(h) {
                progress = h.number;
                i = i + 1;
            } else {
                stop = true;
            }
        }
        Ok(ExecOutput::Progress { stage_progress: progress, done: true, reached_tip })
    }

    /// Undoes the stage down to block `unwind_to`: the graph is cleared and
    /// the canonical blocks above `unwind_to` are dropped. Returns the new
    /// progress, and the canonical hash of `bad_block` where it has one,
    /// for the peers' side to mark as bad.
    pub fn unwind(&mut self, store: &mut HeaderStore, unwind_to: u64, bad_block: Option<u64>)
        -> (r: (UnwindOutput, Option<H256>))
        requires
            old(store).wf(),
        ensures
            final(store).wf(),
            final(self).graph_view() == Seq::<BlockHeader>::empty(),
            final(self).cap() == old(self).cap(),
            final(self).requests() == old(self).requests(),
            final(self).range() == old(self).range(),
            r.0.stage_progress == min_u64(unwind_to, (old(store)@.len() - 1) as u64),
            final(store)@ == old(store)@.subrange(0, r.0.stage_progress + 1),
            r.1 == (match bad_block {
                Some(b) => if b < old(store)@.len() { Some(old(store)@[b as int].0.hash) } else { None::<H256> },
                None => None::<H256>,
            }),
    {
        self.graph.clear();
        let bad = match bad_block {
            Some(b) => store.canonical_hash(b),
            None => None,
        };
        let p = store.unwind_to(unwind_to);
        (UnwindOutput { stage_progress: p }, bad)
    }

    /// Keeps the headers before the first one whose seal check failed
    /// (`valid[i]` checks header `i` against header `i - 1`; the first header
    /// is not checked), and before the first bad block, at `bad`.
    pub fn verify_seal(headers: &mut Vec<BlockHeader>, valid: &Vec<bool>, bad: Option<usize>)
        requires
            valid@.len() == old(headers)@.len(),
        ensures
            final(headers)@ == old(headers)@.subrange(0, sealed_len(valid@, bad) as int),
    {
        let mut k: usize = 0;
        if valid.len() > 0 {
            let mut i: usize = 1;
            while i < valid.len() && valid[i]
                invariant
                    1 <= i <= valid@.len(),
                    first_failure_from(valid@, i as int) == first_failure_from(valid@, 1),
                decreases valid@.len() - i,
            {
                i = i + 1;
            }
            k = i;
        }
        match bad {
            Some(b) => {
                if b < k {
                    k = b;
                }
            },
            None => {},
        }
        headers.truncate(k);
        assert(headers@ =~= old(headers)@.subrange(0, sealed_len(valid@, bad) as int));
    }
}

/// The block that a run starting after `prev_progress` goes up to, and
/// whether that block is the chain tip or the stage's cap.
pub fn stage_target(prev_progress: u64, chain_tip: u64, max_block: u64) -> (r: (u64, bool))
    ensures
        r.0 == target_spec(prev_progress as nat, chain_tip as nat, max_block as nat),
        r.1 == (r.0 == chain_tip || r.0 == max_block),
{
    let bound: u128 = prev_progress as u128 + STAGE_UPPER_BOUND as u128;
    let mut target: u64 = if bound < chain_tip as u128 { bound as u64 } else { chain_tip };
    if max_block < target {
        target = max_block;
    }
    (target, target == chain_tip || target == max_block)
}

} // verus!
