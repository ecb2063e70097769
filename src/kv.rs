use vstd::prelude::*;
use crate::word::H256;

verus! {

/// The index of the first element from `i` on that satisfies `p`.
pub open spec fn first_match<T>(s: Seq<T>, p: spec_fn(T) -> bool, i: int) -> Option<int>
    decreases s.len() - i,
{
    if i < 0 || i >= s.len() {
        None
    } else if p(s[i]) {
        Some(i)
    } else {
        first_match(s, p, i + 1)
    }
}

/// A first match is a match, and nothing before it from `i` on matches.
pub proof fn lemma_first_match<T>(s: Seq<T>, p: spec_fn(T) -> bool, i: int)
    requires
        0 <= i,
    ensures
        first_match(s, p, i) matches Some(k) ==> i <= k < s.len() && p(s[k])
            && forall|j: int| i <= j < k ==> !p(#[trigger] s[j]),
        first_match(s, p, i) is None ==> forall|j: int| i <= j < s.len() ==> !p(#[trigger] s[j]),
    decreases s.len() - i,
{
    if i < s.len() && !p(s[i]) {
        lemma_first_match(s, p, i + 1);
    }
}

/// Changing or adding elements that do not match leaves the first match.
pub proof fn lemma_first_match_frame<T>(s: Seq<T>, t: Seq<T>, p: spec_fn(T) -> bool, i: int)
    requires
        0 <= i,
        forall|j: int| 0 <= j < s.len() && p(s[j]) ==> j < t.len() && t[j] == s[j],
        forall|j: int| 0 <= j < t.len() && p(t[j]) ==> j < s.len() && t[j] == s[j],
    ensures
        first_match(t, p, i) == first_match(s, p, i),
    decreases s.len() + t.len() - i,
{
    if i < s.len() || i < t.len() {
        if i < s.len() && p(s[i]) {
        } else if i < t.len() && p(t[i]) {
        } else {
            lemma_first_match_frame(s, t, p, i + 1);
        }
    }
}

/// An entry of a table whose key is `k`.
pub open spec fn key_is<V>(k: u64) -> spec_fn((u64, V)) -> bool {
    |e: (u64, V)| e.0 == k
}

/// An entry of a table whose key is at least `k`.
pub open spec fn key_at_least<V>(k: u64) -> spec_fn((u64, V)) -> bool {
    |e: (u64, V)| e.0 >= k
}

/// The value at key `k`.
pub open spec fn table_get<V>(s: Seq<(u64, V)>, k: u64) -> Option<V> {
    match first_match(s, key_is::<V>(k), 0) {
        Some(i) => Some(s[i].1),
        None => None,
    }
}

/// Where a seek for `k` lands: the first entry whose key is at least `k`,
/// or the end.
pub open spec fn seek_index<V>(s: Seq<(u64, V)>, k: u64) -> int {
    match first_match(s, key_at_least::<V>(k), 0) {
        Some(i) => i,
        None => s.len() as int,
    }
}

/// How many of the keys `from`, `from + 1`, ..., `from + n - 1` stand in
/// the table one after another, counting on from the `i`-th.
pub open spec fn run_len<V>(s: Seq<(u64, V)>, from: u64, n: nat, i: nat) -> nat
    decreases n - i,
{
    if i >= n || from + i > u64::MAX || table_get(s, (from + i) as u64) is None {
        i
    } else {
        run_len(s, from, n, i + 1)
    }
}

/// The values at keys `from`, `from + 1`, ..., up to the first missing key,
/// at most `n` of them.
pub open spec fn table_run<V>(s: Seq<(u64, V)>, from: u64, n: nat) -> Seq<V> {
    Seq::new(run_len(s, from, n, 0), |i: int| table_get(s, (from + i) as u64)->Some_0)
}

/// Whether the keys ascend strictly.
pub open spec fn keys_ascend<V>(s: Seq<(u64, V)>) -> bool {
    forall|i: int, j: int| 0 <= i < j < s.len() ==> s[i].0 < s[j].0
}

/// A table ordered by its 64-bit keys, one value for each key.
pub struct Table<V> {
    entries: Vec<(u64, V)>,
}

impl<V> View for Table<V> {
    type V = Seq<(u64, V)>;

    closed spec fn view(&self) -> Seq<(u64, V)> {
        self.entries@
    }
}

impl<V: Copy> Table<V> {
    pub open spec fn wf(&self) -> bool {
        keys_ascend(self@)
    }

    pub fn new() -> (r: Table<V>)
        ensures
            r.wf(),
            r@ == Seq::<(u64, V)>::empty(),
    {
        Table { entries: Vec::new() }
    }

    fn seek(&self, k: u64) -> (r: usize)
        ensures
            r == seek_index(self@, k),
    {
        let mut i: usize = 0;
        while i < self.entries.len()
            invariant
                i <= self@.len(),
                first_match(self@, key_at_least::<V>(k), i as int) == first_match(self@, key_at_least::<V>(k), 0),
            decreases self@.len() - i,
        {
            if self.entries[i].0 >= k {
                return i;
            }
            i = i + 1;
        }
        i
    }

    /// The value at key `k`.
    pub fn get(&self, k: u64) -> (r: Option<V>)
        requires
            self.wf(),
        ensures
            r == table_get(self@, k),
    {
        let i = self.seek(k);
        proof {
            lemma_first_match(self@, key_at_least::<V>(k), 0);
            lemma_first_match(self@, key_is::<V>(k), 0);
        }
        if i < self.entries.len() && self.entries[i].0 == k {
            proof {
                assert forall|j: int| 0 <= j < i implies !key_is::<V>(k)(#[trigger] self@[j]) by {
                    assert(!key_at_least::<V>(k)(self@[j]));
                }
                lemma_first_match_prefix(self@, key_is::<V>(k), i as int);
            }
            Some(self.entries[i].1)
        } else {
            proof {
                if first_match(self@, key_is::<V>(k), 0) is Some {
                    let j = first_match(self@, key_is::<V>(k), 0)->Some_0;
                    assert(key_at_least::<V>(k)(self@[j]));
                    if i < self@.len() && j > i {
                        assert(self@[i as int].0 < self@[j].0);
                    }
                }
            }
            None
        }
    }

    /// Sets the value at key `k`, keeping the keys in order.
    pub fn put(&mut self, k: u64, v: V)
        requires
            old(self).wf(),
        ensures
            final(self).wf(),
            table_get(final(self)@, k) == Some(v),
            forall|x: u64| x != k ==> table_get(final(self)@, x) == table_get(old(self)@, x),
    {
        let i = self.seek(k);
        let ghost s0 = self@;
        proof {
            lemma_first_match(s0, key_at_least::<V>(k), 0);
        }
        if i < self.entries.len() && self.entries[i].0 == k {
            self.entries.set(i, (k, v));
        } else {
            self.entries.insert(i, (k, v));
        }
        let ghost s1 = self@;
        proof {
            assert forall|a: int, b: int| 0 <= a < b < s1.len() implies s1[a].0 < s1[b].0 by {
                if s1.len() == s0.len() {
                    if a == i {
                        assert(s0[a].0 == k);
                    }
                    if b == i {
                        assert(s0[b].0 == k);
                    }
                } else {
                    if a < i {
                        assert(!key_at_least::<V>(k)(s0[a]));
                    }
                    if b > i && a >= i {
                        assert(s1[b] == s0[b - 1]);
                        if a > i {
                            assert(s1[a] == s0[a - 1]);
                        } else {
                            assert(key_at_least::<V>(k)(s0[i as int]));
                            if b - 1 > i {
                                assert(s0[i as int].0 < s0[b - 1].0);
                            }
                        }
                    }
                }
            }
            lemma_get_in_ascending(s1, i as int);
            assert forall|x: u64| x != k implies table_get(s1, x) == table_get(s0, x) by {
                lemma_first_match(s0, key_is::<V>(x), 0);
                lemma_first_match(s1, key_is::<V>(x), 0);
                match first_match(s0, key_is::<V>(x), 0) {
                    Some(j) => {
                        let j1 = if s1.len() == s0.len() || j < i { j } else { j + 1 };
                        assert(s1[j1] == s0[j]);
                        lemma_get_in_ascending(s1, j1);
                    },
                    None => {
                        if first_match(s1, key_is::<V>(x), 0) is Some {
                            let j = first_match(s1, key_is::<V>(x), 0)->Some_0;
                            if s1.len() == s0.len() || j < i {
                                assert(s1[j] == s0[j]);
                            } else {
                                assert(s1[j] == s0[j - 1]);
                            }
                        }
                    },
                }
            }
        }
    }

    /// The values at keys `from`, `from + 1`, ..., up to the first missing
    /// key, at most `n` of them.
    #[verifier::spinoff_prover]
    pub fn run(&self, from: u64, n: usize) -> (r: Vec<V>)
        requires
            self.wf(),
        ensures
            r@ == table_run(self@, from, n as nat),
    {
        let mut out: Vec<V> = Vec::new();
        let mut i: usize = 0;
        let mut stop = false;
        while i < n && !stop
            invariant
                self.wf(),
                i <= n,
                out@.len() == i,
                !stop ==> run_len(self@, from, n as nat, i as nat) == run_len(self@, from, n as nat, 0),
                stop ==> run_len(self@, from, n as nat, 0) == i,
                holds_run(self@, from, out@),
            decreases n - i, (if stop { 0int } else { 1int }),
        {
            if from as u128 + i as u128 > u64::MAX as u128 {
                assert(run_len(self@, from, n as nat, i as nat) == i);
                stop = true;
            } else {
                match self.get(from + i as u64) {
                    Some(v) => {
                        let ghost old_out = out@;
                        out.push(v);
                        proof {
                            assert(table_get(self@, (from + i) as u64) == Some(v));
                            assert(run_len(self@, from, n as nat, i as nat) == run_len(self@, from, n as nat, (i + 1) as nat));
                            assert forall|j: int| 0 <= j < out@.len() implies
                                table_get(self@, (from + j) as u64) == Some(#[trigger] out@[j]) by {
                                if j < i {
                                    assert(out@[j] == old_out[j]);
                                }
                            }
                            assert(holds_run(self@, from, out@));
                        }
                        i = i + 1;
                    },
                    None => {
                        assert(run_len(self@, from, n as nat, i as nat) == i);
                        stop = true;
                    },
                }
            }
        }
        proof {
            let k = run_len(self@, from, n as nat, 0);
            assert(k == i);
            assert forall|j: int| 0 <= j < i implies out@[j] == table_run(self@, from, n as nat)[j] by {
                assert(table_get(self@, (from + j) as u64) == Some(out@[j]));
            }
        }
        assert(out@ =~= table_run(self@, from, n as nat));
        out
    }
}

/// Nothing before `i` matches: the first match from 0 is the first from `i`.
pub proof fn lemma_first_match_prefix<T>(s: Seq<T>, p: spec_fn(T) -> bool, i: int)
    requires
        0 <= i,
        forall|j: int| 0 <= j < i ==> !p(#[trigger] s[j]),
    ensures
        first_match(s, p, 0) == first_match(s, p, i),
    decreases i,
{
    if i > 0 && s.len() > 0 {
        lemma_first_match_prefix(s, p, i - 1);
        if i - 1 < s.len() {
            assert(!p(s[i - 1]));
        }
    }
}

/// In a table whose keys ascend, the entry at `i` is what its key maps to.
pub proof fn lemma_get_in_ascending<V>(s: Seq<(u64, V)>, i: int)
    requires
        keys_ascend(s),
        0 <= i < s.len(),
    ensures
        table_get(s, s[i].0) == Some(s[i].1),
{
    let k = s[i].0;
    assert forall|j: int| 0 <= j < i implies !key_is::<V>(k)(#[trigger] s[j]) by {
        assert(s[j].0 < s[i].0);
    }
    lemma_first_match_prefix(s, key_is::<V>(k), i);
}

/// Whether keys `from`, `from + 1`, ... hold the values `xs` in turn.
pub open spec fn holds_run<V>(s: Seq<(u64, V)>, from: u64, xs: Seq<V>) -> bool {
    &&& from + xs.len() <= u64::MAX + 1
    &&& forall|j: int| 0 <= j < xs.len() ==> table_get(s, (from + j) as u64) == Some(#[trigger] xs[j])
}

/// The run counted on from `i` is at least `i`, at most `n`, and reaches
/// `n` exactly where every key from `from + i` to `from + n - 1` stands.
pub proof fn lemma_run_len<V>(s: Seq<(u64, V)>, from: u64, n: nat, i: nat)
    requires
        i <= n,
    ensures
        i <= run_len(s, from, n, i) <= n,
        run_len(s, from, n, i) == n <==> forall|j: int| i <= j < n ==> from + j <= u64::MAX
            && (#[trigger] table_get(s, (from + j) as u64)) is Some,
    decreases n - i,
{
    if i < n && !(from + i > u64::MAX || table_get(s, (from + i) as u64) is None) {
        lemma_run_len(s, from, n, i + 1);
        if run_len(s, from, n, i) == n {
            assert forall|j: int| i <= j < n implies from + j <= u64::MAX
                && (#[trigger] table_get(s, (from + j) as u64)) is Some by {
                if j > i {
                    assert(i + 1 <= j);
                }
            }
        }
    } else if i < n {
        if forall|j: int| i <= j < n ==> from + j <= u64::MAX
            && (#[trigger] table_get(s, (from + j) as u64)) is Some {
            assert(table_get(s, (from + i) as u64) is Some);
        }
    }
}

/// A read of `n` values from `from` returns `n` of them exactly where every
/// key from `from` to `from + n - 1` stands.
pub proof fn lemma_run_full<V>(s: Seq<(u64, V)>, from: u64, n: nat)
    ensures
        table_run(s, from, n).len() <= n,
        table_run(s, from, n).len() == n <==> forall|j: int| 0 <= j < n ==> from + j <= u64::MAX
            && (#[trigger] table_get(s, (from + j) as u64)) is Some,
{
    lemma_run_len(s, from, n, 0);
}

/// Values written at consecutive keys are read back from the first of them,
/// all of them and in order.
pub proof fn lemma_run_of_written<V>(s: Seq<(u64, V)>, from: u64, xs: Seq<V>)
    requires
        holds_run(s, from, xs),
    ensures
        table_run(s, from, xs.len()) == xs,
{
    lemma_run_full(s, from, xs.len());
    assert forall|j: int| 0 <= j < xs.len() implies from + j <= u64::MAX
        && (#[trigger] table_get(s, (from + j) as u64)) is Some by {
        assert(table_get(s, (from + j) as u64) == Some(xs[j]));
    }
    let r = table_run(s, from, xs.len());
    assert forall|j: int| 0 <= j < xs.len() implies r[j] == xs[j] by {
        assert(table_get(s, (from + j) as u64) == Some(xs[j]));
    }
    assert(r =~= xs);
}

/// The key of the tables keyed by block: `number ‖ hash`.
#[derive(Clone, Copy, Debug, PartialEq, Eq, Structural)]
pub struct HeaderKey {
    pub number: u64,
    pub hash: H256,
}

/// An entry whose key is `k`.
pub open spec fn entry_key_is<K, V>(k: K) -> spec_fn((K, V)) -> bool {
    |e: (K, V)| e.0 == k
}

/// The value at key `k` of a table with one entry for each key.
pub open spec fn entry_get<K, V>(s: Seq<(K, V)>, k: K) -> Option<V> {
    match first_match(s, entry_key_is::<K, V>(k), 0) {
        Some(i) => Some(s[i].1),
        None => None,
    }
}

/// A table keyed by `number ‖ hash`.
pub struct HeaderTable<V> {
    entries: Vec<(HeaderKey, V)>,
}

impl<V> View for HeaderTable<V> {
    type V = Seq<(HeaderKey, V)>;

    closed spec fn view(&self) -> Seq<(HeaderKey, V)> {
        self.entries@
    }
}

impl<V> HeaderTable<V> {
    pub fn new() -> (r: HeaderTable<V>)
        ensures
            r@ == Seq::<(HeaderKey, V)>::empty(),
    {
        HeaderTable { entries: Vec::new() }
    }

    fn slot(&self, k: HeaderKey) -> (r: Option<usize>)
        ensures
            match r {
                Some(i) => first_match(self@, entry_key_is::<HeaderKey, V>(k), 0) == Some(i as int),
                None => first_match(self@, entry_key_is::<HeaderKey, V>(k), 0) is None,
            },
    {
        let mut i: usize = 0;
        while i < self.entries.len()
            invariant
                i <= self@.len(),
                first_match(self@, entry_key_is::<HeaderKey, V>(k), i as int) == first_match(self@, entry_key_is::<HeaderKey, V>(k), 0),
            decreases self@.len() - i,
        {
            if self.entries[i].0 == k {
                return Some(i);
            }
            i = i + 1;
        }
        None
    }

    /// A reference to the value at key `k`.
    pub fn get_ref(&self, k: HeaderKey) -> (r: Option<&V>)
        ensures
            match r {
                Some(v) => entry_get(self@, k) == Some(*v),
                None => entry_get(self@, k) is None,
            },
    {
        match self.slot(k) {
            Some(i) => {
                proof {
                    lemma_first_match(self@, entry_key_is::<HeaderKey, V>(k), 0);
                }
                Some(&self.entries[i].1)
            },
            None => None,
        }
    }

    /// Sets the value at key `k`.
    pub fn put(&mut self, k: HeaderKey, v: V)
        ensures
            entry_get(final(self)@, k) == Some(v),
            forall|x: HeaderKey| x != k ==> entry_get(final(self)@, x) == entry_get(old(self)@, x),
    {
        let slot = self.slot(k);
        let ghost t = self@;
        proof {
            lemma_first_match(t, entry_key_is::<HeaderKey, V>(k), 0);
        }
        let i: usize = match slot {
            Some(i) => {
                self.entries.set(i, (k, v));
                i
            },
            None => {
                let n = self.entries.len();
                self.entries.push((k, v));
                n
            },
        };
        proof {
            let u = self@;
            assert forall|x: HeaderKey| x != k implies entry_get(u, x) == entry_get(t, x) by {
                assert forall|j: int| 0 <= j < t.len() && entry_key_is::<HeaderKey, V>(x)(t[j])
                    implies j < u.len() && u[j] == t[j] by {
                    if j == i {
                        assert(t[j].0 == k);
                    }
                }
                assert forall|j: int| 0 <= j < u.len() && entry_key_is::<HeaderKey, V>(x)(u[j])
                    implies j < t.len() && u[j] == t[j] by {
                    if j == i {
                        assert(u[j].0 == k);
                    }
                }
                lemma_first_match_frame(t, u, entry_key_is::<HeaderKey, V>(x), 0);
                lemma_first_match(t, entry_key_is::<HeaderKey, V>(x), 0);
            }
            lemma_first_match(u, entry_key_is::<HeaderKey, V>(k), 0);
            assert(entry_key_is::<HeaderKey, V>(k)(u[i as int]));
            if first_match(u, entry_key_is::<HeaderKey, V>(k), 0) != Some(i as int) {
                let j = first_match(u, entry_key_is::<HeaderKey, V>(k), 0)->Some_0;
                assert(u[j] == t[j]);
            }
        }
    }
}

impl<V: Copy> HeaderTable<V> {
    /// The value at key `k`.
    pub fn get(&self, k: HeaderKey) -> (r: Option<V>)
        ensures
            r == entry_get(self@, k),
    {
        match self.get_ref(k) {
            Some(v) => Some(*v),
            None => None,
        }
    }
}

/// A table keyed by a hash.
pub struct HashTable<V> {
    entries: Vec<(H256, V)>,
}

impl<V> View for HashTable<V> {
    type V = Seq<(H256, V)>;

    closed spec fn view(&self) -> Seq<(H256, V)> {
        self.entries@
    }
}

impl<V: Copy> HashTable<V> {
    pub fn new() -> (r: HashTable<V>)
        ensures
            r@ == Seq::<(H256, V)>::empty(),
    {
        HashTable { entries: Vec::new() }
    }

    fn slot(&self, k: H256) -> (r: Option<usize>)
        ensures
            match r {
                Some(i) => first_match(self@, entry_key_is::<H256, V>(k), 0) == Some(i as int),
                None => first_match(self@, entry_key_is::<H256, V>(k), 0) is None,
            },
    {
        let mut i: usize = 0;
        while i < self.entries.len()
            invariant
                i <= self@.len(),
                first_match(self@, entry_key_is::<H256, V>(k), i as int) == first_match(self@, entry_key_is::<H256, V>(k), 0),
            decreases self@.len() - i,
        {
            if self.entries[i].0 == k {
                return Some(i);
            }
            i = i + 1;
        }
        None
    }

    /// The value at key `k`.
    pub fn get(&self, k: H256) -> (r: Option<V>)
        ensures
            r == entry_get(self@, k),
    {
        match self.slot(k) {
            Some(i) => {
                proof {
                    lemma_first_match(self@, entry_key_is::<H256, V>(k), 0);
                }
                Some(self.entries[i].1)
            },
            None => None,
        }
    }

    /// Sets the value at key `k`.
    pub fn put(&mut self, k: H256, v: V)
        ensures
            entry_get(final(self)@, k) == Some(v),
            forall|x: H256| x != k ==> entry_get(final(self)@, x) == entry_get(old(self)@, x),
    {
        let slot = self.slot(k);
        let ghost t = self@;
        proof {
            lemma_first_match(t, entry_key_is::<H256, V>(k), 0);
        }
        let i: usize = match slot {
            Some(i) => {
                self.entries.set(i, (k, v));
                i
            },
            None => {
                let n = self.entries.len();
                self.entries.push((k, v));
                n
            },
        };
        proof {
            let u = self@;
            assert forall|x: H256| x != k implies entry_get(u, x) == entry_get(t, x) by {
                assert forall|j: int| 0 <= j < t.len() && entry_key_is::<H256, V>(x)(t[j])
                    implies j < u.len() && u[j] == t[j] by {
                    if j == i {
                        assert(t[j].0 == k);
                    }
                }
                assert forall|j: int| 0 <= j < u.len() && entry_key_is::<H256, V>(x)(u[j])
                    implies j < t.len() && u[j] == t[j] by {
                    if j == i {
                        assert(u[j].0 == k);
                    }
                }
                lemma_first_match_frame(t, u, entry_key_is::<H256, V>(x), 0);
                lemma_first_match(t, entry_key_is::<H256, V>(x), 0);
            }
            lemma_first_match(u, entry_key_is::<H256, V>(k), 0);
            assert(entry_key_is::<H256, V>(k)(u[i as int]));
            if first_match(u, entry_key_is::<H256, V>(k), 0) != Some(i as int) {
                let j = first_match(u, entry_key_is::<H256, V>(k), 0)->Some_0;
                assert(u[j] == t[j]);
            }
        }
    }
}


/// Whether the numbers ascend strictly.
pub open spec fn ascending(s: Seq<u64>) -> bool {
    forall|i: int, j: int| 0 <= i < j < s.len() ==> s[i] < s[j]
}

/// In an ascending list every number is at most the last.
pub proof fn lemma_ascending_last(s: Seq<u64>, x: u64)
    requires
        ascending(s),
        s.contains(x),
    ensures
        x <= s.last(),
{
    let k = choose|k: int| 0 <= k < s.len() && s[k] == x;
    if k < s.len() - 1 {
        assert(s[k] < s[s.len() - 1]);
    }
}

/// Adds `b` to an ascending list of numbers where it is missing.
pub fn insert_block(blocks: &mut Vec<u64>, b: u64)
    ensures
        ascending(old(blocks)@) ==> ascending(final(blocks)@),
        forall|x: u64| final(blocks)@.contains(x) <==> (old(blocks)@.contains(x) || x == b),
        ascending(old(blocks)@) && old(blocks)@.len() > 0 && b <= old(blocks)@.last() ==> final(blocks)@.len() > 0
            && final(blocks)@.last() == old(blocks)@.last(),
        old(blocks)@.len() > 0 ==> final(blocks)@.len() > 0,
{
    let mut p: usize = 0;
    while p < blocks.len() && blocks[p] < b
        invariant
            p <= blocks@.len(),
            forall|j: int| 0 <= j < p ==> blocks@[j] < b,
        decreases blocks@.len() - p,
    {
        p = p + 1;
    }
    let ghost s0 = blocks@;
    if p < blocks.len() && blocks[p] == b {
        return;
    }
    blocks.insert(p, b);
    proof {
        let s1 = blocks@;
        if ascending(s0) {
            assert forall|i: int, j: int| 0 <= i < j < s1.len() implies s1[i] < s1[j] by {
                if j < p {
                    assert(s1[i] == s0[i] && s1[j] == s0[j]);
                } else if j == p {
                    assert(s1[i] == s0[i]);
                } else if i == p {
                    assert(s1[j] == s0[j - 1]);
                    assert(s0[p as int] >= b);
                    if j - 1 > p {
                        assert(s0[p as int] < s0[j - 1]);
                    }
                } else if i < p {
                    assert(s1[i] == s0[i] && s1[j] == s0[j - 1]);
                    assert(s0[p as int] >= b);
                    if j - 1 > p {
                        assert(s0[p as int] < s0[j - 1]);
                    }
                } else {
                    assert(s1[i] == s0[i - 1] && s1[j] == s0[j - 1]);
                }
            }
        }
        assert forall|x: u64| s1.contains(x) <==> (s0.contains(x) || x == b) by {
            if s1.contains(x) {
                let k = choose|k: int| 0 <= k < s1.len() && s1[k] == x;
                if k < p {
                    assert(s0[k] == x);
                } else if k > p {
                    assert(s0[k - 1] == x);
                }
            }
            if s0.contains(x) {
                let k = choose|k: int| 0 <= k < s0.len() && s0[k] == x;
                if k < p {
                    assert(s1[k] == x);
                } else {
                    assert(s1[k + 1] == x);
                }
            }
            if x == b {
                assert(s1[p as int] == b);
            }
        }
        if ascending(s0) && s0.len() > 0 && b <= s0.last() {
            if p == s0.len() {
                assert(s0[s0.len() - 1] < b);
            }
            assert(s1.last() == s0[s0.len() - 1]);
        }
    }
}

} // verus!
