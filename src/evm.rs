use vstd::prelude::*;
use crate::word::Word;

verus! {

/// The size of an EVM word in bytes.
pub const WORD_SIZE: u32 = 32;

/// The number of words an EVM stack holds at most.
pub const STACK_SIZE: usize = 1024;

/// The deepest nesting of call frames.
pub const MAX_CONTEXT_DEPTH: usize = 1024;

/// `ceil(bytes / 32)`.
pub open spec fn words_for(bytes: nat) -> nat {
    (bytes + 31) / 32
}

/// Gas that a heap of `words` words costs in all.
pub open spec fn mem_cost_spec(words: nat) -> nat {
    words * words / 512 + 3 * words
}

/// Rounds a byte count up to a count of words.
pub fn num_words_u64(size_in_bytes: u64) -> (r: u32)
    requires
        size_in_bytes <= 2 * (u32::MAX as u64),
    ensures
        r == words_for(size_in_bytes as nat),
{
    ((size_in_bytes + 31) / 32) as u32
}

/// Returns the number of words that hold the given number of bytes,
/// i.e. it rounds the number of bytes up to whole words.
pub fn num_words(size_in_bytes: u32) -> (r: u32)
    ensures
        r == words_for(size_in_bytes as nat),
{
    num_words_u64(size_in_bytes as u64)
}

/// Gas that a heap of `words` words costs in all.
pub fn mem_cost(words: u32) -> (r: i64)
    ensures
        r == mem_cost_spec(words as nat),
{
    let w = words as u64;
    assert(w * w <= u32::MAX as u64 * u32::MAX as u64) by (nonlinear_arith)
        requires w <= u32::MAX;
    let sq: u64 = w * w;
    assert(sq / 512 <= 0x7f_ffff_ffff_ffff);
    (sq / 512 + 3 * w) as i64
}


/// The stack of one call frame.
///
/// All frames share one buffer: the words of the enclosing frames lie below
/// `base`, the frame's own words from `base` up, the top last.
pub struct EvmStack {
    items: Vec<Word>,
    base: usize,
}

/// The stack after pushing `v`, bottom first.
pub open spec fn push_spec(s: Seq<Word>, v: Word) -> Seq<Word> {
    s.push(v)
}

/// The stack after swapping the top with the word `pos` places below it.
pub open spec fn swap_top_spec(s: Seq<Word>, pos: int) -> Seq<Word> {
    s.update(s.len() - 1, s[s.len() - 1 - pos]).update(s.len() - 1 - pos, s[s.len() - 1])
}

impl View for EvmStack {
    type V = Seq<Word>;

    /// The frame's own words, bottom first.
    closed spec fn view(&self) -> Seq<Word> {
        self.items@.subrange(self.base as int, self.items@.len() as int)
    }
}

impl EvmStack {
    pub closed spec fn wf(&self) -> bool {
        &&& self.base <= self.items.len()
        &&& self.items.len() - self.base <= STACK_SIZE
    }

    /// The words of the enclosing frames, which this frame never touches.
    pub closed spec fn outer(&self) -> Seq<Word> {
        self.items@.subrange(0, self.base as int)
    }

    /// The word `pos` places below the top.
    pub fn get(&self, pos: usize) -> (r: &Word)
        requires
            self.wf(),
            pos < self@.len(),
        ensures
            *r == self@[self@.len() - 1 - pos],
    {
        &self.items[self.items.len() - 1 - pos]
    }

    /// A mutable reference to the word `pos` places below the top.
    pub fn get_mut(&mut self, pos: usize) -> (r: &mut Word)
        requires
            old(self).wf(),
            pos < old(self)@.len(),
        ensures
            *r == old(self)@[old(self)@.len() - 1 - pos],
            final(self).wf(),
            final(self)@ == old(self)@.update(old(self)@.len() - 1 - pos, *final(r)),
            final(self).outer() == old(self).outer(),
    {
        let i = self.items.len() - 1 - pos;
        proof {
            assert(self@.len() == self.items.len() - self.base);
        }
        let r = &mut self.items[i];
        proof {
            assert(after_borrow(self).items@ == old(self).items@.update(i as int, *final(r)));
            assert(after_borrow(self)@ =~= old(self)@.update(old(self)@.len() - 1 - pos, *final(r)));
            assert(after_borrow(self).outer() =~= old(self).outer());
        }
        r
    }

    /// The number of words on the frame's stack.
    pub fn len(&self) -> (r: usize)
        requires
            self.wf(),
        ensures
            r == self@.len(),
            r <= STACK_SIZE,
    {
        self.items.len() - self.base
    }

    pub fn is_empty(&self) -> (r: bool)
        requires
            self.wf(),
        ensures
            r == (self@.len() == 0),
    {
        self.len() == 0
    }

    pub fn push(&mut self, v: Word)
        requires
            old(self).wf(),
            old(self)@.len() < STACK_SIZE,
        ensures
            final(self).wf(),
            final(self)@ == push_spec(old(self)@, v),
            final(self).outer() == old(self).outer(),
    {
        self.items.push(v);
        assert(self@ =~= push_spec(old(self)@, v));
        assert(self.outer() =~= old(self).outer());
    }

    pub fn pop(&mut self) -> (r: Word)
        requires
            old(self).wf(),
            old(self)@.len() > 0,
        ensures
            final(self).wf(),
            r == old(self)@.last(),
            final(self)@ == old(self)@.drop_last(),
            final(self).outer() == old(self).outer(),
    {
        let r = self.items.pop().unwrap();
        assert(self@ =~= old(self)@.drop_last());
        assert(self.outer() =~= old(self).outer());
        r
    }

    /// Swaps the top word with the word `pos` places below it.
    pub fn swap_top(&mut self, pos: usize)
        requires
            old(self).wf(),
            0 < pos < old(self)@.len(),
        ensures
            final(self).wf(),
            final(self)@ == swap_top_spec(old(self)@, pos as int),
            final(self).outer() == old(self).outer(),
    {
        let top = self.items.len() - 1;
        let other = top - pos;
        let a = self.items[top];
        let b = self.items[other];
        self.items.set(top, b);
        self.items.set(other, a);
        assert(self@ =~= swap_top_spec(old(self)@, pos as int));
        assert(self.outer() =~= old(self).outer());
    }

    /// The frame's words, top first.
    pub fn to_vec(&self) -> (r: Vec<Word>)
        requires
            self.wf(),
        ensures
            r@ == self@.reverse(),
    {
        let mut out: Vec<Word> = Vec::new();
        let mut i: usize = self.items.len();
        while i > self.base
            invariant
                self.wf(),
                self.base <= i <= self.items.len(),
                out@.len() == self.items.len() - i,
                forall|j: int| 0 <= j < out@.len() ==> out@[j] == self.items@[self.items.len() - 1 - j],
            decreases i,
        {
            i = i - 1;
            out.push(self.items[i]);
        }
        assert(out@ =~= self@.reverse());
        out
    }
}


/// Bytes of the arena reserved for the stacks of all frames:
/// `32 * STACK_SIZE * MAX_CONTEXT_DEPTH`.
pub const SUPER_STACK_SIZE_BYTES: usize = 33554432;

/// Bytes of the arena in all: 1 GiB.
pub const TOTAL_MEM_SIZE: usize = 1073741824;

/// Bytes of the arena left for the heaps of all frames:
/// `TOTAL_MEM_SIZE - SUPER_STACK_SIZE_BYTES`.
pub const HEAP_REGION_BYTES: usize = 1040187392;

/// Page sizes that an arena can be mapped with.
#[derive(Clone, Copy, Debug, PartialEq, Eq, Structural)]
pub enum PageSize {
    Page4KiB,
    Page2MiB,
    Page1GiB,
}

/// The memory of all nested call frames of one worker.
///
/// Its stack and heap buffers are handed to the outermost frame by
/// [`EvmMemory::get_origin`], and from a frame to its sub-frame by
/// [`EvmSubMemory::next_submem`]; heap bytes are zero until written.
pub struct EvmMemory {
    page_size: PageSize,
}

impl EvmMemory {
    pub fn new() -> (r: EvmMemory)
        ensures
            r.page_size() == PageSize::Page4KiB,
    {
        EvmMemory::new_with_size(PageSize::Page4KiB)
    }

    pub fn new_with_size(page_size: PageSize) -> (r: EvmMemory)
        ensures
            r.page_size() == page_size,
    {
        EvmMemory { page_size }
    }

    pub closed spec fn page_size(&self) -> PageSize {
        self.page_size
    }

    /// The outermost frame: an empty stack and an empty heap.
    pub fn get_origin(&mut self) -> (r: EvmSubMemory)
        ensures
            r.wf(),
            r.is_active(),
            r.stack_part()@ == Seq::<Word>::empty(),
            r.stack_part().outer() == Seq::<Word>::empty(),
            r.heap_view() == Seq::<u8>::empty(),
            r.heap_base() == 0,
            r.heap_words() == 0,
            final(self).page_size() == old(self).page_size(),
    {
        let items: Vec<Word> = Vec::new();
        let heap: Vec<u8> = Vec::new();
        let r = EvmSubMemory {
            stack: EvmStack { items, base: 0 },
            heap,
            heap_base: 0,
            heap_size: 0,
            lent: None,
            parked: Ghost((Seq::empty(), Seq::empty())),
        };
        assert(r.stack@ =~= Seq::<Word>::empty());
        assert(r.stack.outer() =~= Seq::<Word>::empty());
        assert(r.heap_view() =~= Seq::<u8>::empty());
        r
    }
}

/// One call frame's view of the arena: its stack and its heap.
///
/// While a sub-frame is active the frame holds none of the buffers: they
/// come back by [`EvmSubMemory::release_submem`].
pub struct EvmSubMemory {
    stack: EvmStack,
    heap: Vec<u8>,
    heap_base: usize,
    /// Size of the heap in words.
    heap_size: u32,
    /// While a sub-frame is active: the stack length and heap length it started from.
    lent: Option<(usize, usize)>,
    /// While a sub-frame is active: the stack and heap buffers it started from.
    parked: Ghost<(Seq<Word>, Seq<u8>)>,
}

impl EvmSubMemory {
    pub closed spec fn wf(&self) -> bool {
        &&& self.lent is None ==> self.stack.wf()
        &&& self.heap_base <= HEAP_REGION_BYTES
        &&& self.lent is None ==> {
            &&& self.heap@.len() == self.heap_base + WORD_SIZE * self.heap_size
            &&& self.heap@.len() <= HEAP_REGION_BYTES
        }
        &&& self.lent matches Some((sl, hl)) ==> {
            &&& sl == self.parked@.0.len()
            &&& hl == self.parked@.1.len()
            &&& self.stack.base <= sl
            &&& sl - self.stack.base <= STACK_SIZE
            &&& hl == self.heap_base + WORD_SIZE * self.heap_size
            &&& hl <= HEAP_REGION_BYTES
        }
    }

    /// No sub-frame of this frame is active.
    pub closed spec fn is_active(&self) -> bool {
        self.lent is None
    }

    pub closed spec fn stack_part(&self) -> EvmStack {
        self.stack
    }

    /// Where the frame's heap starts in the arena's heap region.
    pub closed spec fn heap_base(&self) -> nat {
        self.heap_base as nat
    }

    /// The frame's heap size in words.
    pub closed spec fn heap_words(&self) -> nat {
        self.heap_size as nat
    }

    /// The frame's heap bytes.
    pub closed spec fn heap_view(&self) -> Seq<u8> {
        self.heap@.subrange(self.heap_base as int, self.heap@.len() as int)
    }

    /// The heap bytes of the enclosing frames.
    pub closed spec fn outer_heap(&self) -> Seq<u8> {
        self.heap@.subrange(0, self.heap_base as int)
    }

    /// While a sub-frame is active: this frame's own stack words.
    pub closed spec fn parked_stack(&self) -> Seq<Word> {
        self.parked@.0.subrange(self.stack.base as int, self.parked@.0.len() as int)
    }

    /// While a sub-frame is active: the stack words of the enclosing frames.
    pub closed spec fn parked_outer(&self) -> Seq<Word> {
        self.parked@.0.subrange(0, self.stack.base as int)
    }

    /// While a sub-frame is active: this frame's own heap bytes.
    pub closed spec fn parked_heap(&self) -> Seq<u8> {
        self.parked@.1.subrange(self.heap_base as int, self.parked@.1.len() as int)
    }

    /// While a sub-frame is active: the whole stack buffer it started from.
    pub closed spec fn parked_items(&self) -> Seq<Word> {
        self.parked@.0
    }

    /// While a sub-frame is active: the whole heap buffer it started from.
    pub closed spec fn parked_bytes(&self) -> Seq<u8> {
        self.parked@.1
    }

    /// Whether `c` is a sub-frame that started from this frame's buffers
    /// and has kept the part of them below its own.
    pub open spec fn is_parent_of(&self, c: &EvmSubMemory) -> bool {
        &&& !self.is_active()
        &&& c.stack_part().outer() == self.parked_items()
        &&& c.outer_heap() == self.parked_bytes()
    }

    /// A sub-frame: an empty stack above this frame's top and an empty heap
    /// after this frame's heap. This frame is inactive until it is released.
    pub fn next_submem(&mut self) -> (c: EvmSubMemory)
        requires
            old(self).wf(),
            old(self).is_active(),
        ensures
            final(self).wf(),
            !final(self).is_active(),
            final(self).parked_stack() == old(self).stack_part()@,
            final(self).parked_outer() == old(self).stack_part().outer(),
            final(self).parked_heap() == old(self).heap_view(),
            final(self).heap_words() == old(self).heap_words(),
            final(self).is_parent_of(&c),
            c.wf(),
            c.is_active(),
            c.stack_part()@ == Seq::<Word>::empty(),
            c.stack_part().outer() == old(self).stack_part().outer() + old(self).stack_part()@,
            c.heap_view() == Seq::<u8>::empty(),
            c.heap_words() == 0,
            c.heap_base() == old(self).heap_base() + WORD_SIZE * old(self).heap_words(),
    {
        let mut items: Vec<Word> = Vec::new();
        let mut heap: Vec<u8> = Vec::new();
        std::mem::swap(&mut items, &mut self.stack.items);
        std::mem::swap(&mut heap, &mut self.heap);
        let sl = items.len();
        let hl = heap.len();
        self.lent = Some((sl, hl));
        self.parked = Ghost((items@, heap@));
        let c = EvmSubMemory {
            stack: EvmStack { items, base: sl },
            heap,
            heap_base: hl,
            heap_size: 0,
            lent: None,
            parked: Ghost((Seq::empty(), Seq::empty())),
        };
        assert(c.stack@ =~= Seq::<Word>::empty());
        assert(c.heap_view() =~= Seq::<u8>::empty());
        assert(c.stack.outer() =~= old(self).stack.outer() + old(self).stack@);
        assert(c.stack.outer() =~= self.parked@.0);
        assert(c.outer_heap() =~= self.parked@.1);
        assert(self.parked_stack() =~= old(self).stack@);
        assert(self.parked_outer() =~= old(self).stack.outer());
        assert(self.parked_heap() =~= old(self).heap_view());
        c
    }

    /// Ends the active sub-frame `c`: its heap bytes are dropped, so that
    /// this frame sees zeros where the heap grows again, and this frame's
    /// stack and heap are as they were before `c` started.
    pub fn release_submem(&mut self, c: EvmSubMemory)
        requires
            old(self).wf(),
            c.wf(),
            c.is_active(),
            old(self).is_parent_of(&c),
        ensures
            final(self).wf(),
            final(self).is_active(),
            final(self).stack_part()@ == old(self).parked_stack(),
            final(self).stack_part().outer() == old(self).parked_outer(),
            final(self).heap_view() == old(self).parked_heap(),
            final(self).heap_base() == old(self).heap_base(),
            final(self).heap_words() == old(self).heap_words(),
    {
        let EvmSubMemory { stack, heap, heap_base, .. } = c;
        let EvmStack { items, base } = stack;
        let mut items = items;
        let mut heap = heap;
        proof {
            assert(items@.subrange(0, base as int) == self.parked@.0);
            assert(heap@.subrange(0, heap_base as int) == self.parked@.1);
        }
        items.truncate(base);
        heap.truncate(heap_base);
        assert(items@ =~= self.parked@.0);
        assert(heap@ =~= self.parked@.1);
        self.stack.items = items;
        self.heap = heap;
        self.lent = None;
        assert(self.stack@ =~= old(self).parked_stack());
        assert(self.stack.outer() =~= old(self).parked_outer());
    }

    /// The frame's stack.
    pub fn stack(&mut self) -> (r: &mut EvmStack)
        requires
            old(self).wf(),
            old(self).is_active(),
        ensures
            *r == old(self).stack_part(),
            r.wf(),
            final(self).stack_part() == *final(r),
            final(self).heap_view() == old(self).heap_view(),
            final(self).outer_heap() == old(self).outer_heap(),
            final(self).heap_base() == old(self).heap_base(),
            final(self).heap_words() == old(self).heap_words(),
            final(self).is_active(),
            final(r).wf() && final(r).outer() == r.outer() ==> final(self).wf(),
    {
        &mut self.stack
    }
}

/// The heap could not grow: the gas left does not pay for it.
#[derive(Clone, Copy, Debug, PartialEq, Eq, Structural)]
pub struct OutOfGas;


/// `n` zero bytes.
pub open spec fn zeros(n: nat) -> Seq<u8> {
    Seq::new(n, |i: int| 0u8)
}

/// Gas left after the heap grows from `old_words` to `new_words` words.
pub open spec fn gas_after_growth(gas_left: int, old_words: nat, new_words: nat) -> int {
    gas_left - growth_cost(old_words, new_words)
}

/// Gas that growing the heap from `old_words` to `new_words` words costs:
/// `(new² - old²) / 512 + 3 * (new - old)`.
pub open spec fn growth_cost(old_words: nat, new_words: nat) -> int {
    (new_words * new_words - old_words * old_words) / 512 + 3 * (new_words - old_words)
}

/// Execution state of one call frame.
pub struct ExecutionState {
    pub gas_left: i64,
    pub mem: EvmSubMemory,
    pub return_data: Vec<u8>,
    pub output_data: Vec<u8>,
}

impl ExecutionState {
    pub open spec fn wf(&self) -> bool {
        &&& self.mem.wf()
        &&& self.mem.is_active()
    }

    /// Whether the frame is `o` with only the gas left and the heap changed.
    pub open spec fn same_but_heap(&self, o: &ExecutionState) -> bool {
        &&& self.mem.stack_part() == o.mem.stack_part()
        &&& self.mem.heap_base() == o.mem.heap_base()
        &&& self.mem.outer_heap() == o.mem.outer_heap()
        &&& self.return_data@ == o.return_data@
        &&& self.output_data@ == o.output_data@
    }

    /// Whether the frame is `o`, unchanged.
    pub open spec fn unchanged_from(&self, o: &ExecutionState) -> bool {
        &&& self.same_but_heap(o)
        &&& self.gas_left == o.gas_left
        &&& self.mem.heap_words() == o.mem.heap_words()
        &&& self.mem.heap_view() == o.mem.heap_view()
    }

    pub fn new(gas_left: i64, mem: EvmSubMemory) -> (r: ExecutionState)
        requires
            mem.wf(),
            mem.is_active(),
        ensures
            r.wf(),
            r.gas_left == gas_left,
            r.mem == mem,
            r.return_data@ == Seq::<u8>::empty(),
            r.output_data@ == Seq::<u8>::empty(),
    {
        ExecutionState { gas_left, mem, return_data: Vec::new(), output_data: Vec::new() }
    }

    /// The frame's stack.
    pub fn stack(&mut self) -> (r: &mut EvmStack)
        requires
            old(self).wf(),
        ensures
            *r == old(self).mem.stack_part(),
            r.wf(),
            final(self).mem.stack_part() == *final(r),
            final(self).gas_left == old(self).gas_left,
            final(self).mem.heap_view() == old(self).mem.heap_view(),
            final(self).mem.outer_heap() == old(self).mem.outer_heap(),
            final(self).mem.heap_base() == old(self).mem.heap_base(),
            final(self).mem.heap_words() == old(self).mem.heap_words(),
            final(self).return_data@ == old(self).return_data@,
            final(self).output_data@ == old(self).output_data@,
            final(r).wf() && final(r).outer() == r.outer() ==> final(self).wf(),
    {
        self.mem.stack()
    }

    /// The frame's stack words, top first.
    pub fn clone_stack_to_vec(&self) -> (r: Vec<Word>)
        requires
            self.wf(),
        ensures
            r@ == self.mem.stack_part()@.reverse(),
    {
        self.mem.stack.to_vec()
    }

    /// The heap size in bytes.
    pub fn heap_size(&self) -> (r: u32)
        requires
            self.wf(),
        ensures
            r == WORD_SIZE * self.mem.heap_words(),
    {
        WORD_SIZE * self.mem.heap_size
    }

    /// The heap byte at `offset`.
    pub fn heap_byte(&self, offset: u32) -> (r: u8)
        requires
            self.wf(),
            offset < WORD_SIZE * self.mem.heap_words(),
        ensures
            r == self.mem.heap_view()[offset as int],
    {
        self.mem.heap[self.mem.heap_base + offset as usize]
    }

    /// Writes the heap byte at `offset`.
    pub fn set_heap_byte(&mut self, offset: u32, b: u8)
        requires
            old(self).wf(),
            offset < WORD_SIZE * old(self).mem.heap_words(),
        ensures
            final(self).wf(),
            final(self).same_but_heap(old(self)),
            final(self).gas_left == old(self).gas_left,
            final(self).mem.heap_words() == old(self).mem.heap_words(),
            final(self).mem.heap_view() == old(self).mem.heap_view().update(offset as int, b),
    {
        let i = self.mem.heap_base + offset as usize;
        self.mem.heap.set(i, b);
        assert(self.mem.heap_view() =~= old(self).mem.heap_view().update(offset as int, b));
        assert(self.mem.outer_heap() =~= old(self).mem.outer_heap());
    }

    /// Makes the heap hold `ceil((index + len) / 32)` words, charging
    /// `(new² - old²) / 512 + 3 * (new - old)` gas for the growth.
    ///
    /// The call fails, and nothing changes, where `index` does not fit in
    /// 32 bits, where the gas left would fall below zero, or where the heap
    /// would leave the arena. On growth the new bytes are zero.
    pub fn get_heap(&mut self, index: Word, len: u32) -> (r: Result<(), OutOfGas>)
        requires
            old(self).wf(),
        ensures
            final(self).wf(),
            final(self).same_but_heap(old(self)),
            r is Ok ==> final(self).mem.heap_words() >= words_for(index.value() + len as nat),
            ({
                let idx = index.value();
                let words = words_for(idx + len as nat);
                let old_words = old(self).mem.heap_words();
                let gas = gas_after_growth(old(self).gas_left as int, old_words, words);
                if idx > u32::MAX {
                    r is Err && final(self).unchanged_from(old(self))
                } else if words <= old_words {
                    r is Ok && final(self).unchanged_from(old(self))
                } else if gas < 0 || old(self).mem.heap_base() + WORD_SIZE * words > HEAP_REGION_BYTES {
                    r is Err && final(self).unchanged_from(old(self))
                } else {
                    &&& r is Ok
                    &&& final(self).gas_left == gas
                    &&& final(self).mem.heap_words() == words
                    &&& final(self).mem.heap_view()
                        == old(self).mem.heap_view() + zeros((WORD_SIZE * (words - old_words)) as nat)
                }
            }),
    {
        let index = match index.to_u32() {
            Some(i) => i,
            None => return Err(OutOfGas),
        };
        let requested_size: u64 = index as u64 + len as u64;
        self.try_grow(num_words_u64(requested_size))
    }

    fn try_grow(&mut self, new_words: u32) -> (r: Result<(), OutOfGas>)
        requires
            old(self).wf(),
        ensures
            final(self).wf(),
            final(self).same_but_heap(old(self)),
            ({
                let old_words = old(self).mem.heap_words();
                let gas = gas_after_growth(old(self).gas_left as int, old_words, new_words as nat);
                if new_words <= old_words {
                    r is Ok && final(self).unchanged_from(old(self))
                } else if gas < 0 || old(self).mem.heap_base() + WORD_SIZE * new_words > HEAP_REGION_BYTES {
                    r is Err && final(self).unchanged_from(old(self))
                } else {
                    &&& r is Ok
                    &&& final(self).gas_left == gas
                    &&& final(self).mem.heap_words() == new_words
                    &&& final(self).mem.heap_view()
                        == old(self).mem.heap_view() + zeros((WORD_SIZE * (new_words - old_words)) as nat)
                }
            }),
    {
        let old_words = self.mem.heap_size;
        if new_words <= old_words {
            return Ok(());
        }
        let w = new_words as u64;
        let h = old_words as u64;
        assert(h * h <= w * w && w * w <= u32::MAX as u64 * u32::MAX as u64) by (nonlinear_arith)
            requires h < w, w <= u32::MAX;
        let cost: u64 = (w * w - h * h) / 512 + 3 * (w - h);
        assert(cost == growth_cost(old_words as nat, new_words as nat));
        let left: i128 = self.gas_left as i128 - cost as i128;
        if left < 0 {
            return Err(OutOfGas);
        }
        if self.mem.heap_base > HEAP_REGION_BYTES || new_words as usize > (HEAP_REGION_BYTES - self.mem.heap_base) / 32 {
            return Err(OutOfGas);
        }
        let extra: usize = 32 * (new_words - old_words) as usize;
        let ghost start = self.mem.heap@;
        let mut i: usize = 0;
        while i < extra
            invariant
                i <= extra,
                self.mem.heap@ == start + zeros(i as nat),
                start == old(self).mem.heap@,
                start.len() == self.mem.heap_base + 32 * old_words,
                extra == 32 * (new_words - old_words),
                self.mem.heap_base + 32 * new_words <= HEAP_REGION_BYTES,
                self.mem.heap_base == old(self).mem.heap_base,
                self.mem.heap_size == old_words,
                self.mem.stack == old(self).mem.stack,
                self.mem.lent is None,
                self.gas_left == old(self).gas_left,
                self.return_data == old(self).return_data,
                self.output_data == old(self).output_data,
            decreases extra - i,
        {
            self.mem.heap.push(0u8);
            assert(self.mem.heap@ =~= start + zeros(i as nat + 1));
            i = i + 1;
        }
        self.gas_left = left as i64;
        self.mem.heap_size = new_words;
        assert(self.mem.heap_view() =~= old(self).mem.heap_view() + zeros((WORD_SIZE * (new_words - old_words)) as nat));
        assert(self.mem.outer_heap() =~= old(self).mem.outer_heap());
        Ok(())
    }
}


/// The stack after pushing each word of `xs` in turn.
pub open spec fn push_all(s: Seq<Word>, xs: Seq<Word>) -> Seq<Word>
    decreases xs.len(),
{
    if xs.len() == 0 {
        s
    } else {
        push_spec(push_all(s, xs.drop_last()), xs.last())
    }
}

/// The words that `n` pops from `s` return, in the order they come.
pub open spec fn pop_n(s: Seq<Word>, n: nat) -> Seq<Word>
    decreases n,
{
    if n == 0 || s.len() == 0 {
        Seq::empty()
    } else {
        seq![s.last()] + pop_n(s.drop_last(), (n - 1) as nat)
    }
}

/// The stack left after `n` pops from `s`.
pub open spec fn drop_n(s: Seq<Word>, n: nat) -> Seq<Word>
    decreases n,
{
    if n == 0 || s.len() == 0 {
        s
    } else {
        drop_n(s.drop_last(), (n - 1) as nat)
    }
}

/// Pushing words and popping as many returns them in reverse order and
/// leaves the stack as it was.
pub proof fn lemma_push_pop_reverses(s: Seq<Word>, xs: Seq<Word>)
    ensures
        pop_n(push_all(s, xs), xs.len()) == xs.reverse(),
        drop_n(push_all(s, xs), xs.len()) == s,
        push_all(s, xs).len() == s.len() + xs.len(),
    decreases xs.len(),
{
    if xs.len() > 0 {
        let ys = xs.drop_last();
        lemma_push_pop_reverses(s, ys);
        let p = push_all(s, xs);
        assert(p.drop_last() =~= push_all(s, ys));
        assert(p.last() == xs.last());
        assert(xs.reverse() =~= seq![xs.last()] + ys.reverse());
    } else {
        assert(xs.reverse() =~= Seq::<Word>::empty());
    }
}

/// After pushing words, the word `i` places below the top is the one
/// pushed `i` pushes before the last.
pub proof fn lemma_get_after_push(s: Seq<Word>, xs: Seq<Word>, i: int)
    requires
        0 <= i < xs.len(),
    ensures
        push_all(s, xs)[push_all(s, xs).len() - 1 - i] == xs[xs.len() - 1 - i],
    decreases xs.len(),
{
    lemma_push_pop_reverses(s, xs);
    if i > 0 {
        lemma_get_after_push(s, xs.drop_last(), i - 1);
        lemma_push_pop_reverses(s, xs.drop_last());
    }
}

/// Swapping the top with the same word twice restores the stack.
pub proof fn lemma_swap_top_involution(s: Seq<Word>, pos: int)
    requires
        0 < pos < s.len(),
    ensures
        swap_top_spec(swap_top_spec(s, pos), pos) == s,
{
    assert(swap_top_spec(swap_top_spec(s, pos), pos) =~= s);
}

} // verus!
